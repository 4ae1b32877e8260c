use vstd::prelude::*;

verus! {

/// One physical unit expressed in micro-units: every scalar field of the
/// simulation (curvature, matter density, rip strength, gravity well) is a
/// fixed-point value counted in millionths of a unit.
pub const MICRO_SCALE: u64 = 1_000_000;

/// Upper bound for every scalar the simulation handles, in micro-units.
/// It is a multiple of `MICRO_SCALE`, small enough that a sum over a whole
/// lattice window fits in 128 bits and a product with a lattice coordinate
/// fits in 64 bits.
pub const SCALAR_LIMIT: u64 = 4_000_000_000_000_000;

/// A scalar is any micro-unit value within the representable range.
pub open spec fn is_scalar(v: u64) -> bool {
    v <= SCALAR_LIMIT
}

/// Mathematical clamp of a non-negative value into the scalar range.
pub open spec fn clamped(x: int) -> int {
    if x > SCALAR_LIMIT { SCALAR_LIMIT as int } else { x }
}

/// Saturating fixed-point addition: the sum of two scalars, clamped.
pub fn add_scalar(a: u64, b: u64) -> (r: u64)
    requires
        is_scalar(a),
        is_scalar(b),
    ensures
        r == clamped(a + b),
        is_scalar(r),
{
    let s: u64 = a + b;
    if s > SCALAR_LIMIT { SCALAR_LIMIT } else { s }
}

/// Saturating fixed-point scaling by a small integer factor.
pub fn mul_scalar(a: u64, factor: u64) -> (r: u64)
    requires
        is_scalar(a),
        factor <= 4096,
    ensures
        r == clamped(a * factor),
        is_scalar(r),
{
    proof {
        assert(a * factor <= SCALAR_LIMIT * 4096) by (nonlinear_arith)
            requires a <= SCALAR_LIMIT, factor <= 4096;
    }
    let p: u64 = a * factor;
    if p > SCALAR_LIMIT { SCALAR_LIMIT } else { p }
}

/// Round a micro-unit scalar to the nearest thousandth of a unit
/// (half-thousandths round up), as the snapshot stream stores curvature
/// and rip strength.
pub open spec fn quantized_milli(v: int) -> int {
    ((v + 500) / 1000) * 1000
}

/// Rounding to milli-resolution keeps a scalar in range and on the
/// milli-grid.
pub proof fn lemma_quantized_milli_bounds(v: int)
    requires
        0 <= v <= SCALAR_LIMIT,
    ensures
        0 <= quantized_milli(v) <= SCALAR_LIMIT,
        quantized_milli(v) % 1000 == 0,
{
    assert(0 <= (v + 500) / 1000);
    assert(v + 500 <= SCALAR_LIMIT + 500);
    assert((v + 500) / 1000 <= (SCALAR_LIMIT + 500) / 1000);
    assert((SCALAR_LIMIT + 500) / 1000 == SCALAR_LIMIT / 1000);
    assert(((v + 500) / 1000) * 1000 <= (SCALAR_LIMIT / 1000) * 1000) by (nonlinear_arith)
        requires (v + 500) / 1000 <= SCALAR_LIMIT / 1000;
    assert((SCALAR_LIMIT / 1000) * 1000 == SCALAR_LIMIT);
    assert((((v + 500) / 1000) * 1000) % 1000 == 0) by (nonlinear_arith);
    assert(0 <= ((v + 500) / 1000) * 1000) by (nonlinear_arith)
        requires 0 <= (v + 500) / 1000;
}

/// Executable milli-quantization.
pub fn quantize_milli(v: u64) -> (r: u64)
    requires
        is_scalar(v),
    ensures
        r == quantized_milli(v as int),
        is_scalar(r),
        r % 1000 == 0,
{
    proof {
        lemma_quantized_milli_bounds(v as int);
    }
    ((v + 500) / 1000) * 1000
}

} // verus!
