use vstd::prelude::*;

use vstd::arithmetic::div_mod::{lemma_div_is_ordered, lemma_div_multiples_vanish};
use crate::scalar::{is_scalar, SCALAR_LIMIT};

verus! {

/// Linear index of lattice position `(x, y, z)` in a flat `m * m * m`
/// buffer, column-major then row then layer.
pub open spec fn cell_index(m: int, x: int, y: int, z: int) -> int {
    (x * m + y) * m + z
}

/// Low edge of the smoothing window around coordinate `c` with the given
/// radius, clipped at zero.
pub open spec fn wlo(c: int, r: int) -> int {
    if c >= r { c - r } else { 0 }
}

/// High edge of the smoothing window around coordinate `c`, clipped at the
/// lattice bound.
pub open spec fn whi(c: int, r: int, m: int) -> int {
    if c + r < m { c + r } else { m - 1 }
}

/// Number of in-bounds window coordinates on one axis.
pub open spec fn wspan(c: int, r: int, m: int) -> int {
    whi(c, r, m) - wlo(c, r) + 1
}

/// Sum of the densities along one z run at fixed `(x, y)`.
pub open spec fn sum_z(d: Seq<u64>, m: int, x: int, y: int, zlo: int, zhi: int) -> int
    decreases zhi + 1 - zlo,
{
    if zhi < zlo {
        0
    } else {
        sum_z(d, m, x, y, zlo, zhi - 1) + d[cell_index(m, x, y, zhi)]
    }
}

/// Sum of the densities over a y-z rectangle at fixed `x`.
pub open spec fn sum_y(d: Seq<u64>, m: int, x: int, ylo: int, yhi: int, zlo: int, zhi: int) -> int
    decreases yhi + 1 - ylo,
{
    if yhi < ylo {
        0
    } else {
        sum_y(d, m, x, ylo, yhi - 1, zlo, zhi) + sum_z(d, m, x, yhi, zlo, zhi)
    }
}

/// Sum of the densities over a whole coordinate box.
pub open spec fn sum_x(d: Seq<u64>, m: int, xlo: int, xhi: int, ylo: int, yhi: int, zlo: int, zhi: int) -> int
    decreases xhi + 1 - xlo,
{
    if xhi < xlo {
        0
    } else {
        sum_x(d, m, xlo, xhi - 1, ylo, yhi, zlo, zhi) + sum_y(d, m, xhi, ylo, yhi, zlo, zhi)
    }
}

/// Sum of the densities inside the clipped window around `(x, y, z)`.
pub open spec fn window_sum(d: Seq<u64>, m: int, r: int, x: int, y: int, z: int) -> int {
    sum_x(d, m, wlo(x, r), whi(x, r, m), wlo(y, r), whi(y, r, m), wlo(z, r), whi(z, r, m))
}

/// Number of lattice sites inside the clipped window around `(x, y, z)`.
pub open spec fn window_count(m: int, r: int, x: int, y: int, z: int) -> int {
    wspan(x, r, m) * wspan(y, r, m) * wspan(z, r, m)
}

/// The smoothed density at `(x, y, z)`: the arithmetic mean of all
/// in-bounds densities within the window; the divisor is the sample count,
/// not the window volume.
pub open spec fn smoothed_at(d: Seq<u64>, m: int, r: int, x: int, y: int, z: int) -> int {
    window_sum(d, m, r, x, y, z) / window_count(m, r, x, y, z)
}

proof fn lemma_sum_z_const(d: Seq<u64>, m: int, x: int, y: int, zlo: int, zhi: int, v: u64)
    requires
        zlo <= zhi + 1,
        forall|z: int| zlo <= z <= zhi ==>
            0 <= cell_index(m, x, y, z) < d.len() && d[#[trigger] cell_index(m, x, y, z)] == v,
    ensures
        sum_z(d, m, x, y, zlo, zhi) == (zhi + 1 - zlo) * v,
    decreases zhi + 1 - zlo,
{
    if zhi < zlo {
        assert((zhi + 1 - zlo) * v == 0) by (nonlinear_arith)
            requires zhi + 1 - zlo == 0;
    } else {
        lemma_sum_z_const(d, m, x, y, zlo, zhi - 1, v);
        assert((zhi - zlo) * v + v == (zhi + 1 - zlo) * v) by (nonlinear_arith);
    }
}

proof fn lemma_sum_y_const(d: Seq<u64>, m: int, x: int, ylo: int, yhi: int, zlo: int, zhi: int, v: u64)
    requires
        ylo <= yhi + 1,
        zlo <= zhi + 1,
        forall|y: int, z: int| ylo <= y <= yhi && zlo <= z <= zhi ==>
            0 <= cell_index(m, x, y, z) < d.len() && d[#[trigger] cell_index(m, x, y, z)] == v,
    ensures
        sum_y(d, m, x, ylo, yhi, zlo, zhi) == (yhi + 1 - ylo) * (zhi + 1 - zlo) * v,
    decreases yhi + 1 - ylo,
{
    if yhi < ylo {
        assert((yhi + 1 - ylo) * (zhi + 1 - zlo) * v == 0) by (nonlinear_arith)
            requires yhi + 1 - ylo == 0;
    } else {
        lemma_sum_y_const(d, m, x, ylo, yhi - 1, zlo, zhi, v);
        lemma_sum_z_const(d, m, x, yhi, zlo, zhi, v);
        assert((yhi - ylo) * (zhi + 1 - zlo) * v + (zhi + 1 - zlo) * v
            == (yhi + 1 - ylo) * (zhi + 1 - zlo) * v) by (nonlinear_arith);
    }
}

proof fn lemma_sum_x_const(d: Seq<u64>, m: int, xlo: int, xhi: int, ylo: int, yhi: int, zlo: int, zhi: int, v: u64)
    requires
        xlo <= xhi + 1,
        ylo <= yhi + 1,
        zlo <= zhi + 1,
        forall|x: int, y: int, z: int| xlo <= x <= xhi && ylo <= y <= yhi && zlo <= z <= zhi ==>
            0 <= cell_index(m, x, y, z) < d.len() && d[#[trigger] cell_index(m, x, y, z)] == v,
    ensures
        sum_x(d, m, xlo, xhi, ylo, yhi, zlo, zhi)
            == (xhi + 1 - xlo) * (yhi + 1 - ylo) * (zhi + 1 - zlo) * v,
    decreases xhi + 1 - xlo,
{
    if xhi < xlo {
        assert((xhi + 1 - xlo) * (yhi + 1 - ylo) * (zhi + 1 - zlo) * v == 0) by (nonlinear_arith)
            requires xhi + 1 - xlo == 0;
    } else {
        lemma_sum_x_const(d, m, xlo, xhi - 1, ylo, yhi, zlo, zhi, v);
        lemma_sum_y_const(d, m, xhi, ylo, yhi, zlo, zhi, v);
        assert((xhi - xlo) * (yhi + 1 - ylo) * (zhi + 1 - zlo) * v
            + (yhi + 1 - ylo) * (zhi + 1 - zlo) * v
            == (xhi + 1 - xlo) * (yhi + 1 - ylo) * (zhi + 1 - zlo) * v) by (nonlinear_arith);
    }
}

/// Any lattice position has its linear index inside the flat buffer.
pub proof fn lemma_cell_index_bounds(m: int, x: int, y: int, z: int)
    requires
        1 <= m,
        0 <= x < m,
        0 <= y < m,
        0 <= z < m,
    ensures
        0 <= cell_index(m, x, y, z) < m * m * m,
{
    assert(0 <= (x * m + y) * m + z < m * m * m) by (nonlinear_arith)
        requires 1 <= m, 0 <= x < m, 0 <= y < m, 0 <= z < m;
}

/// Lexicographically earlier lattice positions have smaller linear
/// indices.
pub proof fn lemma_cell_index_mono(m: int, a: int, b: int, c: int, x: int, y: int, z: int)
    requires
        1 <= m,
        0 <= a < m, 0 <= b < m, 0 <= c < m,
        0 <= x < m, 0 <= y < m, 0 <= z < m,
        a < x || (a == x && b < y) || (a == x && b == y && c < z),
    ensures
        cell_index(m, a, b, c) < cell_index(m, x, y, z),
{
    assert((a * m + b) * m + c < (x * m + y) * m + z) by (nonlinear_arith)
        requires
            1 <= m,
            0 <= a < m, 0 <= b < m, 0 <= c < m,
            0 <= x < m, 0 <= y < m, 0 <= z < m,
            a < x || (a == x && b < y) || (a == x && b == y && c < z);
}

/// The smoothing filter is idempotent on a uniform field: if every cell of
/// the lattice holds the same value `v`, the smoothed value at every
/// position is again `v`, for every radius.
pub proof fn lemma_smoothing_uniform(d: Seq<u64>, m: int, r: int, v: u64, x: int, y: int, z: int)
    requires
        1 <= m,
        0 <= r,
        d.len() == m * m * m,
        forall|i: int| 0 <= i < d.len() ==> #[trigger] d[i] == v,
        0 <= x < m,
        0 <= y < m,
        0 <= z < m,
    ensures
        smoothed_at(d, m, r, x, y, z) == v,
{
    let xl = wlo(x, r);
    let xh = whi(x, r, m);
    let yl = wlo(y, r);
    let yh = whi(y, r, m);
    let zl = wlo(z, r);
    let zh = whi(z, r, m);
    assert forall|a: int, b: int, c: int| xl <= a <= xh && yl <= b <= yh && zl <= c <= zh
        implies 0 <= cell_index(m, a, b, c) < d.len() && d[#[trigger] cell_index(m, a, b, c)] == v by {
        lemma_cell_index_bounds(m, a, b, c);
    }
    lemma_sum_x_const(d, m, xl, xh, yl, yh, zl, zh, v);
    let count = window_count(m, r, x, y, z);
    assert(window_sum(d, m, r, x, y, z) == count * v);
    assert(count >= 1) by (nonlinear_arith)
        requires
            count == (xh - xl + 1) * (yh - yl + 1) * (zh - zl + 1),
            xh - xl + 1 >= 1,
            yh - yl + 1 >= 1,
            zh - zl + 1 >= 1;
    lemma_div_multiples_vanish(v as int, count);
    assert(count * v == count * (v as int));
}

/// Box-convolution smoothing pass: for every lattice position, the mean of
/// all in-bounds densities within the given radius (the position itself
/// included), reading only the input snapshot.  The input is not mutated.
pub fn smooth_density(grid: &Vec<u64>, m: usize, radius: usize) -> (out: Vec<u64>)
    requires
        1 <= m <= 1024,
        radius <= 1024,
        grid@.len() == m * m * m,
        forall|i: int| 0 <= i < grid@.len() ==> is_scalar(#[trigger] grid@[i]),
    ensures
        out@.len() == grid@.len(),
        forall|x: int, y: int, z: int|
            0 <= x < m && 0 <= y < m && 0 <= z < m ==>
                out@[#[trigger] cell_index(m as int, x, y, z)]
                    == smoothed_at(grid@, m as int, radius as int, x, y, z),
        forall|i: int| 0 <= i < out@.len() ==> is_scalar(#[trigger] out@[i]),
{
    let mut out: Vec<u64> = Vec::new();
    let ghost mi: int = m as int;
    let ghost ri: int = radius as int;
    proof {
        assert(cell_index(mi, 0, 0, 0) == 0) by (nonlinear_arith);
    }
    let mut x: usize = 0;
    while x < m
        invariant
            1 <= m <= 1024,
            radius <= 1024,
            mi == m as int,
            ri == radius as int,
            grid@.len() == m * m * m,
            forall|i: int| 0 <= i < grid@.len() ==> is_scalar(#[trigger] grid@[i]),
            x <= m,
            out@.len() == cell_index(mi, x as int, 0, 0),
            forall|a: int, b: int, c: int|
                0 <= a < x as int && 0 <= b < mi && 0 <= c < mi ==>
                    out@[#[trigger] cell_index(mi, a, b, c)] == smoothed_at(grid@, mi, ri, a, b, c),
            forall|i: int| 0 <= i < out@.len() ==> is_scalar(#[trigger] out@[i]),
        decreases m - x,
    {
        let mut y: usize = 0;
        while y < m
            invariant
                1 <= m <= 1024,
                radius <= 1024,
                mi == m as int,
                ri == radius as int,
                grid@.len() == m * m * m,
                forall|i: int| 0 <= i < grid@.len() ==> is_scalar(#[trigger] grid@[i]),
                x < m,
                y <= m,
                out@.len() == cell_index(mi, x as int, y as int, 0),
                forall|a: int, b: int, c: int|
                    0 <= a < x as int && 0 <= b < mi && 0 <= c < mi ==>
                        out@[#[trigger] cell_index(mi, a, b, c)] == smoothed_at(grid@, mi, ri, a, b, c),
                forall|b: int, c: int|
                    0 <= b < y as int && 0 <= c < mi ==>
                        out@[#[trigger] cell_index(mi, x as int, b, c)]
                            == smoothed_at(grid@, mi, ri, x as int, b, c),
                forall|i: int| 0 <= i < out@.len() ==> is_scalar(#[trigger] out@[i]),
            decreases m - y,
        {
            let mut z: usize = 0;
            while z < m
                invariant
                    1 <= m <= 1024,
                    radius <= 1024,
                    mi == m as int,
                    ri == radius as int,
                    grid@.len() == m * m * m,
                    forall|i: int| 0 <= i < grid@.len() ==> is_scalar(#[trigger] grid@[i]),
                    x < m,
                    y < m,
                    z <= m,
                    out@.len() == cell_index(mi, x as int, y as int, z as int),
                    forall|a: int, b: int, c: int|
                        0 <= a < x as int && 0 <= b < mi && 0 <= c < mi ==>
                            out@[#[trigger] cell_index(mi, a, b, c)] == smoothed_at(grid@, mi, ri, a, b, c),
                    forall|b: int, c: int|
                        0 <= b < y as int && 0 <= c < mi ==>
                            out@[#[trigger] cell_index(mi, x as int, b, c)]
                                == smoothed_at(grid@, mi, ri, x as int, b, c),
                    forall|c: int|
                        0 <= c < z as int ==>
                            out@[#[trigger] cell_index(mi, x as int, y as int, c)]
                                == smoothed_at(grid@, mi, ri, x as int, y as int, c),
                    forall|i: int| 0 <= i < out@.len() ==> is_scalar(#[trigger] out@[i]),
                decreases m - z,
            {
                let mean: u64 = window_mean(grid, m, radius, x, y, z);
                proof {
                    lemma_cell_index_bounds(mi, x as int, y as int, z as int);
                }
                let ghost prev = out@;
                out.push(mean);
                proof {
                    let ghost xi: int = x as int;
                    let ghost yi: int = y as int;
                    let ghost zi: int = z as int;
                    assert(out@[cell_index(mi, xi, yi, zi)] == mean);
                    assert forall|a: int, b: int, c: int|
                        0 <= a < xi && 0 <= b < mi && 0 <= c < mi
                        implies out@[#[trigger] cell_index(mi, a, b, c)]
                            == smoothed_at(grid@, mi, ri, a, b, c) by {
                        lemma_cell_index_bounds(mi, a, b, c);
                        lemma_cell_index_mono(mi, a, b, c, xi, yi, zi);
                        assert(out@[cell_index(mi, a, b, c)] == prev[cell_index(mi, a, b, c)]);
                    }
                    assert forall|b: int, c: int|
                        0 <= b < yi && 0 <= c < mi
                        implies out@[#[trigger] cell_index(mi, xi, b, c)]
                            == smoothed_at(grid@, mi, ri, xi, b, c) by {
                        lemma_cell_index_bounds(mi, xi, b, c);
                        lemma_cell_index_mono(mi, xi, b, c, xi, yi, zi);
                        assert(out@[cell_index(mi, xi, b, c)] == prev[cell_index(mi, xi, b, c)]);
                    }
                    assert forall|c: int|
                        0 <= c < zi + 1
                        implies out@[#[trigger] cell_index(mi, xi, yi, c)]
                            == smoothed_at(grid@, mi, ri, xi, yi, c) by {
                        lemma_cell_index_bounds(mi, xi, yi, c);
                        if c < zi {
                            lemma_cell_index_mono(mi, xi, yi, c, xi, yi, zi);
                            assert(out@[cell_index(mi, xi, yi, c)] == prev[cell_index(mi, xi, yi, c)]);
                        }
                    }
                }
                z = z + 1;
            }
            proof {
                assert(cell_index(mi, x as int, y as int, mi)
                    == cell_index(mi, x as int, y as int + 1, 0)) by (nonlinear_arith);
            }
            y = y + 1;
        }
        proof {
            assert(cell_index(mi, x as int, mi, 0)
                == cell_index(mi, x as int + 1, 0, 0)) by (nonlinear_arith);
        }
        x = x + 1;
    }
    proof {
        assert(cell_index(mi, mi, 0, 0) == mi * mi * mi) by (nonlinear_arith);
    }
    out
}

/// Mean density over the clipped window around one lattice position.
fn window_mean(grid: &Vec<u64>, m: usize, radius: usize, x: usize, y: usize, z: usize) -> (mean: u64)
    requires
        1 <= m <= 1024,
        radius <= 1024,
        x < m,
        y < m,
        z < m,
        grid@.len() == m * m * m,
        forall|i: int| 0 <= i < grid@.len() ==> is_scalar(#[trigger] grid@[i]),
    ensures
        mean == smoothed_at(grid@, m as int, radius as int, x as int, y as int, z as int),
        is_scalar(mean),
{
    let ghost mi: int = m as int;
    let ghost ri: int = radius as int;
    let xl: usize = if x >= radius { x - radius } else { 0 };
    let xh: usize = if x + radius < m { x + radius } else { m - 1 };
    let yl: usize = if y >= radius { y - radius } else { 0 };
    let yh: usize = if y + radius < m { y + radius } else { m - 1 };
    let zl: usize = if z >= radius { z - radius } else { 0 };
    let zh: usize = if z + radius < m { z + radius } else { m - 1 };
    let ghost sx: int = wspan(x as int, ri, mi);
    let ghost sy: int = wspan(y as int, ri, mi);
    let ghost sz: int = wspan(z as int, ri, mi);
    let mut total: u128 = 0;
    let mut count: u64 = 0;
    proof {
        assert((xl - xl) * sy * sz == 0) by (nonlinear_arith);
        assert((yl - yl) * sz == 0) by (nonlinear_arith);
    }
    let mut wx: usize = xl;
    while wx <= xh
        invariant
            1 <= m <= 1024,
            mi == m as int,
            ri == radius as int,
            grid@.len() == m * m * m,
            forall|i: int| 0 <= i < grid@.len() ==> is_scalar(#[trigger] grid@[i]),
            x < m && y < m && z < m,
            xl == wlo(x as int, ri) && xh == whi(x as int, ri, mi),
            yl == wlo(y as int, ri) && yh == whi(y as int, ri, mi),
            zl == wlo(z as int, ri) && zh == whi(z as int, ri, mi),
            sx == wspan(x as int, ri, mi) && sy == wspan(y as int, ri, mi) && sz == wspan(z as int, ri, mi),
            xl <= wx <= xh + 1,
            count == (wx - xl) * sy * sz,
            count <= 0x4000_0000,
            total == sum_x(grid@, mi, xl as int, wx - 1, yl as int, yh as int, zl as int, zh as int),
            total <= count * (SCALAR_LIMIT as u128),
        decreases xh + 1 - wx,
    {
        let mut wy: usize = yl;
        while wy <= yh
            invariant
                1 <= m <= 1024,
                mi == m as int,
                ri == radius as int,
                grid@.len() == m * m * m,
                forall|i: int| 0 <= i < grid@.len() ==> is_scalar(#[trigger] grid@[i]),
                x < m && y < m && z < m,
                xl == wlo(x as int, ri) && xh == whi(x as int, ri, mi),
                yl == wlo(y as int, ri) && yh == whi(y as int, ri, mi),
                zl == wlo(z as int, ri) && zh == whi(z as int, ri, mi),
                sx == wspan(x as int, ri, mi) && sy == wspan(y as int, ri, mi) && sz == wspan(z as int, ri, mi),
                xl <= wx <= xh,
                yl <= wy <= yh + 1,
                count == (wx - xl) * sy * sz + (wy - yl) * sz,
                count <= 0x4000_0000,
                total == sum_x(grid@, mi, xl as int, wx - 1, yl as int, yh as int, zl as int, zh as int)
                    + sum_y(grid@, mi, wx as int, yl as int, wy - 1, zl as int, zh as int),
                total <= count * (SCALAR_LIMIT as u128),
            decreases yh + 1 - wy,
        {
            let mut wz: usize = zl;
            while wz <= zh
                invariant
                    1 <= m <= 1024,
                    mi == m as int,
                    ri == radius as int,
                    grid@.len() == m * m * m,
                    forall|i: int| 0 <= i < grid@.len() ==> is_scalar(#[trigger] grid@[i]),
                    x < m && y < m && z < m,
                    xl == wlo(x as int, ri) && xh == whi(x as int, ri, mi),
                    yl == wlo(y as int, ri) && yh == whi(y as int, ri, mi),
                    zl == wlo(z as int, ri) && zh == whi(z as int, ri, mi),
                    sx == wspan(x as int, ri, mi) && sy == wspan(y as int, ri, mi) && sz == wspan(z as int, ri, mi),
                    xl <= wx <= xh,
                    yl <= wy <= yh,
                    zl <= wz <= zh + 1,
                    count == (wx - xl) * sy * sz + (wy - yl) * sz + (wz - zl),
                    count <= 0x4000_0000,
                    total == sum_x(grid@, mi, xl as int, wx - 1, yl as int, yh as int, zl as int, zh as int)
                        + sum_y(grid@, mi, wx as int, yl as int, wy - 1, zl as int, zh as int)
                        + sum_z(grid@, mi, wx as int, wy as int, zl as int, wz - 1),
                    total <= count * (SCALAR_LIMIT as u128),
                decreases zh + 1 - wz,
            {
                proof {
                    lemma_cell_index_bounds(mi, wx as int, wy as int, wz as int);
                    assert((wx - xl) * sy * sz + (wy - yl) * sz + (wz - zl) + 1 <= sx * sy * sz)
                        by (nonlinear_arith)
                        requires
                            sx == xh - xl + 1,
                            sy == yh - yl + 1,
                            sz == zh - zl + 1,
                            xl <= wx <= xh,
                            yl <= wy <= yh,
                            zl <= wz <= zh;
                    assert(sx * sy * sz <= 0x4000_0000) by (nonlinear_arith)
                        requires 1 <= sx <= 1024, 1 <= sy <= 1024, 1 <= sz <= 1024;
                }
                proof {
                    assert(wx < m && wy < m && wz < m);
                    assert((wx as int) * mi <= 1023 * 1024) by (nonlinear_arith)
                        requires (wx as int) < mi, mi <= 1024;
                    assert(((wx as int) * mi + wy as int) * mi <= 1024 * 1024 * 1024)
                        by (nonlinear_arith)
                        requires (wx as int) * mi + (wy as int) <= 1023 * 1024 + 1023, 0 <= (wx as int) * mi + (wy as int), mi <= 1024, mi >= 0;
                }
                let idx: usize = (wx * m + wy) * m + wz;
                proof {
                    assert(idx == cell_index(mi, wx as int, wy as int, wz as int));
                }
                let g: u64 = grid[idx];
                proof {
                    assert(is_scalar(g));
                    assert((count + 1) * (SCALAR_LIMIT as int)
                        == count * (SCALAR_LIMIT as int) + SCALAR_LIMIT) by (nonlinear_arith);
                    assert(count * (SCALAR_LIMIT as int) <= 0x4000_0000 * (SCALAR_LIMIT as int))
                        by (nonlinear_arith)
                        requires count <= 0x4000_0000;
                }
                total = total + g as u128;
                count = count + 1;
                wz = wz + 1;
            }
            proof {
                assert((wx - xl) * sy * sz + (wy - yl) * sz + (zh + 1 - zl)
                    == (wx - xl) * sy * sz + (wy + 1 - yl) * sz) by (nonlinear_arith)
                    requires sz == zh + 1 - zl;
            }
            wy = wy + 1;
        }
        proof {
            assert((wx - xl) * sy * sz + (yh + 1 - yl) * sz
                == (wx + 1 - xl) * sy * sz) by (nonlinear_arith)
                requires sy == yh + 1 - yl;
        }
        wx = wx + 1;
    }
    proof {
        assert((xh + 1 - xl) * sy * sz == sx * sy * sz);
        assert(count == window_count(mi, ri, x as int, y as int, z as int));
        assert(count >= 1) by (nonlinear_arith)
            requires
                count == sx * sy * sz,
                sx >= 1,
                sy >= 1,
                sz >= 1;
        assert(total == window_sum(grid@, mi, ri, x as int, y as int, z as int));
    }
    let mean_wide: u128 = total / (count as u128);
    proof {
        lemma_div_is_ordered(total as int, count * SCALAR_LIMIT, count as int);
        lemma_div_multiples_vanish(SCALAR_LIMIT as int, count as int);
        assert(count * SCALAR_LIMIT == (count as int) * (SCALAR_LIMIT as int));
        assert(mean_wide <= SCALAR_LIMIT);
    }
    mean_wide as u64
}

} // verus!
