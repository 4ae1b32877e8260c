use vstd::prelude::*;

use crate::cell::{
    grav_curvature, grav_density, neighbors_assigned, Cell,
};
use crate::record::{record_of_cell, CellRecord};
use crate::scalar::{clamped, is_scalar, MICRO_SCALE, SCALAR_LIMIT};
use crate::smoothing::{cell_index, lemma_cell_index_bounds, smoothed_at};

verus! {

/// The lattice axis along which the seeding stretch is applied; `Uniform`
/// leaves every cell alone, as an unrecognized axis name does.
#[derive(Clone, Copy, Debug, PartialEq, Eq, Structural)]
pub enum StretchAxis {
    Col,
    Row,
    Layer,
    Uniform,
}

/// Phases of the engine's run: freshly allocated, stepping through time,
/// or done with every step.
#[derive(Clone, Copy, Debug, PartialEq, Eq, Structural)]
pub enum EnginePhase {
    Seeding,
    Running,
    Finalizing,
}

/// Static parameters of one engine run, fixed at construction.
#[derive(Clone, Copy, Debug, PartialEq, Eq, Structural)]
pub struct EngineParams {
    /// Single-axis extent of the cubic lattice.
    pub grid_size: usize,
    /// Number of time steps the run performs.
    pub num_timesteps: usize,
    /// Curvature above which a cell may collapse, micro-units.
    pub curvature_threshold: u64,
    /// Matter density above which a cell may collapse, micro-units.
    pub collapse_density_threshold: u64,
    /// Rip strength at the first step, micro-units.
    pub rip_initial: u64,
    /// Per-step rip decay multiplier, micro-units of one.
    pub rip_decay_factor: u64,
    /// Exclusive upper bound of the random initial curvature, micro-units.
    pub seed_curvature_bound: u64,
    /// Axis of the anisotropic seeding stretch.
    pub stretch_axis: StretchAxis,
    /// Radius of the density smoothing window.
    pub smoothing_radius: usize,
}

impl EngineParams {
    /// The parameters of the standard inflation run: a 64-sided lattice,
    /// one hundred steps, thresholds 0.2 and 0.005, rip strength 10
    /// decaying by 5 percent per unit time in steps of 0.01, seeds below
    /// 0.1 stretched along the column axis, smoothing radius one.
    pub fn preset() -> (p: EngineParams)
        ensures
            p == default_params(),
            params_valid(p),
    {
        EngineParams {
            grid_size: 64,
            num_timesteps: 100,
            curvature_threshold: 200_000,
            collapse_density_threshold: 5_000,
            rip_initial: 10_000_000,
            rip_decay_factor: 999_500,
            seed_curvature_bound: 100_000,
            stretch_axis: StretchAxis::Col,
            smoothing_radius: 1,
        }
    }
}

/// The default run parameters as a spec value.
pub open spec fn default_params() -> EngineParams {
    EngineParams {
        grid_size: 64,
        num_timesteps: 100,
        curvature_threshold: 200_000,
        collapse_density_threshold: 5_000,
        rip_initial: 10_000_000,
        rip_decay_factor: 999_500,
        seed_curvature_bound: 100_000,
        stretch_axis: StretchAxis::Col,
        smoothing_radius: 1,
    }
}

/// Well-formed run parameters: a non-empty lattice of bounded extent and
/// scalars in range, with a decay factor of at most one.
pub open spec fn params_valid(p: EngineParams) -> bool {
    &&& 1 <= p.grid_size <= 1024
    &&& is_scalar(p.curvature_threshold)
    &&& is_scalar(p.collapse_density_threshold)
    &&& is_scalar(p.rip_initial)
    &&& p.rip_decay_factor <= MICRO_SCALE
    &&& 1 <= p.seed_curvature_bound
    &&& is_scalar(p.seed_curvature_bound)
    &&& p.smoothing_radius <= 1024
}

/// The stretch factor of a cell: one plus its coordinate along the chosen
/// axis, or one when no axis is chosen.
pub open spec fn stretch_factor(axis: StretchAxis, c: Cell) -> int {
    match axis {
        StretchAxis::Col => 1 + c.col,
        StretchAxis::Row => 1 + c.row,
        StretchAxis::Layer => 1 + c.layer,
        StretchAxis::Uniform => 1,
    }
}

/// Whether a cell collapses during the step that is about to process it:
/// not yet a black hole, and both its post-gravity curvature and its
/// post-gravity density exceed their thresholds.
pub open spec fn collapse_pred(c: Cell, ct: u64, dt: u64) -> bool {
    &&& !c.is_black_hole
    &&& grav_curvature(c.curvature as int, c.matter_density as int) > ct
    &&& grav_density(c.curvature as int, c.matter_density as int) > dt
}

/// How many of the first `n` cells collapse during this step.
pub open spec fn new_collapses(cells: Seq<Cell>, n: int, ct: u64, dt: u64) -> int
    decreases n,
{
    if n <= 0 {
        0
    } else {
        new_collapses(cells, n - 1, ct, dt)
            + if collapse_pred(cells[n - 1], ct, dt) { 1int } else { 0int }
    }
}

/// How many of the first `n` cells are black holes.
pub open spec fn count_black_holes_to(cells: Seq<Cell>, n: int) -> int
    decreases n,
{
    if n <= 0 {
        0
    } else {
        count_black_holes_to(cells, n - 1)
            + if cells[n - 1].is_black_hole { 1int } else { 0int }
    }
}

/// Number of black holes in the whole lattice.
pub open spec fn count_black_holes(cells: Seq<Cell>) -> int {
    count_black_holes_to(cells, cells.len() as int)
}

/// The identifier a cell carries, or zero while it has none.
pub open spec fn id_of(c: Cell) -> u64 {
    match c.black_hole_id {
        Some(id) => id,
        None => 0u64,
    }
}

/// A cell of the lattice after the gravity-interaction and collapse pass
/// of one step, before the smoothing result is written back: `t` is the
/// step index, `rip` this step's global rip strength, and `id` the
/// identifier the cell receives if it collapses now.
pub open spec fn phase1_cell(c: Cell, t: usize, rip: u64, id: u64, ct: u64, dt: u64) -> Cell {
    let d1 = grav_density(c.curvature as int, c.matter_density as int) as u64;
    let c1 = grav_curvature(c.curvature as int, c.matter_density as int) as u64;
    let gw = clamped(c1 + c.matter_density_smoothed) as u64;
    if collapse_pred(c, ct, dt) {
        Cell {
            col: c.col,
            row: c.row,
            layer: c.layer,
            timestep: t,
            rip_strength: rip,
            curvature: c1,
            matter_density: 0u64,
            matter_density_smoothed: c.matter_density_smoothed,
            is_black_hole: true,
            black_hole_id: Some(id),
            neighbors: c.neighbors,
            gravity_well: gw,
        }
    } else {
        Cell {
            col: c.col,
            row: c.row,
            layer: c.layer,
            timestep: t,
            rip_strength: rip,
            curvature: c1,
            matter_density: d1,
            matter_density_smoothed: c.matter_density_smoothed,
            is_black_hole: c.is_black_hole,
            black_hole_id: c.black_hole_id,
            neighbors: c.neighbors,
            gravity_well: gw,
        }
    }
}

/// The whole lattice after the gravity and collapse pass of one step,
/// identifiers assigned in lattice order starting at `next_id`.
pub open spec fn phase1_cells(cells: Seq<Cell>, t: usize, rip: u64, next_id: u64, ct: u64, dt: u64) -> Seq<Cell> {
    Seq::new(cells.len(), |i: int| phase1_cell(
        cells[i], t, rip, (next_id + new_collapses(cells, i, ct, dt)) as u64, ct, dt,
    ))
}

/// The matter densities of a lattice, in lattice order.
pub open spec fn densities_of(cells: Seq<Cell>) -> Seq<u64> {
    Seq::new(cells.len(), |i: int| cells[i].matter_density)
}

/// The rip strength of the following step: the current strength scaled by
/// the per-step decay factor, in micro-unit fixed point.
pub open spec fn decayed_rip(rip: int, factor: int) -> int {
    rip * factor / (MICRO_SCALE as int)
}

/// The whole lattice at the end of one step: the gravity and collapse pass
/// followed by the smoothing write-back.
pub open spec fn stepped_cells(cells: Seq<Cell>, m: int, radius: int, t: usize, rip: u64, next_id: u64, ct: u64, dt: u64) -> Seq<Cell> {
    let p1 = phase1_cells(cells, t, rip, next_id, ct, dt);
    let ds = densities_of(p1);
    Seq::new(cells.len(), |i: int| Cell {
        matter_density_smoothed: smoothed_at(
            ds, m, radius, p1[i].col as int, p1[i].row as int, p1[i].layer as int,
        ) as u64,
        ..p1[i]
    })
}


/// The mathematical core of the engine's state: the lattice, the
/// identifier counter, the current rip strength, and the step index.
pub struct EngineModel {
    pub cells: Seq<Cell>,
    pub next_id: int,
    pub rip: int,
    pub step: int,
}

/// One pipeline step on the mathematical core.
pub open spec fn stepped_model(c: EngineModel, p: EngineParams) -> EngineModel {
    EngineModel {
        cells: stepped_cells(
            c.cells,
            p.grid_size as int,
            p.smoothing_radius as int,
            c.step as usize,
            c.rip as u64,
            c.next_id as u64,
            p.curvature_threshold,
            p.collapse_density_threshold,
        ),
        next_id: c.next_id + new_collapses(
            c.cells, c.cells.len() as int, p.curvature_threshold, p.collapse_density_threshold,
        ),
        rip: decayed_rip(c.rip, p.rip_decay_factor as int),
        step: c.step + 1,
    }
}

/// The mathematical core after `k` further steps.
pub open spec fn run_model(c: EngineModel, p: EngineParams, k: nat) -> EngineModel
    decreases k,
{
    if k == 0 {
        c
    } else {
        stepped_model(run_model(c, p, (k - 1) as nat), p)
    }
}

/// One record per cell, in lattice order.
pub open spec fn records_match(rs: Seq<CellRecord>, cells: Seq<Cell>) -> bool {
    &&& rs.len() == cells.len()
    &&& forall|i: int| 0 <= i < rs.len() ==> rs[i] == record_of_cell(#[trigger] cells[i])
}

/// Structural well-formedness of a seeded lattice: a flat cube of cells
/// whose coordinates agree with their linear index, with scalars in range
/// and neighbor lists correct.
pub open spec fn cells_wf(cells: Seq<Cell>, m: int) -> bool {
    &&& cells.len() == m * m * m
    &&& forall|i: int| 0 <= i < cells.len() ==> cell_wf(#[trigger] cells[i], i, m)
}

/// Well-formedness of one cell at linear index `i`.
pub open spec fn cell_wf(c: Cell, i: int, m: int) -> bool {
    &&& c.col < m
    &&& c.row < m
    &&& c.layer < m
    &&& i == cell_index(m, c.col as int, c.row as int, c.layer as int)
    &&& is_scalar(c.curvature)
    &&& is_scalar(c.matter_density)
    &&& is_scalar(c.matter_density_smoothed)
    &&& is_scalar(c.rip_strength)
    &&& is_scalar(c.gravity_well)
    &&& neighbors_assigned(c.neighbors@, c.col as int, c.row as int, c.layer as int, m)
}

/// Some cell of the lattice carries the identifier `k`.
pub open spec fn has_id(cells: Seq<Cell>, k: int) -> bool {
    exists|i: int| 0 <= i < cells.len() && #[trigger] cells[i].black_hole_id == Some(k as u64)
}

/// Identifier bookkeeping: a cell is a black hole exactly when it carries
/// an identifier; identifiers are unique, fill `1..next_id` exactly, and
/// their number equals the black hole count.
pub open spec fn ids_wf(cells: Seq<Cell>, next_id: int) -> bool {
    &&& 1 <= next_id
    &&& forall|i: int| 0 <= i < cells.len() ==>
            (#[trigger] cells[i].is_black_hole <==> cells[i].black_hole_id is Some)
    &&& forall|i: int| 0 <= i < cells.len() && cells[i].black_hole_id is Some ==>
            1 <= #[trigger] id_of(cells[i]) < next_id
    &&& forall|i: int, j: int|
            0 <= i < j < cells.len()
                && cells[i].black_hole_id is Some && cells[j].black_hole_id is Some ==>
            #[trigger] id_of(cells[i]) != #[trigger] id_of(cells[j])
    &&& forall|k: int| 1 <= k < next_id ==> #[trigger] has_id(cells, k)
    &&& count_black_holes(cells) == next_id - 1
}

proof fn lemma_new_collapses_bounds(cells: Seq<Cell>, n: int, ct: u64, dt: u64)
    ensures
        0 <= new_collapses(cells, n, ct, dt) <= if n <= 0 { 0int } else { n },
    decreases n,
{
    if n > 0 {
        lemma_new_collapses_bounds(cells, n - 1, ct, dt);
    }
}

proof fn lemma_new_collapses_mono(cells: Seq<Cell>, a: int, b: int, ct: u64, dt: u64)
    requires
        a <= b,
    ensures
        new_collapses(cells, a, ct, dt) <= new_collapses(cells, b, ct, dt),
    decreases b - a,
{
    if a < b {
        lemma_new_collapses_mono(cells, a, b - 1, ct, dt);
    }
}

/// Every identifier offset below the total number of collapses is taken
/// by exactly the cell whose prefix count equals it.
proof fn lemma_new_collapses_surj(cells: Seq<Cell>, n: int, d: int, ct: u64, dt: u64)
    requires
        0 <= d < new_collapses(cells, n, ct, dt),
        n <= cells.len(),
    ensures
        exists|i: int| 0 <= i < n && collapse_pred(#[trigger] cells[i], ct, dt)
            && new_collapses(cells, i, ct, dt) == d,
    decreases n,
{
    lemma_new_collapses_bounds(cells, n, ct, dt);
    if n > 0 {
        if d < new_collapses(cells, n - 1, ct, dt) {
            lemma_new_collapses_surj(cells, n - 1, d, ct, dt);
        } else {
            assert(collapse_pred(cells[n - 1], ct, dt));
            assert(new_collapses(cells, n - 1, ct, dt) == d);
        }
    }
}

proof fn lemma_count_black_holes_le(cells: Seq<Cell>, n: int)
    ensures
        0 <= count_black_holes_to(cells, n) <= if n <= 0 { 0int } else { n },
    decreases n,
{
    if n > 0 {
        lemma_count_black_holes_le(cells, n - 1);
    }
}

/// A pointwise step relation between two lattices turns the black hole
/// count of the first into the count plus the new collapses.
proof fn lemma_count_black_holes_step(pre: Seq<Cell>, post: Seq<Cell>, n: int, ct: u64, dt: u64)
    requires
        n <= pre.len(),
        n <= post.len(),
        forall|i: int| 0 <= i < n ==>
            (#[trigger] post[i].is_black_hole
                <==> pre[i].is_black_hole || collapse_pred(pre[i], ct, dt)),
    ensures
        count_black_holes_to(post, n)
            == count_black_holes_to(pre, n) + new_collapses(pre, n, ct, dt),
    decreases n,
{
    if n > 0 {
        lemma_count_black_holes_step(pre, post, n - 1, ct, dt);
    }
}

proof fn lemma_count_black_holes_none(cells: Seq<Cell>, n: int)
    requires
        forall|i: int| 0 <= i < n ==> !(#[trigger] cells[i]).is_black_hole,
    ensures
        count_black_holes_to(cells, n) == 0,
    decreases n,
{
    if n > 0 {
        lemma_count_black_holes_none(cells, n - 1);
    }
}

/// A freshly allocated cell: every attribute still zero.
pub open spec fn zeroed_cell(c: Cell) -> bool {
    &&& c.timestep == 0
    &&& c.rip_strength == 0
    &&& c.curvature == 0
    &&& c.matter_density == 0
    &&& c.matter_density_smoothed == 0
    &&& !c.is_black_hole
    &&& c.black_hole_id is None
    &&& c.gravity_well == 0
}

/// What `seed_initial_curvature` establishes for the cell at index `i`:
/// coordinates that match the index, a random curvature below the bound, a
/// correct neighbor list, and every other attribute untouched.
pub open spec fn seeded_cell(c: Cell, prev: Cell, i: int, m: int, bound: u64) -> bool {
    &&& c.col < m
    &&& c.row < m
    &&& c.layer < m
    &&& i == cell_index(m, c.col as int, c.row as int, c.layer as int)
    &&& c.curvature < bound
    &&& neighbors_assigned(c.neighbors@, c.col as int, c.row as int, c.layer as int, m)
    &&& c.timestep == prev.timestep
    &&& c.rip_strength == prev.rip_strength
    &&& c.matter_density == prev.matter_density
    &&& c.matter_density_smoothed == prev.matter_density_smoothed
    &&& c.is_black_hole == prev.is_black_hole
    &&& c.black_hole_id == prev.black_hole_id
    &&& c.gravity_well == prev.gravity_well
}

/// What `stretch_curvature` does to one cell: scale its curvature by the
/// axis factor, saturating at the scalar range, and touch nothing else.
pub open spec fn stretched_cell(c: Cell, prev: Cell, axis: StretchAxis) -> bool {
    &&& c.curvature == clamped(prev.curvature * stretch_factor(axis, prev))
    &&& c.col == prev.col
    &&& c.row == prev.row
    &&& c.layer == prev.layer
    &&& c.timestep == prev.timestep
    &&& c.rip_strength == prev.rip_strength
    &&& c.matter_density == prev.matter_density
    &&& c.matter_density_smoothed == prev.matter_density_smoothed
    &&& c.is_black_hole == prev.is_black_hole
    &&& c.black_hole_id == prev.black_hole_id
    &&& c.neighbors == prev.neighbors
    &&& c.gravity_well == prev.gravity_well
}

/// Seeding pass: assign every cell its lattice coordinates, draw its
/// initial curvature at random below `bound`, and build its neighbor
/// list.  Cells are visited in lattice order.
pub fn seed_initial_curvature(cells: &mut Vec<Cell>, m: usize, bound: u64, rng: &mut rand::rngs::StdRng)
    requires
        1 <= m <= 1024,
        old(cells)@.len() == m * m * m,
        1 <= bound,
    ensures
        final(cells)@.len() == old(cells)@.len(),
        forall|i: int| 0 <= i < final(cells)@.len() ==>
            seeded_cell(#[trigger] final(cells)@[i], old(cells)@[i], i, m as int, bound),
{
    let ghost mi: int = m as int;
    let ghost orig = old(cells)@;
    let mut x: usize = 0;
    proof {
        assert(cell_index(mi, 0, 0, 0) == 0) by (nonlinear_arith);
    }
    while x < m
        invariant
            1 <= m <= 1024,
            mi == m as int,
            1 <= bound,
            orig == old(cells)@,
            cells@.len() == orig.len(),
            orig.len() == m * m * m,
            x <= m,
            forall|j: int| 0 <= j < cell_index(mi, x as int, 0, 0) ==>
                seeded_cell(#[trigger] cells@[j], orig[j], j, mi, bound),
            forall|j: int| cell_index(mi, x as int, 0, 0) <= j < cells@.len() ==>
                #[trigger] cells@[j] == orig[j],
        decreases m - x,
    {
        let mut y: usize = 0;
        while y < m
            invariant
                1 <= m <= 1024,
                mi == m as int,
                1 <= bound,
                orig == old(cells)@,
                cells@.len() == orig.len(),
                orig.len() == m * m * m,
                x < m,
                y <= m,
                forall|j: int| 0 <= j < cell_index(mi, x as int, y as int, 0) ==>
                    seeded_cell(#[trigger] cells@[j], orig[j], j, mi, bound),
                forall|j: int| cell_index(mi, x as int, y as int, 0) <= j < cells@.len() ==>
                    #[trigger] cells@[j] == orig[j],
            decreases m - y,
        {
            let mut z: usize = 0;
            while z < m
                invariant
                    1 <= m <= 1024,
                    mi == m as int,
                    1 <= bound,
                    orig == old(cells)@,
                    cells@.len() == orig.len(),
                    orig.len() == m * m * m,
                    x < m,
                    y < m,
                    z <= m,
                    forall|j: int| 0 <= j < cell_index(mi, x as int, y as int, z as int) ==>
                        seeded_cell(#[trigger] cells@[j], orig[j], j, mi, bound),
                    forall|j: int| cell_index(mi, x as int, y as int, z as int) <= j < cells@.len() ==>
                        #[trigger] cells@[j] == orig[j],
                decreases m - z,
            {
                proof {
                    lemma_cell_index_bounds(mi, x as int, y as int, z as int);
                    assert(cells@.len() == mi * mi * mi);
                    assert((x as int) * mi <= 1023 * 1024) by (nonlinear_arith)
                        requires (x as int) < mi, mi <= 1024;
                    assert(((x as int) * mi + y as int) * mi <= 1024 * 1024 * 1024)
                        by (nonlinear_arith)
                        requires
                            (x as int) * mi + (y as int) <= 1023 * 1024 + 1023,
                            0 <= (x as int) * mi + (y as int),
                            0 <= mi <= 1024;
                }
                let idx: usize = (x * m + y) * m + z;
                proof {
                    assert(idx == cell_index(mi, x as int, y as int, z as int));
                    assert(idx < cells@.len());
                }
                let curv: u64 = crate::rng::rand_below(rng, bound);
                cells[idx].col = x;
                cells[idx].row = y;
                cells[idx].layer = z;
                cells[idx].curvature = curv;
                cells[idx].assign_neighbors(m);
                assert(seeded_cell(cells@[idx as int], orig[idx as int], idx as int, mi, bound));
                z = z + 1;
            }
            proof {
                assert(cell_index(mi, x as int, y as int, mi)
                    == cell_index(mi, x as int, y as int + 1, 0)) by (nonlinear_arith);
            }
            y = y + 1;
        }
        proof {
            assert(cell_index(mi, x as int, mi, 0)
                == cell_index(mi, x as int + 1, 0, 0)) by (nonlinear_arith);
        }
        x = x + 1;
    }
    proof {
        assert(cell_index(mi, mi, 0, 0) == mi * mi * mi) by (nonlinear_arith);
    }
}

/// Anisotropic expansion pass: multiply every cell's curvature by one plus
/// its coordinate along the chosen axis.
pub fn stretch_curvature(cells: &mut Vec<Cell>, m: usize, axis: StretchAxis)
    requires
        1 <= m <= 1024,
        forall|i: int| 0 <= i < old(cells)@.len() ==>
            (#[trigger] old(cells)@[i]).col < m
                && old(cells)@[i].row < m
                && old(cells)@[i].layer < m
                && is_scalar(old(cells)@[i].curvature),
    ensures
        final(cells)@.len() == old(cells)@.len(),
        forall|i: int| 0 <= i < final(cells)@.len() ==>
            stretched_cell(#[trigger] final(cells)@[i], old(cells)@[i], axis),
{
    let ghost orig = old(cells)@;
    let n: usize = cells.len();
    let mut i: usize = 0;
    while i < n
        invariant
            n == cells@.len(),
            orig == old(cells)@,
            cells@.len() == orig.len(),
            i <= n,
            forall|j: int| 0 <= j < orig.len() ==>
                (#[trigger] orig[j]).col < m
                    && orig[j].row < m
                    && orig[j].layer < m
                    && is_scalar(orig[j].curvature),
            m <= 1024,
            forall|j: int| 0 <= j < i ==> stretched_cell(#[trigger] cells@[j], orig[j], axis),
            forall|j: int| i <= j < cells@.len() ==> #[trigger] cells@[j] == orig[j],
        decreases n - i,
    {
        let coord: usize = match axis {
            StretchAxis::Col => cells[i].col,
            StretchAxis::Row => cells[i].row,
            StretchAxis::Layer => cells[i].layer,
            StretchAxis::Uniform => 0,
        };
        let factor: u64 = (coord as u64) + 1;
        let stretched: u64 = crate::scalar::mul_scalar(cells[i].curvature, factor);
        cells[i].curvature = stretched;
        i = i + 1;
    }
}

/// The grid evolution engine: it owns the lattice, the global rip
/// strength, the identifier counter, and the phase of the run.
pub struct GridEvolutionEngine {
    pub params: EngineParams,
    pub cells: Vec<Cell>,
    pub next_black_hole_id: u64,
    pub rip_strength: u64,
    pub current_step: usize,
    pub phase: EnginePhase,
}

impl GridEvolutionEngine {
    /// Lattice extent as a mathematical integer.
    pub open spec fn m(self) -> int {
        self.params.grid_size as int
    }

    /// The engine's state as a mathematical value.
    pub open spec fn model(self) -> EngineModel {
        EngineModel {
            cells: self.cells@,
            next_id: self.next_black_hole_id as int,
            rip: self.rip_strength as int,
            step: self.current_step as int,
        }
    }

    /// The engine's invariant, by phase: valid parameters, a full-size
    /// lattice, and, once seeded, structural and identifier bookkeeping.
    pub open spec fn wf(self) -> bool {
        &&& params_valid(self.params)
        &&& self.cells@.len() == self.m() * self.m() * self.m()
        &&& is_scalar(self.rip_strength)
        &&& 1 <= self.next_black_hole_id
        &&& self.current_step <= self.params.num_timesteps
        &&& match self.phase {
            EnginePhase::Seeding => {
                &&& self.current_step == 0
                &&& self.next_black_hole_id == 1
                &&& forall|i: int| 0 <= i < self.cells@.len() ==> zeroed_cell(#[trigger] self.cells@[i])
            },
            EnginePhase::Running => {
                &&& self.current_step < self.params.num_timesteps
                &&& cells_wf(self.cells@, self.m())
                &&& ids_wf(self.cells@, self.next_black_hole_id as int)
            },
            EnginePhase::Finalizing => {
                &&& self.current_step == self.params.num_timesteps
                &&& cells_wf(self.cells@, self.m())
                &&& ids_wf(self.cells@, self.next_black_hole_id as int)
            },
        }
    }

    /// Allocate the full lattice of zero-valued cells; the engine starts
    /// in the seeding phase.
    pub fn new(params: EngineParams) -> (eng: GridEvolutionEngine)
        requires
            params_valid(params),
        ensures
            eng.wf(),
            eng.params == params,
            eng.phase is Seeding,
            eng.current_step == 0,
            eng.next_black_hole_id == 1,
            eng.rip_strength == params.rip_initial,
    {
        let m: usize = params.grid_size;
        proof {
            assert(m * m <= 1024 * 1024) by (nonlinear_arith)
                requires m <= 1024;
            assert(m * m * m <= 1024 * 1024 * 1024) by (nonlinear_arith)
                requires m <= 1024;
        }
        let n: usize = m * m * m;
        let mut cells: Vec<Cell> = Vec::new();
        while cells.len() < n
            invariant
                cells@.len() <= n,
                forall|i: int| 0 <= i < cells@.len() ==> zeroed_cell(#[trigger] cells@[i]),
            decreases n - cells@.len(),
        {
            cells.push(Cell::new());
        }
        GridEvolutionEngine {
            params,
            cells,
            next_black_hole_id: 1,
            rip_strength: params.rip_initial,
            current_step: 0,
            phase: EnginePhase::Seeding,
        }
    }

    /// Seeding transition: draw random initial curvature for every cell
    /// from the given seed, build the neighbor topology, apply the
    /// directional stretch, and start running (or go straight to
    /// finalizing when no steps are configured).
    pub fn seed(&mut self, rng_seed: u64)
        requires
            old(self).wf(),
            old(self).phase is Seeding,
        ensures
            final(self).wf(),
            final(self).params == old(self).params,
            final(self).current_step == 0,
            final(self).next_black_hole_id == 1,
            final(self).rip_strength == old(self).rip_strength,
            final(self).phase == (if old(self).params.num_timesteps == 0 {
                EnginePhase::Finalizing
            } else {
                EnginePhase::Running
            }),
            final(self).cells@.len() == old(self).cells@.len(),
            forall|i: int| 0 <= i < final(self).cells@.len() ==> {
                let c = #[trigger] final(self).cells@[i];
                &&& cell_wf(c, i, old(self).m())
                &&& c.timestep == 0
                &&& c.rip_strength == 0
                &&& c.matter_density == 0
                &&& c.matter_density_smoothed == 0
                &&& !c.is_black_hole
                &&& c.black_hole_id is None
                &&& c.gravity_well == 0
            },
    {
        let m: usize = self.params.grid_size;
        let bound: u64 = self.params.seed_curvature_bound;
        let axis: StretchAxis = self.params.stretch_axis;
        let mut rng: rand::rngs::StdRng = crate::rng::rng_from_seed(rng_seed);
        seed_initial_curvature(&mut self.cells, m, bound, &mut rng);
        let ghost mid = self.cells@;
        stretch_curvature(&mut self.cells, m, axis);
        if self.params.num_timesteps == 0 {
            self.phase = EnginePhase::Finalizing;
        } else {
            self.phase = EnginePhase::Running;
        }
        proof {
            let cs = self.cells@;
            let mi = self.m();
            assert forall|i: int| 0 <= i < cs.len() implies cell_wf(#[trigger] cs[i], i, mi) by {
                assert(seeded_cell(mid[i], old(self).cells@[i], i, mi, bound));
                assert(stretched_cell(cs[i], mid[i], axis));
            }
            lemma_count_black_holes_none(cs, cs.len() as int);
        }
    }
}

/// Fixed-point decay of the global rip strength by one step.
fn decay_rip(rip: u64, factor: u64) -> (r: u64)
    requires
        is_scalar(rip),
        factor <= MICRO_SCALE,
    ensures
        r == decayed_rip(rip as int, factor as int),
        is_scalar(r),
{
    proof {
        assert((rip as int) * (factor as int) <= (SCALAR_LIMIT as int) * (MICRO_SCALE as int))
            by (nonlinear_arith)
            requires rip <= SCALAR_LIMIT, factor <= MICRO_SCALE;
    }
    let wide: u128 = (rip as u128) * (factor as u128) / 1_000_000;
    proof {
        vstd::arithmetic::div_mod::lemma_div_is_ordered(
            (rip as int) * (factor as int),
            (SCALAR_LIMIT as int) * (MICRO_SCALE as int),
            MICRO_SCALE as int,
        );
        vstd::arithmetic::div_mod::lemma_div_multiples_vanish(
            SCALAR_LIMIT as int,
            MICRO_SCALE as int,
        );
        assert((SCALAR_LIMIT as int) * (MICRO_SCALE as int)
            == (MICRO_SCALE as int) * (SCALAR_LIMIT as int));
    }
    wide as u64
}

impl GridEvolutionEngine {
    /// One `Running(t)` step of the pipeline: the gravity-interaction and
    /// collapse pass over every cell in lattice order, the smoothing pass
    /// over the resulting densities, the write-back of the smoothed field,
    /// and the emission of one record per cell.  The rip strength decays
    /// for the following step.
    #[verifier::rlimit(100)]
    pub fn step(&mut self) -> (records: Vec<CellRecord>)
        requires
            old(self).wf(),
            old(self).phase is Running,
        ensures
            final(self).wf(),
            final(self).params == old(self).params,
            final(self).current_step == old(self).current_step + 1,
            final(self).phase == (if old(self).current_step + 1 == old(self).params.num_timesteps {
                EnginePhase::Finalizing
            } else {
                EnginePhase::Running
            }),
            final(self).rip_strength == decayed_rip(
                old(self).rip_strength as int,
                old(self).params.rip_decay_factor as int,
            ),
            final(self).next_black_hole_id == old(self).next_black_hole_id
                + new_collapses(
                    old(self).cells@,
                    old(self).cells@.len() as int,
                    old(self).params.curvature_threshold,
                    old(self).params.collapse_density_threshold,
                ),
            final(self).cells@ == stepped_cells(
                old(self).cells@,
                old(self).m(),
                old(self).params.smoothing_radius as int,
                old(self).current_step,
                old(self).rip_strength,
                old(self).next_black_hole_id,
                old(self).params.curvature_threshold,
                old(self).params.collapse_density_threshold,
            ),
            final(self).model() == stepped_model(old(self).model(), old(self).params),
            records_match(records@, final(self).cells@),
            records@.len() == final(self).cells@.len(),
            forall|i: int| 0 <= i < records@.len() ==>
                records@[i] == record_of_cell(#[trigger] final(self).cells@[i]),
            forall|i: int| 0 <= i < final(self).cells@.len()
                && old(self).cells@[i].is_black_hole ==>
                (#[trigger] final(self).cells@[i]).is_black_hole
                    && final(self).cells@[i].black_hole_id == old(self).cells@[i].black_hole_id,
    {
        let ghost pre = self.cells@;
        let m: usize = self.params.grid_size;
        let radius: usize = self.params.smoothing_radius;
        let t: usize = self.current_step;
        let rip: u64 = self.rip_strength;
        let ct: u64 = self.params.curvature_threshold;
        let dt: u64 = self.params.collapse_density_threshold;
        let n: usize = self.cells.len();
        let mut nid: u64 = self.next_black_hole_id;
        let ghost nid0 = self.next_black_hole_id;
        proof {
            lemma_count_black_holes_le(pre, pre.len() as int);
        }
        let mut raw_density: Vec<u64> = Vec::new();
        let mut i: usize = 0;
        while i < n
            invariant
                old(self).wf(),
                old(self).phase is Running,
                self.params == old(self).params,
                self.current_step == old(self).current_step,
                self.rip_strength == old(self).rip_strength,
                self.phase == old(self).phase,
                self.next_black_hole_id == old(self).next_black_hole_id,
                pre == old(self).cells@,
                n == self.cells@.len(),
                pre.len() == n,
                m == self.params.grid_size,
                radius == self.params.smoothing_radius,
                t == self.current_step,
                rip == self.rip_strength,
                ct == self.params.curvature_threshold,
                dt == self.params.collapse_density_threshold,
                nid0 == old(self).next_black_hole_id,
                i <= n,
                forall|j: int| i <= j < n ==> #[trigger] self.cells@[j] == pre[j],
                forall|j: int| 0 <= j < i ==> #[trigger] self.cells@[j] == phase1_cell(
                    pre[j], t, rip, (nid0 + new_collapses(pre, j, ct, dt)) as u64, ct, dt,
                ),
                nid == nid0 + new_collapses(pre, i as int, ct, dt),
                raw_density@.len() == i,
                forall|j: int| 0 <= j < i ==>
                    #[trigger] raw_density@[j] == self.cells@[j].matter_density,
            decreases n - i,
        {
            proof {
                assert(cells_wf(pre, m as int));
                assert(cell_wf(pre[i as int], i as int, m as int));
                lemma_new_collapses_bounds(pre, i as int, ct, dt);
                lemma_count_black_holes_le(pre, pre.len() as int);
                assert(count_black_holes(pre) == nid0 - 1);
                assert(nid0 <= n + 1);
                assert(nid <= nid0 + i);
                assert(pre.len() == (m as int) * (m as int) * (m as int));
                assert((m as int) * (m as int) * (m as int) <= 0x4000_0000)
                    by (nonlinear_arith)
                    requires 0 <= (m as int) <= 1024;
                assert(n <= 0x4000_0000);
            }
            let ghost c0 = pre[i as int];
            self.cells[i].timestep = t;
            self.cells[i].rip_strength = rip;
            self.cells[i].apply_gravity_interaction();
            let gw: u64 = crate::scalar::add_scalar(
                self.cells[i].curvature,
                self.cells[i].matter_density_smoothed,
            );
            self.cells[i].gravity_well = gw;
            if !self.cells[i].is_black_hole
                && self.cells[i].curvature > ct
                && self.cells[i].matter_density > dt
            {
                proof {
                    assert(collapse_pred(c0, ct, dt));
                }
                self.cells[i].is_black_hole = true;
                self.cells[i].black_hole_id = Some(nid);
                self.cells[i].matter_density = 0;
                nid = nid + 1;
            } else {
                proof {
                    assert(!collapse_pred(c0, ct, dt));
                }
            }
            let md: u64 = self.cells[i].matter_density;
            raw_density.push(md);
            proof {
                assert(self.cells@[i as int] == phase1_cell(
                    c0, t, rip, (nid0 + new_collapses(pre, i as int, ct, dt)) as u64, ct, dt,
                ));
                assert(new_collapses(pre, i + 1, ct, dt)
                    == new_collapses(pre, i as int, ct, dt)
                        + if collapse_pred(c0, ct, dt) { 1int } else { 0int });
            }
            i = i + 1;
        }
        self.next_black_hole_id = nid;
        let ghost p1 = self.cells@;
        proof {
            assert(p1 =~= phase1_cells(pre, t, rip, nid0, ct, dt));
            assert(raw_density@ =~= densities_of(p1));
            assert forall|j: int| 0 <= j < raw_density@.len()
                implies is_scalar(#[trigger] raw_density@[j]) by {
                assert(p1[j] == phase1_cell(
                    pre[j], t, rip, (nid0 + new_collapses(pre, j, ct, dt)) as u64, ct, dt,
                ));
            }
        }
        let smoothed: Vec<u64> = crate::smoothing::smooth_density(&raw_density, m, radius);
        proof {
            assert forall|j: int| 0 <= j < n implies
                #[trigger] smoothed@[j] == smoothed_at(
                    densities_of(p1), m as int, radius as int,
                    p1[j].col as int, p1[j].row as int, p1[j].layer as int,
                ) by {
                assert(cells_wf(pre, m as int));
                assert(cell_wf(pre[j], j, m as int));
                assert(p1[j] == phase1_cell(
                    pre[j], t, rip, (nid0 + new_collapses(pre, j, ct, dt)) as u64, ct, dt,
                ));
                assert(j == cell_index(
                    m as int, p1[j].col as int, p1[j].row as int, p1[j].layer as int,
                ));
                assert(smoothed@[cell_index(
                    m as int, p1[j].col as int, p1[j].row as int, p1[j].layer as int,
                )] == smoothed_at(
                    raw_density@, m as int, radius as int,
                    p1[j].col as int, p1[j].row as int, p1[j].layer as int,
                ));
            }
            assert forall|j: int| 0 <= j < n implies cell_scalars_ok(#[trigger] self.cells@[j]) by {
                assert(p1[j] == phase1_cell(
                    pre[j], t, rip, (nid0 + new_collapses(pre, j, ct, dt)) as u64, ct, dt,
                ));
                assert(cell_wf(pre[j], j, m as int));
            }
        }
        let records: Vec<CellRecord> = apply_smoothed(&mut self.cells, &smoothed);
        self.current_step = t + 1;
        self.rip_strength = decay_rip(rip, self.params.rip_decay_factor);
        if self.current_step == self.params.num_timesteps {
            self.phase = EnginePhase::Finalizing;
        }
        proof {
            let mi = m as int;
            let ni = n as int;
            let cs = self.cells@;
            assert forall|j: int| 0 <= j < ni implies #[trigger] cs[j] == (Cell {
                matter_density_smoothed: smoothed_at(
                    densities_of(p1), mi, radius as int,
                    p1[j].col as int, p1[j].row as int, p1[j].layer as int,
                ) as u64,
                ..p1[j]
            }) by {
                assert(cs[j] == (Cell { matter_density_smoothed: smoothed@[j], ..p1[j] }));
            }
            assert(cs =~= stepped_cells(pre, mi, radius as int, t, rip, nid0, ct, dt));
            lemma_count_black_holes_le(pre, pre.len() as int);
            assert(nid0 <= n + 1);
            assert(pre.len() == (m as int) * (m as int) * (m as int));
            assert((m as int) * (m as int) * (m as int) <= 0x4000_0000)
                by (nonlinear_arith)
                requires 0 <= (m as int) <= 1024;
            assert(nid0 + pre.len() < 0x8000_0000_0000_0000);
            assert forall|j: int| 0 <= j < cs.len()
                implies is_scalar((#[trigger] cs[j]).matter_density_smoothed) by {
                assert(cs[j] == (Cell { matter_density_smoothed: smoothed@[j], ..p1[j] }));
            }
            lemma_step_bookkeeping(pre, cs, p1, t, rip, nid0, ct, dt, mi, radius as int);
            assert(final(self).model() == stepped_model(old(self).model(), old(self).params));
        }
        records
    }
}

/// After one gravity/collapse/smoothing pass, the lattice is still well
/// formed and the identifier bookkeeping still holds, with the counter
/// advanced by the number of new collapses.
proof fn lemma_step_bookkeeping(
    pre: Seq<Cell>,
    cs: Seq<Cell>,
    p1: Seq<Cell>,
    t: usize,
    rip: u64,
    nid0: u64,
    ct: u64,
    dt: u64,
    mi: int,
    radius: int,
)
    requires
        cells_wf(pre, mi),
        ids_wf(pre, nid0 as int),
        is_scalar(rip),
        nid0 + pre.len() < 0x8000_0000_0000_0000,
        p1 == phase1_cells(pre, t, rip, nid0, ct, dt),
        cs.len() == pre.len(),
        forall|j: int| 0 <= j < cs.len() ==> #[trigger] cs[j] == (Cell {
            matter_density_smoothed: smoothed_at(
                densities_of(p1), mi, radius,
                p1[j].col as int, p1[j].row as int, p1[j].layer as int,
            ) as u64,
            ..p1[j]
        }),
        forall|j: int| 0 <= j < cs.len() ==>
            is_scalar((#[trigger] cs[j]).matter_density_smoothed),
    ensures
        cells_wf(cs, mi),
        ids_wf(cs, nid0 + new_collapses(pre, pre.len() as int, ct, dt)),
        forall|j: int| 0 <= j < cs.len() && pre[j].is_black_hole ==>
            (#[trigger] cs[j]).is_black_hole
                && cs[j].black_hole_id == pre[j].black_hole_id,
{
    let ni = pre.len() as int;
    let total = new_collapses(pre, ni, ct, dt);
    lemma_new_collapses_bounds(pre, ni, ct, dt);
    lemma_count_black_holes_le(pre, ni);

    assert forall|j: int| 0 <= j < ni implies cell_wf(#[trigger] cs[j], j, mi) by {
        assert(cell_wf(pre[j], j, mi));
        assert(p1[j] == phase1_cell(
            pre[j], t, rip, (nid0 + new_collapses(pre, j, ct, dt)) as u64, ct, dt,
        ));
    }

    assert forall|j: int| 0 <= j < ni implies
        ((#[trigger] cs[j].is_black_hole <==> cs[j].black_hole_id is Some)
            && (cs[j].is_black_hole
                <==> (pre[j].is_black_hole || collapse_pred(pre[j], ct, dt)))
            && (pre[j].is_black_hole ==> cs[j].black_hole_id == pre[j].black_hole_id)
            && (collapse_pred(pre[j], ct, dt)
                ==> cs[j].black_hole_id
                    == Some((nid0 + new_collapses(pre, j, ct, dt)) as u64))) by {
        lemma_new_collapses_bounds(pre, j, ct, dt);
        assert(p1[j] == phase1_cell(
            pre[j], t, rip, (nid0 + new_collapses(pre, j, ct, dt)) as u64, ct, dt,
        ));
        assert(pre[j].is_black_hole <==> pre[j].black_hole_id is Some);
    }

    assert forall|j: int| 0 <= j < ni && cs[j].black_hole_id is Some implies
        1 <= #[trigger] id_of(cs[j]) < nid0 + total by {
        lemma_new_collapses_bounds(pre, j, ct, dt);
        if pre[j].is_black_hole {
            assert(1 <= id_of(pre[j]) < nid0);
        } else {
            assert(collapse_pred(pre[j], ct, dt));
            lemma_new_collapses_mono(pre, j + 1, ni, ct, dt);
            assert(new_collapses(pre, j + 1, ct, dt)
                == new_collapses(pre, j, ct, dt) + 1);
        }
    }

    assert forall|a: int, b: int|
        0 <= a < b < ni && cs[a].black_hole_id is Some && cs[b].black_hole_id is Some
        implies #[trigger] id_of(cs[a]) != #[trigger] id_of(cs[b]) by {
        lemma_new_collapses_bounds(pre, a, ct, dt);
        lemma_new_collapses_bounds(pre, b, ct, dt);
        if pre[a].is_black_hole && pre[b].is_black_hole {
            assert(id_of(pre[a]) != id_of(pre[b]));
        } else if pre[a].is_black_hole && !pre[b].is_black_hole {
            assert(cs[a].black_hole_id == pre[a].black_hole_id);
            assert(1 <= id_of(pre[a]) < nid0);
            assert(collapse_pred(pre[b], ct, dt));
            assert(cs[b].black_hole_id == Some((nid0 + new_collapses(pre, b, ct, dt)) as u64));
            assert(id_of(cs[b]) >= nid0);
        } else if !pre[a].is_black_hole && pre[b].is_black_hole {
            assert(cs[b].black_hole_id == pre[b].black_hole_id);
            assert(1 <= id_of(pre[b]) < nid0);
            assert(collapse_pred(pre[a], ct, dt));
            assert(cs[a].black_hole_id == Some((nid0 + new_collapses(pre, a, ct, dt)) as u64));
            assert(id_of(cs[a]) >= nid0);
        } else {
            lemma_new_collapses_mono(pre, a + 1, b, ct, dt);
            assert(new_collapses(pre, a + 1, ct, dt)
                == new_collapses(pre, a, ct, dt) + 1);
        }
    }

    assert forall|id: int| 1 <= id < nid0 + total implies #[trigger] has_id(cs, id) by {
        if id < nid0 {
            assert(has_id(pre, id));
            let w = choose|w: int| 0 <= w < pre.len()
                && #[trigger] pre[w].black_hole_id == Some(id as u64);
            assert(pre[w].is_black_hole);
            assert(cs[w].black_hole_id == Some(id as u64));
        } else {
            lemma_new_collapses_surj(pre, ni, id - nid0, ct, dt);
            let w = choose|w: int| 0 <= w < ni && collapse_pred(#[trigger] pre[w], ct, dt)
                && new_collapses(pre, w, ct, dt) == id - nid0;
            assert(cs[w].black_hole_id == Some(id as u64));
        }
    }
    lemma_count_black_holes_step(pre, cs, ni, ct, dt);
    assert(count_black_holes(cs) == (nid0 + total) - 1);
    assert(ids_wf(cs, nid0 as int + total));
}

/// The scalar fields a record needs are all in range.
pub open spec fn cell_scalars_ok(c: Cell) -> bool {
    &&& is_scalar(c.curvature)
    &&& is_scalar(c.matter_density)
    &&& is_scalar(c.rip_strength)
    &&& is_scalar(c.gravity_well)
}

/// Write the smoothed densities back into the lattice, in lattice order,
/// and emit one record per cell with this step's final values.
fn apply_smoothed(cells: &mut Vec<Cell>, smoothed: &Vec<u64>) -> (records: Vec<CellRecord>)
    requires
        old(cells)@.len() == smoothed@.len(),
        forall|j: int| 0 <= j < old(cells)@.len() ==>
            cell_scalars_ok(#[trigger] old(cells)@[j]),
        forall|j: int| 0 <= j < smoothed@.len() ==> is_scalar(#[trigger] smoothed@[j]),
    ensures
        final(cells)@.len() == old(cells)@.len(),
        forall|j: int| 0 <= j < final(cells)@.len() ==>
            #[trigger] final(cells)@[j]
                == (Cell { matter_density_smoothed: smoothed@[j], ..old(cells)@[j] }),
        records@.len() == final(cells)@.len(),
        forall|j: int| 0 <= j < records@.len() ==>
            #[trigger] records@[j] == record_of_cell(final(cells)@[j]),
{
    let ghost orig = old(cells)@;
    let n: usize = cells.len();
    let mut records: Vec<CellRecord> = Vec::new();
    let mut k: usize = 0;
    while k < n
        invariant
            n == cells@.len(),
            orig == old(cells)@,
            orig.len() == n,
            smoothed@.len() == n,
            forall|j: int| 0 <= j < n ==> cell_scalars_ok(#[trigger] orig[j]),
            forall|j: int| 0 <= j < n ==> is_scalar(#[trigger] smoothed@[j]),
            k <= n,
            forall|j: int| k <= j < n ==> #[trigger] cells@[j] == orig[j],
            forall|j: int| 0 <= j < k ==>
                #[trigger] cells@[j]
                    == (Cell { matter_density_smoothed: smoothed@[j], ..orig[j] }),
            records@.len() == k,
            forall|j: int| 0 <= j < k ==>
                #[trigger] records@[j] == record_of_cell(cells@[j]),
        decreases n - k,
    {
        let sm: u64 = smoothed[k];
        cells[k].matter_density_smoothed = sm;
        let rec: CellRecord = CellRecord::from_cell(&cells[k]);
        records.push(rec);
        k = k + 1;
    }
    records
}

impl GridEvolutionEngine {
    /// Finalizing report: how many cells of the lattice have collapsed.
    pub fn black_hole_count(&self) -> (count: u64)
        ensures
            count == count_black_holes(self.cells@),
    {
        let n: usize = self.cells.len();
        let mut count: u64 = 0;
        let mut i: usize = 0;
        while i < n
            invariant
                n == self.cells@.len(),
                i <= n,
                count == count_black_holes_to(self.cells@, i as int),
                count <= i,
            decreases n - i,
        {
            if self.cells[i].is_black_hole {
                count = count + 1;
            }
            i = i + 1;
        }
        count
    }

    /// Run every remaining time step in order, collecting the records each
    /// step emits, and end in the finalizing phase.  Collapsed cells stay
    /// collapsed and keep their identifier for the whole run.
    pub fn run(&mut self) -> (records: Vec<Vec<CellRecord>>)
        requires
            old(self).wf(),
            !(old(self).phase is Seeding),
        ensures
            final(self).wf(),
            final(self).phase is Finalizing,
            final(self).params == old(self).params,
            final(self).current_step == final(self).params.num_timesteps,
            final(self).cells@.len() == old(self).cells@.len(),
            final(self).model() == run_model(
                old(self).model(),
                old(self).params,
                (old(self).params.num_timesteps - old(self).current_step) as nat,
            ),
            records@.len() == old(self).params.num_timesteps - old(self).current_step,
            forall|k: int| 0 <= k < records@.len() ==>
                records_match(
                    (#[trigger] records@[k])@,
                    run_model(old(self).model(), old(self).params, (k + 1) as nat).cells,
                ),
            forall|k: int| 0 <= k < records@.len() ==>
                (#[trigger] records@[k])@.len() == final(self).cells@.len(),
            forall|i: int| 0 <= i < final(self).cells@.len()
                && old(self).cells@[i].is_black_hole ==>
                (#[trigger] final(self).cells@[i]).is_black_hole
                    && final(self).cells@[i].black_hole_id == old(self).cells@[i].black_hole_id,
    {
        let mut records: Vec<Vec<CellRecord>> = Vec::new();
        while self.current_step < self.params.num_timesteps
            invariant
                self.wf(),
                !(self.phase is Seeding),
                self.params == old(self).params,
                old(self).current_step <= self.current_step,
                self.cells@.len() == old(self).cells@.len(),
                self.model() == run_model(
                    old(self).model(),
                    old(self).params,
                    (self.current_step - old(self).current_step) as nat,
                ),
                records@.len() == self.current_step - old(self).current_step,
                forall|k: int| 0 <= k < records@.len() ==>
                    records_match(
                        (#[trigger] records@[k])@,
                        run_model(old(self).model(), old(self).params, (k + 1) as nat).cells,
                    ),
                forall|k: int| 0 <= k < records@.len() ==>
                    (#[trigger] records@[k])@.len() == self.cells@.len(),
                forall|i: int| 0 <= i < self.cells@.len()
                    && old(self).cells@[i].is_black_hole ==>
                    (#[trigger] self.cells@[i]).is_black_hole
                        && self.cells@[i].black_hole_id == old(self).cells@[i].black_hole_id,
            decreases self.params.num_timesteps - self.current_step,
        {
            proof {
                assert(self.phase is Running);
            }
            let ghost k0: int = self.current_step - old(self).current_step;
            let step_records: Vec<CellRecord> = self.step();
            records.push(step_records);
            proof {
                assert(run_model(old(self).model(), old(self).params, (k0 + 1) as nat)
                    == stepped_model(
                        run_model(old(self).model(), old(self).params, k0 as nat),
                        old(self).params,
                    ));
            }
        }
        proof {
            assert(self.current_step == self.params.num_timesteps);
            assert(self.phase is Finalizing);
        }
        records
    }
}

/// Across a whole run, the non-zero black hole identifiers are pairwise
/// distinct and are exactly the set `{1, ..., count}` for the current
/// count of collapsed cells: the identifier counter has handed out each
/// value once.
pub proof fn lemma_black_hole_ids_exactly_count(eng: GridEvolutionEngine)
    requires
        eng.wf(),
        !(eng.phase is Seeding),
    ensures
        count_black_holes(eng.cells@) == eng.next_black_hole_id - 1,
        forall|i: int, j: int|
            0 <= i < j < eng.cells@.len()
                && eng.cells@[i].black_hole_id is Some
                && eng.cells@[j].black_hole_id is Some ==>
            #[trigger] id_of(eng.cells@[i]) != #[trigger] id_of(eng.cells@[j]),
        forall|i: int| 0 <= i < eng.cells@.len() && eng.cells@[i].black_hole_id is Some ==>
            1 <= #[trigger] id_of(eng.cells@[i]) <= count_black_holes(eng.cells@),
        forall|k: int| 1 <= k <= count_black_holes(eng.cells@) ==> #[trigger] has_id(eng.cells@, k),
{
    assert(ids_wf(eng.cells@, eng.next_black_hole_id as int));
}

} // verus!
