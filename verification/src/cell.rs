use vstd::prelude::*;

use crate::scalar::{clamped, is_scalar, SCALAR_LIMIT};

verus! {

/// One lattice site of the rip-field grid at one time step.  Scalars are
/// fixed-point micro-units; `neighbors` is the Moore neighborhood of the
/// cell, built once after the coordinates are assigned.
#[derive(Debug, Clone)]
pub struct Cell {
    pub col: usize,
    pub row: usize,
    pub layer: usize,
    pub timestep: usize,
    pub rip_strength: u64,
    pub curvature: u64,
    pub matter_density: u64,
    pub matter_density_smoothed: u64,
    pub is_black_hole: bool,
    pub black_hole_id: Option<u64>,
    pub neighbors: Vec<(usize, usize, usize)>,
    pub gravity_well: u64,
}

/// Matter density after one gravity-interaction update: the density gains
/// one twentieth of the curvature, saturating at the scalar range.
pub open spec fn grav_density(c: int, md: int) -> int {
    clamped(md + c / 20)
}

/// Curvature after one gravity-interaction update: the curvature gains one
/// two-hundredth of the freshly updated density.
pub open spec fn grav_curvature(c: int, md: int) -> int {
    clamped(c + grav_density(c, md) / 200)
}

/// Smallest in-bounds coordinate within distance one of `c`.
pub open spec fn nbr_lo(c: int) -> int {
    if c >= 1 { c - 1 } else { 0 }
}

/// Largest coordinate below `m` within distance one of `c`.
pub open spec fn nbr_hi(c: int, m: int) -> int {
    if c + 1 < m { c + 1 } else { m - 1 }
}

/// Number of in-bounds coordinates within distance one of `c` on one axis.
pub open spec fn nbr_span(c: int, m: int) -> int {
    nbr_hi(c, m) - nbr_lo(c) + 1
}

/// Whether `p` is a Moore neighbor of the cell at `(col, row, layer)` in an
/// `m`-sided cubic lattice: every coordinate within distance one and in
/// bounds, and not the cell itself.
pub open spec fn is_neighbor(col: int, row: int, layer: int, m: int, p: (usize, usize, usize)) -> bool {
    &&& nbr_lo(col) <= p.0 <= nbr_hi(col, m)
    &&& nbr_lo(row) <= p.1 <= nbr_hi(row, m)
    &&& nbr_lo(layer) <= p.2 <= nbr_hi(layer, m)
    &&& !(p.0 == col && p.1 == row && p.2 == layer)
}

/// How many Moore neighbors the cell at `(col, row, layer)` has: the volume
/// of the clipped neighborhood box minus the cell itself.
pub open spec fn neighbor_count(col: int, row: int, layer: int, m: int) -> int {
    nbr_span(col, m) * nbr_span(row, m) * nbr_span(layer, m) - 1
}

/// Strict lexicographic order on coordinate triples; `assign_neighbors`
/// lists neighbors in this order, which makes the list duplicate-free.
pub open spec fn coord_lt(a: (usize, usize, usize), b: (usize, usize, usize)) -> bool {
    before_pos(a, b.0 as int, b.1 as int, b.2 as int)
}

/// `p` precedes the lattice position `(x, y, z)` in lexicographic order.
pub open spec fn before_pos(p: (usize, usize, usize), x: int, y: int, z: int) -> bool {
    ||| p.0 < x
    ||| (p.0 == x && p.1 < y)
    ||| (p.0 == x && p.1 == y && p.2 < z)
}

/// Everything but the neighbor list agrees between the two cells.
pub open spec fn same_but_neighbors(a: Cell, b: Cell) -> bool {
    &&& a.col == b.col
    &&& a.row == b.row
    &&& a.layer == b.layer
    &&& a.timestep == b.timestep
    &&& a.rip_strength == b.rip_strength
    &&& a.curvature == b.curvature
    &&& a.matter_density == b.matter_density
    &&& a.matter_density_smoothed == b.matter_density_smoothed
    &&& a.is_black_hole == b.is_black_hole
    &&& a.black_hole_id == b.black_hole_id
    &&& a.gravity_well == b.gravity_well
}

/// The neighbor list is exactly the Moore neighborhood, in strictly
/// increasing lexicographic order, with the size the clipped box dictates.
pub open spec fn neighbors_assigned(ns: Seq<(usize, usize, usize)>, col: int, row: int, layer: int, m: int) -> bool {
    &&& ns.len() == neighbor_count(col, row, layer, m)
    &&& forall|p: (usize, usize, usize)| ns.contains(p) <==> is_neighbor(col, row, layer, m, p)
    &&& forall|i: int, j: int| 0 <= i < j < ns.len() ==> coord_lt(ns[i], ns[j])
}

impl Cell {
    /// A zero-valued cell at the lattice origin with no neighbors yet.
    pub fn new() -> (c: Cell)
        ensures
            c.col == 0,
            c.row == 0,
            c.layer == 0,
            c.timestep == 0,
            c.rip_strength == 0,
            c.curvature == 0,
            c.matter_density == 0,
            c.matter_density_smoothed == 0,
            !c.is_black_hole,
            c.black_hole_id is None,
            c.neighbors@.len() == 0,
            c.gravity_well == 0,
    {
        Cell {
            col: 0,
            row: 0,
            layer: 0,
            timestep: 0,
            rip_strength: 0,
            curvature: 0,
            matter_density: 0,
            matter_density_smoothed: 0,
            is_black_hole: false,
            black_hole_id: None,
            neighbors: Vec::new(),
            gravity_well: 0,
        }
    }

    /// One gravity-interaction update: density first, then curvature from
    /// the already-updated density.
    pub fn apply_gravity_interaction(&mut self)
        requires
            is_scalar(old(self).curvature),
            is_scalar(old(self).matter_density),
        ensures
            final(self).matter_density == grav_density(old(self).curvature as int, old(self).matter_density as int),
            final(self).curvature == grav_curvature(old(self).curvature as int, old(self).matter_density as int),
            is_scalar(final(self).curvature),
            is_scalar(final(self).matter_density),
            same_but_density_curvature(*old(self), *final(self)),
    {
        let d: u64 = self.matter_density + self.curvature / 20;
        self.matter_density = if d > SCALAR_LIMIT { SCALAR_LIMIT } else { d };
        let c: u64 = self.curvature + self.matter_density / 200;
        self.curvature = if c > SCALAR_LIMIT { SCALAR_LIMIT } else { c };
    }

    /// Build the neighbor list for an `max`-sided cubic lattice.  The list
    /// enumerates, in lexicographic order, every in-bounds coordinate
    /// triple within distance one of this cell other than the cell itself.
    pub fn assign_neighbors(&mut self, max: usize)
        requires
            old(self).col < max,
            old(self).row < max,
            old(self).layer < max,
        ensures
            same_but_neighbors(*old(self), *final(self)),
            neighbors_assigned(final(self).neighbors@, old(self).col as int, old(self).row as int, old(self).layer as int, max as int),
    {
        self.neighbors.clear();
        let col: usize = self.col;
        let row: usize = self.row;
        let layer: usize = self.layer;
        let xlo: usize = if col >= 1 { col - 1 } else { 0 };
        let xhi: usize = if col + 1 < max { col + 1 } else { max - 1 };
        let ylo: usize = if row >= 1 { row - 1 } else { 0 };
        let yhi: usize = if row + 1 < max { row + 1 } else { max - 1 };
        let zlo: usize = if layer >= 1 { layer - 1 } else { 0 };
        let zhi: usize = if layer + 1 < max { layer + 1 } else { max - 1 };
        let ghost c0: int = col as int;
        let ghost r0: int = row as int;
        let ghost l0: int = layer as int;
        let ghost m0: int = max as int;
        let ghost sy: int = nbr_span(r0, m0);
        let ghost sz: int = nbr_span(l0, m0);
        proof {
            assert((xlo - xlo) * sy * sz == 0) by (nonlinear_arith);
            assert((ylo - ylo) * sz == 0) by (nonlinear_arith);
        }
        let mut nx: usize = xlo;
        while nx <= xhi
            invariant
                same_but_neighbors(*old(self), *self),
                col == self.col && row == self.row && layer == self.layer,
                c0 == col as int && r0 == row as int && l0 == layer as int && m0 == max as int,
                col < max && row < max && layer < max,
                xlo == nbr_lo(c0) && xhi == nbr_hi(c0, m0),
                ylo == nbr_lo(r0) && yhi == nbr_hi(r0, m0),
                zlo == nbr_lo(l0) && zhi == nbr_hi(l0, m0),
                sy == nbr_span(r0, m0) && sz == nbr_span(l0, m0),
                xlo <= nx <= xhi + 1,
                self.neighbors@.len() ==
                    (nx - xlo) * sy * sz - (if nx > col { 1int } else { 0int }),
                forall|k: int| 0 <= k < self.neighbors@.len()
                    ==> is_neighbor(c0, r0, l0, m0, #[trigger] self.neighbors@[k])
                        && before_pos(self.neighbors@[k], nx as int, ylo as int, zlo as int),
                forall|p: (usize, usize, usize)|
                    is_neighbor(c0, r0, l0, m0, p) && before_pos(p, nx as int, ylo as int, zlo as int)
                        ==> #[trigger] self.neighbors@.contains(p),
                forall|i: int, j: int| 0 <= i < j < self.neighbors@.len()
                    ==> coord_lt(self.neighbors@[i], self.neighbors@[j]),
            decreases xhi + 1 - nx,
        {
            let mut ny: usize = ylo;
            while ny <= yhi
                invariant
                    same_but_neighbors(*old(self), *self),
                    col == self.col && row == self.row && layer == self.layer,
                    c0 == col as int && r0 == row as int && l0 == layer as int && m0 == max as int,
                    col < max && row < max && layer < max,
                    xlo == nbr_lo(c0) && xhi == nbr_hi(c0, m0),
                    ylo == nbr_lo(r0) && yhi == nbr_hi(r0, m0),
                    zlo == nbr_lo(l0) && zhi == nbr_hi(l0, m0),
                    sy == nbr_span(r0, m0) && sz == nbr_span(l0, m0),
                    xlo <= nx <= xhi,
                    ylo <= ny <= yhi + 1,
                    self.neighbors@.len() ==
                        (nx - xlo) * sy * sz + (ny - ylo) * sz
                            - (if nx > col || (nx == col && ny > row) { 1int } else { 0int }),
                    forall|k: int| 0 <= k < self.neighbors@.len()
                        ==> is_neighbor(c0, r0, l0, m0, #[trigger] self.neighbors@[k])
                            && before_pos(self.neighbors@[k], nx as int, ny as int, zlo as int),
                    forall|p: (usize, usize, usize)|
                        is_neighbor(c0, r0, l0, m0, p) && before_pos(p, nx as int, ny as int, zlo as int)
                            ==> #[trigger] self.neighbors@.contains(p),
                    forall|i: int, j: int| 0 <= i < j < self.neighbors@.len()
                        ==> coord_lt(self.neighbors@[i], self.neighbors@[j]),
                decreases yhi + 1 - ny,
            {
                let mut nz: usize = zlo;
                while nz <= zhi
                    invariant
                        same_but_neighbors(*old(self), *self),
                        col == self.col && row == self.row && layer == self.layer,
                        c0 == col as int && r0 == row as int && l0 == layer as int && m0 == max as int,
                        col < max && row < max && layer < max,
                        xlo == nbr_lo(c0) && xhi == nbr_hi(c0, m0),
                        ylo == nbr_lo(r0) && yhi == nbr_hi(r0, m0),
                        zlo == nbr_lo(l0) && zhi == nbr_hi(l0, m0),
                        sy == nbr_span(r0, m0) && sz == nbr_span(l0, m0),
                        xlo <= nx <= xhi,
                        ylo <= ny <= yhi,
                        zlo <= nz <= zhi + 1,
                        self.neighbors@.len() ==
                            (nx - xlo) * sy * sz + (ny - ylo) * sz + (nz - zlo)
                                - (if before_pos((col, row, layer), nx as int, ny as int, nz as int)
                                    { 1int } else { 0int }),
                        forall|k: int| 0 <= k < self.neighbors@.len()
                            ==> is_neighbor(c0, r0, l0, m0, #[trigger] self.neighbors@[k])
                                && before_pos(self.neighbors@[k], nx as int, ny as int, nz as int),
                        forall|p: (usize, usize, usize)|
                            is_neighbor(c0, r0, l0, m0, p) && before_pos(p, nx as int, ny as int, nz as int)
                                ==> #[trigger] self.neighbors@.contains(p),
                        forall|i: int, j: int| 0 <= i < j < self.neighbors@.len()
                            ==> coord_lt(self.neighbors@[i], self.neighbors@[j]),
                    decreases zhi + 1 - nz,
                {
                    let ghost before = self.neighbors@;
                    if !(nx == col && ny == row && nz == layer) {
                        self.neighbors.push((nx, ny, nz));
                        proof {
                            assert(self.neighbors@ == before.push((nx, ny, nz)));
                            assert(is_neighbor(c0, r0, l0, m0, (nx, ny, nz)));
                            assert forall|p: (usize, usize, usize)|
                                is_neighbor(c0, r0, l0, m0, p)
                                    && before_pos(p, nx as int, ny as int, nz + 1)
                                implies #[trigger] self.neighbors@.contains(p) by {
                                if before_pos(p, nx as int, ny as int, nz as int) {
                                    assert(before.contains(p));
                                    let i = choose|i: int| 0 <= i < before.len() && before[i] == p;
                                    assert(self.neighbors@[i] == p);
                                } else {
                                    assert(p == (nx, ny, nz));
                                    assert(self.neighbors@[before.len() as int] == p);
                                }
                            }
                        }
                    } else {
                        proof {
                            assert forall|p: (usize, usize, usize)|
                                is_neighbor(c0, r0, l0, m0, p)
                                    && before_pos(p, nx as int, ny as int, nz + 1)
                                implies #[trigger] self.neighbors@.contains(p) by {
                                assert(p != (nx, ny, nz));
                                assert(before_pos(p, nx as int, ny as int, nz as int));
                            }
                        }
                    }
                    nz = nz + 1;
                }
                proof {
                    assert((nx - xlo) * sy * sz + (ny - ylo) * sz + (zhi + 1 - zlo)
                        == (nx - xlo) * sy * sz + (ny + 1 - ylo) * sz) by (nonlinear_arith)
                        requires sz == zhi + 1 - zlo;
                    assert forall|p: (usize, usize, usize)|
                        is_neighbor(c0, r0, l0, m0, p)
                            && before_pos(p, nx as int, ny + 1, zlo as int)
                        implies #[trigger] self.neighbors@.contains(p) by {
                        assert(p.2 <= zhi);
                        assert(before_pos(p, nx as int, ny as int, zhi + 1));
                    }
                }
                ny = ny + 1;
            }
            proof {
                assert((nx - xlo) * sy * sz + (yhi + 1 - ylo) * sz
                    == (nx + 1 - xlo) * sy * sz) by (nonlinear_arith)
                    requires sy == yhi + 1 - ylo;
                assert forall|p: (usize, usize, usize)|
                    is_neighbor(c0, r0, l0, m0, p)
                        && before_pos(p, nx + 1, ylo as int, zlo as int)
                    implies #[trigger] self.neighbors@.contains(p) by {
                    assert(p.1 <= yhi && p.2 <= zhi);
                    assert(before_pos(p, nx as int, yhi + 1, zlo as int));
                }
            }
            nx = nx + 1;
        }
        proof {
            assert((xhi + 1 - xlo) * sy * sz == nbr_span(c0, m0) * sy * sz);
            assert(self.neighbors@.len() == neighbor_count(c0, r0, l0, m0));
            assert forall|p: (usize, usize, usize)|
                #[trigger] self.neighbors@.contains(p) implies is_neighbor(c0, r0, l0, m0, p) by {
                let i = choose|i: int| 0 <= i < self.neighbors@.len() && self.neighbors@[i] == p;
            }
            assert forall|p: (usize, usize, usize)|
                is_neighbor(c0, r0, l0, m0, p) implies #[trigger] self.neighbors@.contains(p) by {
                assert(p.0 <= xhi);
                assert(before_pos(p, xhi + 1, ylo as int, zlo as int));
            }
        }
    }
}

/// A cell never has more than twenty-six neighbors, and at least zero.
pub proof fn lemma_neighbor_count_bounds(col: int, row: int, layer: int, m: int)
    requires
        1 <= m,
        0 <= col < m,
        0 <= row < m,
        0 <= layer < m,
    ensures
        0 <= neighbor_count(col, row, layer, m) <= 26,
{
    assert(1 <= nbr_span(col, m) <= 3);
    assert(1 <= nbr_span(row, m) <= 3);
    assert(1 <= nbr_span(layer, m) <= 3);
    assert(1 <= nbr_span(col, m) * nbr_span(row, m) * nbr_span(layer, m) <= 27)
        by (nonlinear_arith)
        requires
            1 <= nbr_span(col, m) <= 3,
            1 <= nbr_span(row, m) <= 3,
            1 <= nbr_span(layer, m) <= 3;
}

/// A corner cell of a lattice with at least two cells per side has
/// exactly seven neighbors.
pub proof fn lemma_corner_neighbor_count(m: int)
    requires
        m >= 2,
    ensures
        neighbor_count(0, 0, 0, m) == 7,
{
    assert(nbr_span(0, m) == 2);
}

/// The only cell of a one-sided lattice has no neighbors.
pub proof fn lemma_single_cell_no_neighbors()
    ensures
        neighbor_count(0, 0, 0, 1) == 0,
{
    assert(nbr_span(0, 1) == 1);
}

/// Everything but matter density and curvature agrees between the two cells.
pub open spec fn same_but_density_curvature(a: Cell, b: Cell) -> bool {
    &&& a.col == b.col
    &&& a.row == b.row
    &&& a.layer == b.layer
    &&& a.timestep == b.timestep
    &&& a.rip_strength == b.rip_strength
    &&& a.matter_density_smoothed == b.matter_density_smoothed
    &&& a.is_black_hole == b.is_black_hole
    &&& a.black_hole_id == b.black_hole_id
    &&& a.neighbors == b.neighbors
    &&& a.gravity_well == b.gravity_well
}

} // verus!
