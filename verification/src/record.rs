use vstd::prelude::*;

use crate::cell::Cell;
use crate::scalar::{is_scalar, quantized_milli, quantize_milli};

verus! {

/// One row of the snapshot stream: the state of one cell at one time step.
/// Scalars are micro-units; curvature and rip strength are quantized to
/// thousandths of a unit, as the stream stores them at three decimal
/// places.  `black_hole_id` of zero means "not yet collapsed".
#[derive(Clone, Copy, Debug, PartialEq, Eq, Structural)]
pub struct CellRecord {
    pub timestep: usize,
    pub col: usize,
    pub row: usize,
    pub layer: usize,
    pub curvature: u64,
    pub matter_density: u64,
    pub is_black_hole: bool,
    pub rip_strength: u64,
    pub matter_density_smoothed: u64,
    pub black_hole_id: u64,
    pub gravity_well: u64,
}

/// The record a cell emits: its fields, with curvature and rip strength
/// rounded to the milli-grid of the stream.
pub open spec fn record_of_cell(c: Cell) -> CellRecord {
    CellRecord {
        timestep: c.timestep,
        col: c.col,
        row: c.row,
        layer: c.layer,
        curvature: quantized_milli(c.curvature as int) as u64,
        matter_density: c.matter_density,
        is_black_hole: c.is_black_hole,
        rip_strength: quantized_milli(c.rip_strength as int) as u64,
        matter_density_smoothed: c.matter_density_smoothed,
        black_hole_id: match c.black_hole_id {
            Some(id) => id,
            None => 0,
        },
        gravity_well: c.gravity_well,
    }
}

/// A record whose scalars are in range and whose curvature and rip
/// strength sit on the milli-grid, as every record the engine emits does.
pub open spec fn record_valid(r: CellRecord) -> bool {
    &&& is_scalar(r.curvature)
    &&& is_scalar(r.matter_density)
    &&& is_scalar(r.rip_strength)
    &&& is_scalar(r.matter_density_smoothed)
    &&& is_scalar(r.gravity_well)
    &&& r.curvature % 1000 == 0
    &&& r.rip_strength % 1000 == 0
}

impl CellRecord {
    /// Emit the snapshot row for one cell.
    pub fn from_cell(c: &Cell) -> (r: CellRecord)
        requires
            is_scalar(c.curvature),
            is_scalar(c.matter_density),
            is_scalar(c.rip_strength),
            is_scalar(c.matter_density_smoothed),
            is_scalar(c.gravity_well),
        ensures
            r == record_of_cell(*c),
            record_valid(r),
    {
        CellRecord {
            timestep: c.timestep,
            col: c.col,
            row: c.row,
            layer: c.layer,
            curvature: quantize_milli(c.curvature),
            matter_density: c.matter_density,
            is_black_hole: c.is_black_hole,
            rip_strength: quantize_milli(c.rip_strength),
            matter_density_smoothed: c.matter_density_smoothed,
            black_hole_id: match c.black_hole_id {
                Some(id) => id,
                None => 0,
            },
            gravity_well: c.gravity_well,
        }
    }
}

} // verus!
