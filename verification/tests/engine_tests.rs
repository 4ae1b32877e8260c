use rip_field::cell::Cell;
use rip_field::engine::{EngineParams, EnginePhase, GridEvolutionEngine, StretchAxis};
use rip_field::smoothing::smooth_density;

fn params_for(m: usize, steps: usize) -> EngineParams {
    let mut p = EngineParams::preset();
    p.grid_size = m;
    p.num_timesteps = steps;
    p
}

fn single_cell_engine(curvature: u64, matter_density: u64, steps: usize) -> GridEvolutionEngine {
    let mut cell = Cell::new();
    cell.assign_neighbors(1);
    cell.curvature = curvature;
    cell.matter_density = matter_density;
    let params = params_for(1, steps);
    GridEvolutionEngine {
        params,
        cells: vec![cell],
        next_black_hole_id: 1,
        rip_strength: params.rip_initial,
        current_step: 0,
        phase: EnginePhase::Running,
    }
}

#[test]
fn test_corner_neighbor_count() {
    let mut cell = Cell::new();
    cell.assign_neighbors(4);
    assert_eq!(cell.neighbors.len(), 7);
    let expected = vec![
        (0, 0, 1),
        (0, 1, 0),
        (0, 1, 1),
        (1, 0, 0),
        (1, 0, 1),
        (1, 1, 0),
        (1, 1, 1),
    ];
    assert_eq!(cell.neighbors, expected);
}

#[test]
fn test_single_cell_has_no_neighbors() {
    let mut cell = Cell::new();
    cell.assign_neighbors(1);
    assert_eq!(cell.neighbors.len(), 0);
}

#[test]
fn test_interior_cell_has_26_neighbors() {
    let mut cell = Cell::new();
    cell.col = 1;
    cell.row = 1;
    cell.layer = 1;
    cell.assign_neighbors(3);
    assert_eq!(cell.neighbors.len(), 26);
}

#[test]
fn test_neighbors_clipped_at_far_edge() {
    let mut cell = Cell::new();
    cell.col = 3;
    cell.row = 3;
    cell.layer = 3;
    cell.assign_neighbors(4);
    assert_eq!(cell.neighbors.len(), 7);
}

#[test]
fn test_gravity_interaction_exact() {
    let mut cell = Cell::new();
    cell.curvature = 2_000_000;
    cell.matter_density = 1_000_000;
    cell.apply_gravity_interaction();
    assert_eq!(cell.matter_density, 1_100_000);
    assert_eq!(cell.curvature, 2_005_500);
}

#[test]
fn test_smoothing_uniform_field() {
    // A uniform field stays uniform under smoothing, for several radii.
    for radius in 0..3usize {
        let m = 3usize;
        let grid = vec![7_654_321u64; m * m * m];
        let out = smooth_density(&grid, m, radius);
        assert_eq!(out, grid);
    }
}

#[test]
fn test_smoothing_mean_exact() {
    // 2x2x2 lattice with radius 1: every window covers the whole cube.
    let grid: Vec<u64> = vec![0, 8, 16, 24, 32, 40, 48, 59];
    let out = smooth_density(&grid, 2, 1);
    let mean = (0 + 8 + 16 + 24 + 32 + 40 + 48 + 59) / 8;
    assert_eq!(out, vec![mean; 8]);
}

#[test]
fn test_smoothing_boundary_divisor() {
    // 3x3x3 lattice, radius 1: the corner window has 8 samples, the
    // center window 27.
    let m = 3usize;
    let mut grid = vec![0u64; 27];
    for (i, g) in grid.iter_mut().enumerate() {
        *g = i as u64;
    }
    let out = smooth_density(&grid, m, 1);
    let corner: u64 = [0, 1, 3, 4, 9, 10, 12, 13].iter().map(|&i| grid[i as usize]).sum::<u64>() / 8;
    assert_eq!(out[0], corner);
    let center: u64 = grid.iter().sum::<u64>() / 27;
    assert_eq!(out[13], center);
}

#[test]
fn test_collapse_scenario() {
    // Curvature 0.21 and density 0.006 against thresholds 0.2 and 0.005:
    // the cell collapses in that same step, density reset to zero, and the
    // smoothing pass of the step sees only the zeroed density.
    let mut eng = single_cell_engine(210_000, 6_000, 1);
    let records = eng.step();
    let cell = &eng.cells[0];
    assert!(cell.is_black_hole);
    assert_eq!(cell.black_hole_id, Some(1));
    assert_eq!(cell.matter_density, 0);
    // Gravity well uses the post-gravity curvature plus the previous
    // step's smoothed density (zero on the first step).
    assert_eq!(cell.curvature, 210_082);
    assert_eq!(cell.gravity_well, 210_082);
    assert_eq!(cell.matter_density_smoothed, 0);
    assert_eq!(records.len(), 1);
    assert_eq!(records[0].is_black_hole, true);
    assert_eq!(records[0].black_hole_id, 1);
    assert_eq!(records[0].matter_density, 0);
    assert_eq!(records[0].curvature, 210_000);
    assert_eq!(eng.black_hole_count(), 1);
}

#[test]
fn test_no_collapse_below_threshold() {
    let mut eng = single_cell_engine(150_000, 6_000, 1);
    eng.step();
    assert!(!eng.cells[0].is_black_hole);
    assert_eq!(eng.cells[0].black_hole_id, None);
    assert_eq!(eng.black_hole_count(), 0);
}

#[test]
fn test_black_hole_monotonic() {
    // Once collapsed, a cell stays collapsed with the same identifier.
    let mut eng = single_cell_engine(210_000, 6_000, 3);
    eng.step();
    assert!(eng.cells[0].is_black_hole);
    assert_eq!(eng.cells[0].black_hole_id, Some(1));
    eng.step();
    assert!(eng.cells[0].is_black_hole);
    assert_eq!(eng.cells[0].black_hole_id, Some(1));
    eng.step();
    assert!(eng.cells[0].is_black_hole);
    assert_eq!(eng.cells[0].black_hole_id, Some(1));
    assert_eq!(eng.phase, EnginePhase::Finalizing);
}

#[test]
fn test_rip_strength_decay() {
    let mut eng = single_cell_engine(0, 0, 2);
    assert_eq!(eng.rip_strength, 10_000_000);
    let records = eng.step();
    assert_eq!(records[0].rip_strength, 10_000_000);
    assert_eq!(eng.rip_strength, 9_995_000);
    let records = eng.step();
    assert_eq!(records[0].rip_strength, 9_995_000);
}

#[test]
fn test_ids_unique_and_dense() {
    // Across a whole run the non-zero identifiers are exactly 1..=count.
    let mut eng = GridEvolutionEngine::new(params_for(4, 2));
    eng.seed(7);
    eng.run();
    let count = eng.black_hole_count();
    let mut ids: Vec<u64> = eng
        .cells
        .iter()
        .filter_map(|c| c.black_hole_id)
        .collect();
    ids.sort();
    let expected: Vec<u64> = (1..=count).collect();
    assert_eq!(ids, expected);
}

#[test]
fn test_seeded_run_deterministic() {
    // The same seed reproduces the same collapse count; tightening the
    // thresholds changes it.
    let mut a = GridEvolutionEngine::new(params_for(4, 2));
    a.seed(42);
    a.run();
    let mut b = GridEvolutionEngine::new(params_for(4, 2));
    b.seed(42);
    b.run();
    assert_eq!(a.black_hole_count(), b.black_hole_count());
    assert!(a.black_hole_count() > 0);

    let mut tight = params_for(4, 2);
    tight.curvature_threshold = 3_000_000_000;
    tight.collapse_density_threshold = 3_000_000_000;
    let mut c = GridEvolutionEngine::new(tight);
    c.seed(42);
    c.run();
    assert_eq!(c.black_hole_count(), 0);
    assert_ne!(a.black_hole_count(), c.black_hole_count());
}

#[test]
fn test_stretch_axis_scales_curvature() {
    let mut eng = GridEvolutionEngine::new(params_for(3, 1));
    eng.seed(5);
    // Seeded curvature is below the bound times one plus the column.
    for cell in &eng.cells {
        let factor = 1 + cell.col as u64;
        assert!(cell.curvature < eng.params.seed_curvature_bound * factor);
        assert_eq!(cell.matter_density, 0);
        assert!(!cell.is_black_hole);
    }
}

#[test]
fn test_run_emits_step_major_records() {
    let mut eng = GridEvolutionEngine::new(params_for(2, 2));
    eng.seed(1);
    let records = eng.run();
    assert_eq!(records.len(), 2);
    for (t, frame) in records.iter().enumerate() {
        assert_eq!(frame.len(), 8);
        for (i, r) in frame.iter().enumerate() {
            assert_eq!(r.timestep, t);
            let (col, row, layer) = (i / 4, (i / 2) % 2, i % 2);
            assert_eq!((r.col, r.row, r.layer), (col, row, layer));
        }
    }
}
