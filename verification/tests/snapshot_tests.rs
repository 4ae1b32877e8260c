use rip_field::config::{parse_mode, OutputMode, SimulationConfig};
use rip_field::engine::{EngineParams, GridEvolutionEngine};
use rip_field::post::{
    evolve_record, evolve_structure, group_by_timestep, quantize_record, read_cells_from_csv,
    write_snapshot, SnapshotError,
};
use rip_field::record::CellRecord;
use rip_field::snapshot::{format_snapshot_exec, parse_record, push_record};

fn sample_record() -> CellRecord {
    CellRecord {
        timestep: 0,
        col: 1,
        row: 2,
        layer: 3,
        curvature: 210_000,
        matter_density: 16_500,
        is_black_hole: true,
        rip_strength: 10_000_000,
        matter_density_smoothed: 0,
        black_hole_id: 1,
        gravity_well: 210_082,
    }
}

#[test]
fn test_record_line_format_exact() {
    let mut line: Vec<u8> = Vec::new();
    push_record(&mut line, &sample_record());
    let expected = "0,1,2,3,0.210,0.016500,1,10.000,0.000000,1,0.210082";
    assert_eq!(line, expected.as_bytes().to_vec());
}

#[test]
fn test_parse_record_round_trip() {
    let mut line: Vec<u8> = Vec::new();
    push_record(&mut line, &sample_record());
    let parsed = parse_record(&line).expect("row should parse");
    assert_eq!(parsed, sample_record());
}

#[test]
fn test_parse_record_plain_values() {
    let line = b"5,0,0,1,1.5,0.25,0,2.000,0.000001,0,3.5".to_vec();
    let parsed = parse_record(&line).expect("row should parse");
    assert_eq!(parsed.timestep, 5);
    assert_eq!(parsed.curvature, 1_500_000);
    assert_eq!(parsed.matter_density, 250_000);
    assert!(!parsed.is_black_hole);
    assert_eq!(parsed.rip_strength, 2_000_000);
    assert_eq!(parsed.matter_density_smoothed, 1);
    assert_eq!(parsed.gravity_well, 3_500_000);
}

#[test]
fn test_parse_record_rejects_bad_rows() {
    // Wrong column count.
    assert_eq!(parse_record(&b"1,2,3".to_vec()), None);
    // A non-numeric field.
    assert_eq!(parse_record(&b"x,1,2,3,0.210,0.016500,1,10.000,0.000000,1,0.210082".to_vec()), None);
    // Too many fraction digits.
    assert_eq!(parse_record(&b"0,1,2,3,0.210,0.0165000,1,10.000,0.000000,1,0.210082".to_vec()), None);
    // An empty field.
    assert_eq!(parse_record(&b"0,1,2,3,,0.016500,1,10.000,0.000000,1,0.210082".to_vec()), None);
    // A scalar over the representable range.
    assert_eq!(
        parse_record(&b"0,1,2,3,9999999999.0,0.016500,1,10.000,0.000000,1,0.210082".to_vec()),
        None
    );
}

#[test]
fn test_snapshot_round_trip() {
    // A 2x2x2 lattice run for one step: writing the snapshot and reading
    // it back through the post-processing reader yields the same 8 rows,
    // grouped under timestep 0.
    let mut p = EngineParams::preset();
    p.grid_size = 2;
    p.num_timesteps = 1;
    let mut eng = GridEvolutionEngine::new(p);
    eng.seed(3);
    let records = eng.run();
    assert_eq!(records.len(), 1);
    assert_eq!(records[0].len(), 8);
    let bytes = write_snapshot(&records[0]);
    let frames = read_cells_from_csv(&bytes).expect("stream should read back");
    assert_eq!(frames.len(), 1);
    assert_eq!(frames[0], records[0]);
}

#[test]
fn test_snapshot_stream_is_gzip() {
    let records = vec![sample_record()];
    let bytes = write_snapshot(&records);
    // The stream is a finalized gzip stream, not the plain text.
    assert_eq!(bytes[0], 0x1f);
    assert_eq!(bytes[1], 0x8b);
    let plain = format_snapshot_exec(&records);
    assert_ne!(bytes, plain);
    // An independent decoder reads it back to the plain rows.
    let mut dec = flate2::read::GzDecoder::new(bytes.as_slice());
    let mut buf = Vec::new();
    std::io::Read::read_to_end(&mut dec, &mut buf).expect("stream should decompress");
    assert_eq!(buf, plain);
}

#[test]
fn test_read_rejects_garbage() {
    assert_eq!(read_cells_from_csv(&b"not gzip at all".to_vec()), Err(SnapshotError::Decompression));
    let mut enc = flate2::write::GzEncoder::new(Vec::new(), flate2::Compression::default());
    std::io::Write::write_all(&mut enc, b"header\nthis,is,not,a,row\n").unwrap();
    let bad = enc.finish().unwrap();
    assert_eq!(read_cells_from_csv(&bad), Err(SnapshotError::Malformed));
}

#[test]
fn test_csv_reader_agrees() {
    // An off-the-shelf csv reader sees the same header and rows.
    let records = vec![sample_record()];
    let plain = format_snapshot_exec(&records);
    let mut reader = csv::ReaderBuilder::new().has_headers(true).from_reader(plain.as_slice());
    let headers = reader.headers().unwrap().clone();
    assert_eq!(&headers[0], "timestep");
    assert_eq!(&headers[10], "gravity_well");
    let rows: Vec<csv::StringRecord> = reader.records().map(|r| r.unwrap()).collect();
    assert_eq!(rows.len(), 1);
    assert_eq!(&rows[0][4], "0.210");
    assert_eq!(&rows[0][6], "1");
}

#[test]
fn test_group_by_timestep_fills_gaps() {
    let mut a = sample_record();
    a.timestep = 0;
    let mut b = sample_record();
    b.timestep = 2;
    b.col = 9;
    let mut c = sample_record();
    c.timestep = 0;
    c.col = 5;
    let frames = group_by_timestep(&vec![a, b, c]);
    assert_eq!(frames.len(), 3);
    assert_eq!(frames[0], vec![a, c]);
    assert_eq!(frames[1], Vec::<CellRecord>::new());
    assert_eq!(frames[2], vec![b]);
}

#[test]
fn test_evolve_boosts_filaments() {
    let mut r = sample_record();
    r.curvature = 100_000;
    r.gravity_well = 60_000;
    r.matter_density_smoothed = 3_000;
    let e = evolve_record(&r);
    assert_eq!(e.curvature, 100_600);
}

#[test]
fn test_evolve_damps_voids() {
    let mut r = sample_record();
    r.curvature = 100_000;
    r.gravity_well = 5_000;
    r.matter_density_smoothed = 400;
    let e = evolve_record(&r);
    assert_eq!(e.curvature, 95_000);
}

#[test]
fn test_evolve_leaves_middle_alone() {
    let mut r = sample_record();
    r.curvature = 100_000;
    r.gravity_well = 30_000;
    r.matter_density_smoothed = 1_000;
    let e = evolve_record(&r);
    assert_eq!(e.curvature, 100_000);
    assert_eq!(e.matter_density, r.matter_density);
}

#[test]
fn test_evolve_structure_whole_frames() {
    let mut boost = sample_record();
    boost.curvature = 100_000;
    boost.gravity_well = 60_000;
    boost.matter_density_smoothed = 3_000;
    let mut damp = sample_record();
    damp.timestep = 1;
    damp.curvature = 100_000;
    damp.gravity_well = 5_000;
    damp.matter_density_smoothed = 400;
    let mut frames = vec![vec![boost], vec![damp]];
    evolve_structure(&mut frames);
    assert_eq!(frames[0][0].curvature, 100_600);
    assert_eq!(frames[1][0].curvature, 95_000);
}

#[test]
fn test_quantize_record_rounds_to_milli() {
    let mut r = sample_record();
    r.curvature = 210_082;
    r.rip_strength = 210_500;
    let q = quantize_record(&r);
    assert_eq!(q.curvature, 210_000);
    assert_eq!(q.rip_strength, 211_000);
    assert_eq!(q.matter_density, r.matter_density);
}

#[test]
fn test_parse_mode_selects() {
    assert_eq!(parse_mode(&b"structure".to_vec()), Some(OutputMode::Structure));
    assert_eq!(parse_mode(&b"inflation".to_vec()), Some(OutputMode::Inflation));
    assert_eq!(parse_mode(&b"all".to_vec()), Some(OutputMode::All));
    assert_eq!(parse_mode(&b"everything".to_vec()), None);
    assert_eq!(parse_mode(&b"".to_vec()), None);
}

#[test]
fn test_simulation_config_presets() {
    let d = SimulationConfig::default();
    assert_eq!(d.rip_initial, 10_000_000_000);
    assert_eq!(d.rip_decay_rate, 5_000_000);
    assert_eq!(d.time_step_size, 10_000);
    assert_eq!(d.max_simulation_time, 10_000_000);
    assert_eq!(d.num_steps(), 1000);
    let f = SimulationConfig::fast_inflation();
    assert_eq!(f.rip_decay_rate, 7_000_000);
    assert_eq!(f.num_steps(), 500);
    let s = SimulationConfig::slow_inflation();
    assert_eq!(s.rip_decay_rate, 2_000_000);
    let c = SimulationConfig::from_parameters(1, 2, 3, 4);
    assert_eq!((c.rip_initial, c.rip_decay_rate, c.time_step_size, c.max_simulation_time), (1, 2, 3, 4));
}
