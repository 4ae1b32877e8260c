use std::io::{Read, Write};

use vstd::prelude::*;

use crate::record::{record_valid, CellRecord};
use crate::scalar::{clamped, is_scalar, quantized_milli, quantize_milli, SCALAR_LIMIT};
use crate::snapshot::{
    format_snapshot, format_snapshot_exec, parse_snapshot_exec, parse_snapshot_spec,
};

verus! {

/// The bytes that flate2's gzip encoder produces for the given input, at
/// the default compression level with the default header: a pure function
/// of the input bytes.
pub uninterp spec fn gzip_of(data: Seq<u8>) -> Seq<u8>;

/// What flate2's gzip decoder yields for the given input: the decoded
/// bytes, or nothing when the input is not a well-formed gzip stream.
pub uninterp spec fn gunzip_of(data: Seq<u8>) -> Option<Seq<u8>>;

/// Relies on flate2's `GzEncoder` over a byte buffer at the default
/// compression level: the default header carries a zero timestamp, so the
/// output depends on the input bytes alone, and the finished stream
/// decodes back to the input.
#[verifier::external_body]
fn gzip_compress(data: &Vec<u8>) -> (out: Vec<u8>)
    ensures
        out@ == gzip_of(data@),
        gunzip_of(out@) == Some(data@),
{
    let mut enc = flate2::write::GzEncoder::new(Vec::new(), flate2::Compression::default());
    enc.write_all(data.as_slice()).expect("writing to a buffer cannot fail");
    enc.finish().expect("finishing a buffered gzip stream cannot fail")
}

/// Relies on flate2's `GzDecoder` over a byte buffer: decoding is a pure
/// function of the input bytes, failing exactly on malformed streams.
#[verifier::external_body]
fn gzip_decompress(data: &Vec<u8>) -> (out: Option<Vec<u8>>)
    ensures
        match out {
            Some(v) => gunzip_of(data@) == Some(v@),
            None => gunzip_of(data@) is None,
        },
{
    let mut dec = flate2::read::GzDecoder::new(data.as_slice());
    let mut buf = Vec::new();
    match dec.read_to_end(&mut buf) {
        Ok(_) => Some(buf),
        Err(_) => None,
    }
}

/// Why a snapshot stream could not be read back.
#[derive(Clone, Copy, Debug, PartialEq, Eq, Structural)]
pub enum SnapshotError {
    /// The bytes are not a well-formed gzip stream.
    Decompression,
    /// A row has the wrong column count or an unparseable field.
    Malformed,
}

/// A record whose scalar columns are all within the representable range.
pub open spec fn record_in_range(r: CellRecord) -> bool {
    &&& is_scalar(r.curvature)
    &&& is_scalar(r.matter_density)
    &&& is_scalar(r.rip_strength)
    &&& is_scalar(r.matter_density_smoothed)
    &&& is_scalar(r.gravity_well)
}

/// The record as the stream stores it: curvature and rip strength rounded
/// to the milli-grid, everything else unchanged.
pub open spec fn quantized_record(r: CellRecord) -> CellRecord {
    CellRecord {
        curvature: quantized_milli(r.curvature as int) as u64,
        rip_strength: quantized_milli(r.rip_strength as int) as u64,
        ..r
    }
}

/// A valid record is already on the milli-grid, so storing changes
/// nothing.
pub proof fn lemma_quantized_identity(r: CellRecord)
    requires
        record_valid(r),
    ensures
        quantized_record(r) == r,
{
    lemma_milli_fixpoint(r.curvature as int);
    lemma_milli_fixpoint(r.rip_strength as int);
}

proof fn lemma_milli_fixpoint(v: int)
    requires
        0 <= v <= SCALAR_LIMIT,
        v % 1000 == 0,
    ensures
        quantized_milli(v) == v,
{
    vstd::arithmetic::div_mod::lemma_fundamental_div_mod(v, 1000);
    let q = v / 1000;
    assert(v == 1000 * q);
    assert((1000 * q + 500) / 1000 == q) by (nonlinear_arith);
    assert(q * 1000 == v) by (nonlinear_arith)
        requires v == 1000 * q;
}

/// Quantize a record for storage.
pub fn quantize_record(r: &CellRecord) -> (q: CellRecord)
    requires
        record_in_range(*r),
    ensures
        q == quantized_record(*r),
        record_valid(q),
{
    CellRecord {
        curvature: quantize_milli(r.curvature),
        rip_strength: quantize_milli(r.rip_strength),
        ..*r
    }
}

/// Serialize a sequence of records as a compressed snapshot stream:
/// header row, then one row per record in the given order, curvature and
/// rip strength rounded to the stream's three-decimal resolution, the
/// whole stream gzip-compressed and finalized.
pub fn write_snapshot(records: &Vec<CellRecord>) -> (out: Vec<u8>)
    requires
        forall|i: int| 0 <= i < records@.len() ==> record_in_range(#[trigger] records@[i]),
    ensures
        out@ == gzip_of(format_snapshot(records@.map_values(|r: CellRecord| quantized_record(r)))),
        gunzip_of(out@)
            == Some(format_snapshot(records@.map_values(|r: CellRecord| quantized_record(r)))),
{
    let n: usize = records.len();
    let mut quantized: Vec<CellRecord> = Vec::new();
    let mut i: usize = 0;
    while i < n
        invariant
            n == records@.len(),
            i <= n,
            forall|j: int| 0 <= j < records@.len() ==> record_in_range(#[trigger] records@[j]),
            quantized@.len() == i,
            forall|j: int| 0 <= j < i ==> #[trigger] quantized@[j] == quantized_record(records@[j]),
        decreases n - i,
    {
        let q: CellRecord = quantize_record(&records[i]);
        quantized.push(q);
        i = i + 1;
    }
    proof {
        assert(quantized@ =~= records@.map_values(|r: CellRecord| quantized_record(r)));
    }
    let plain: Vec<u8> = format_snapshot_exec(&quantized);
    gzip_compress(&plain)
}

/// Read a compressed snapshot stream back into per-time-step groups of
/// records: decompress, skip the header row, parse every row, and group
/// the rows by their timestep column, keeping their order inside each
/// group; steps with no rows give empty groups.
pub fn read_cells_from_csv(data: &Vec<u8>) -> (r: Result<Vec<Vec<CellRecord>>, SnapshotError>)
    ensures
        match r {
            Ok(frames) => {
                &&& gunzip_of(data@) is Some
                &&& parse_snapshot_spec(gunzip_of(data@).unwrap()) is Some
                &&& frames_correct(
                    parse_snapshot_spec(gunzip_of(data@).unwrap()).unwrap(),
                    frames@.map_values(|f: Vec<CellRecord>| f@),
                )
            },
            Err(SnapshotError::Decompression) => gunzip_of(data@) is None,
            Err(SnapshotError::Malformed) => {
                &&& gunzip_of(data@) is Some
                &&& parse_snapshot_spec(gunzip_of(data@).unwrap()) is None
            },
        },
{
    let plain: Option<Vec<u8>> = gzip_decompress(data);
    match plain {
        None => Err(SnapshotError::Decompression),
        Some(plain) => {
            let rows: Option<Vec<CellRecord>> = parse_snapshot_exec(&plain);
            match rows {
                None => Err(SnapshotError::Malformed),
                Some(rows) => {
                    proof {
                        crate::snapshot::lemma_parse_snapshot_bounded(plain@);
                        assert forall|k: int| 0 <= k < rows@.len()
                            implies (#[trigger] rows@[k]).timestep < usize::MAX by {
                            assert(parse_snapshot_spec(plain@).unwrap()[k] == rows@[k]);
                        }
                    }
                    Ok(group_by_timestep(&rows))
                },
            }
        },
    }
}

/// The grouping is faithful: one group per time step up to the largest
/// seen, and a record stands in group `t` exactly when its timestep is
/// `t`, in stream order.
pub open spec fn frames_correct(rows: Seq<CellRecord>, frames: Seq<Seq<CellRecord>>) -> bool {
    &&& frames.len() == frames_len(rows)
    &&& forall|t: int| 0 <= t < frames.len() ==> #[trigger] frames[t] == frame_filter(rows, t)
}

/// One more than the largest timestep among the rows, or zero for none.
pub open spec fn frames_len(rows: Seq<CellRecord>) -> int
    decreases rows.len(),
{
    if rows.len() == 0 {
        0
    } else {
        let rest = frames_len(rows.drop_last());
        let t1 = rows.last().timestep + 1;
        if t1 > rest {
            t1
        } else {
            rest
        }
    }
}

/// The rows whose timestep is `t`, in order.
pub open spec fn frame_filter(rows: Seq<CellRecord>, t: int) -> Seq<CellRecord>
    decreases rows.len(),
{
    if rows.len() == 0 {
        Seq::empty()
    } else if rows.last().timestep == t {
        frame_filter(rows.drop_last(), t).push(rows.last())
    } else {
        frame_filter(rows.drop_last(), t)
    }
}

/// Group parsed rows by their timestep column.
pub fn group_by_timestep(rows: &Vec<CellRecord>) -> (frames: Vec<Vec<CellRecord>>)
    requires
        forall|i: int| 0 <= i < rows@.len() ==> (#[trigger] rows@[i]).timestep < usize::MAX,
    ensures
        frames_correct(rows@, frames@.map_values(|f: Vec<CellRecord>| f@)),
{
    let n: usize = rows.len();
    let mut frames: Vec<Vec<CellRecord>> = Vec::new();
    let mut i: usize = 0;
    while i < n
        invariant
            n == rows@.len(),
            i <= n,
            forall|k: int| 0 <= k < rows@.len() ==> (#[trigger] rows@[k]).timestep < usize::MAX,
            frames@.len() == frames_len(rows@.take(i as int)),
            forall|t: int| 0 <= t < frames@.len() ==>
                (#[trigger] frames@[t])@ == frame_filter(rows@.take(i as int), t),
        decreases n - i,
    {
        let r: CellRecord = rows[i];
        let t: usize = r.timestep;
        proof {
            assert(rows@.take(i + 1).drop_last() =~= rows@.take(i as int));
            assert(rows@.take(i + 1).last() == rows@[i as int]);
        }
        let ghost target_len: int = if t + 1 > frames_len(rows@.take(i as int)) {
            t + 1
        } else {
            frames_len(rows@.take(i as int))
        };
        while frames.len() < t + 1
            invariant
                t < usize::MAX,
                frames_len(rows@.take(i as int)) <= frames@.len(),
                frames@.len() <= target_len,
                target_len == if t + 1 > frames_len(rows@.take(i as int)) {
                    t + 1
                } else {
                    frames_len(rows@.take(i as int))
                },
                forall|t2: int| 0 <= t2 < frames@.len() ==>
                    (#[trigger] frames@[t2])@ == frame_filter(rows@.take(i as int), t2),
            decreases t + 1 - frames@.len(),
        {
            let empty: Vec<CellRecord> = Vec::new();
            proof {
                lemma_frame_filter_overflow(rows@.take(i as int), frames@.len() as int);
            }
            frames.push(empty);
        }
        let fl: usize = frames.len();
        proof {
            assert(fl == target_len);
            assert(t < fl);
        }
        let ghost old_frames = frames@;
        let target: &mut Vec<CellRecord> = &mut frames[t];
        target.push(r);
        proof {
            assert(frames@ =~= old_frames.update(t as int, frames@[t as int]));
            assert(frames@[t as int]@ =~= frame_filter(rows@.take(i as int), t as int).push(r));
            assert forall|t2: int| 0 <= t2 < frames@.len() implies
                (#[trigger] frames@[t2])@ == frame_filter(rows@.take(i + 1), t2) by {
                if t2 == t as int {
                } else {
                    assert(frames@[t2] == old_frames[t2]);
                }
            }
            lemma_frames_len_step(rows@, i as int, frames@.len() as int);
        }
        i = i + 1;
    }
    proof {
        assert(rows@.take(n as int) =~= rows@);
        assert(frames@.map_values(|f: Vec<CellRecord>| f@).len() == frames@.len());
    }
    frames
}

/// A frame index at or past the group count holds no rows.
proof fn lemma_frame_filter_overflow(rows: Seq<CellRecord>, t: int)
    requires
        frames_len(rows) <= t,
    ensures
        frame_filter(rows, t) == Seq::<CellRecord>::empty(),
    decreases rows.len(),
{
    if rows.len() > 0 {
        lemma_frame_filter_overflow(rows.drop_last(), t);
        assert(rows.last().timestep + 1 <= frames_len(rows));
    }
}

/// After filing row `i`, the group count is the maximum of the old count
/// and one past the row's timestep.
proof fn lemma_frames_len_step(rows: Seq<CellRecord>, i: int, fl: int)
    requires
        0 <= i < rows.len(),
        fl == if rows[i].timestep + 1 > frames_len(rows.take(i)) {
            rows[i].timestep + 1
        } else {
            frames_len(rows.take(i))
        },
    ensures
        frames_len(rows.take(i + 1)) == fl,
{
    assert(rows.take(i + 1).drop_last() =~= rows.take(i));
    assert(rows.take(i + 1).last() == rows[i]);
}

/// The structure-reinforcement rule of the post-processing pass, for one
/// record: strengthen filaments (high gravity well and smoothed density)
/// by adding a hundredth of the gravity well to the curvature; dampen
/// voids (low gravity well and smoothed density) by scaling the curvature
/// to ninety-five hundredths; otherwise leave the curvature alone.
pub open spec fn evolved_record(r: CellRecord) -> CellRecord {
    let boosted = if r.gravity_well > 50_000 && r.matter_density_smoothed > 2_000 {
        clamped(r.curvature + r.gravity_well / 100)
    } else {
        r.curvature as int
    };
    let damped = if r.gravity_well < 10_000 && r.matter_density_smoothed < 500 {
        boosted * 95 / 100
    } else {
        boosted
    };
    CellRecord { curvature: damped as u64, ..r }
}

/// Apply the structure-reinforcement rule to one record.
pub fn evolve_record(r: &CellRecord) -> (e: CellRecord)
    requires
        record_in_range(*r),
    ensures
        e == evolved_record(*r),
        record_in_range(e),
{
    let mut c: u64 = r.curvature;
    if r.gravity_well > 50_000 && r.matter_density_smoothed > 2_000 {
        c = crate::scalar::add_scalar(c, r.gravity_well / 100);
    }
    if r.gravity_well < 10_000 && r.matter_density_smoothed < 500 {
        proof {
            assert(c * 95 <= SCALAR_LIMIT * 95) by (nonlinear_arith)
                requires c <= SCALAR_LIMIT;
            vstd::arithmetic::div_mod::lemma_div_is_ordered(
                c * 95, SCALAR_LIMIT * 95, 100,
            );
            assert(SCALAR_LIMIT * 95 / 100 <= SCALAR_LIMIT);
        }
        c = c * 95 / 100;
    }
    CellRecord { curvature: c, ..*r }
}

/// The post-processing pass over whole frames: apply the
/// structure-reinforcement rule to every record of every group,
/// independently, keeping groups and order.
pub fn evolve_structure(frames: &mut Vec<Vec<CellRecord>>)
    requires
        forall|i: int, j: int|
            0 <= i < old(frames)@.len() && 0 <= j < old(frames)@[i]@.len() ==>
                record_in_range(#[trigger] old(frames)@[i]@[j]),
    ensures
        final(frames)@.len() == old(frames)@.len(),
        forall|i: int| 0 <= i < final(frames)@.len() ==>
            (#[trigger] final(frames)@[i])@.len() == old(frames)@[i]@.len(),
        forall|i: int, j: int|
            0 <= i < final(frames)@.len() && 0 <= j < final(frames)@[i]@.len() ==>
                #[trigger] final(frames)@[i]@[j] == evolved_record(old(frames)@[i]@[j]),
{
    let n: usize = frames.len();
    let mut i: usize = 0;
    while i < n
        invariant
            n == frames@.len(),
            frames@.len() == old(frames)@.len(),
            i <= n,
            forall|a: int, b: int|
                0 <= a < old(frames)@.len() && 0 <= b < old(frames)@[a]@.len() ==>
                    record_in_range(#[trigger] old(frames)@[a]@[b]),
            forall|a: int| i <= a < n ==> #[trigger] frames@[a] == old(frames)@[a],
            forall|a: int| 0 <= a < i ==> (#[trigger] frames@[a])@.len() == old(frames)@[a]@.len(),
            forall|a: int, b: int| 0 <= a < i && 0 <= b < frames@[a]@.len() ==>
                #[trigger] frames@[a]@[b] == evolved_record(old(frames)@[a]@[b]),
        decreases n - i,
    {
        let m: usize = frames[i].len();
        let mut j: usize = 0;
        while j < m
            invariant
                n == frames@.len(),
                frames@.len() == old(frames)@.len(),
                i < n,
                m == frames@[i as int]@.len(),
                old(frames)@[i as int]@.len() == m,
                j <= m,
                forall|a: int, b: int|
                    0 <= a < old(frames)@.len() && 0 <= b < old(frames)@[a]@.len() ==>
                        record_in_range(#[trigger] old(frames)@[a]@[b]),
                forall|a: int| i < a < n ==> #[trigger] frames@[a] == old(frames)@[a],
                forall|a: int| 0 <= a < i ==> (#[trigger] frames@[a])@.len() == old(frames)@[a]@.len(),
                forall|a: int, b: int| 0 <= a < i && 0 <= b < frames@[a]@.len() ==>
                    #[trigger] frames@[a]@[b] == evolved_record(old(frames)@[a]@[b]),
                forall|b: int| j <= b < m ==>
                    #[trigger] frames@[i as int]@[b] == old(frames)@[i as int]@[b],
                forall|b: int| 0 <= b < j ==>
                    #[trigger] frames@[i as int]@[b] == evolved_record(old(frames)@[i as int]@[b]),
            decreases m - j,
        {
            let r: CellRecord = frames[i][j];
            let e: CellRecord = evolve_record(&r);
            let row: &mut Vec<CellRecord> = &mut frames[i];
            row.set(j, e);
            j = j + 1;
        }
        i = i + 1;
    }
}

} // verus!
