use vstd::prelude::*;

use crate::codec::{
    all_digits, dec_digits, digits_val, format_scaled3, format_scaled6, is_digit,
    lemma_dec_digits_val, lemma_scaled3_round_trip, lemma_scaled6_round_trip,
    lemma_split_field, lemma_split_single, parse_number, parse_number_spec, parse_scaled,
    parse_scaled_spec, push_number, push_scaled3, push_scaled6, split_bytes, split_exec,
    COMMA, DOT, NEWLINE,
};
use crate::record::{record_valid, CellRecord};
use crate::scalar::SCALAR_LIMIT;

verus! {

/// Largest timestep a row may carry: small enough that a frame index one
/// past it fits the machine's index type on every target.
pub const TIMESTEP_LIMIT: u64 = 0xFFFF_FFFE;

/// Largest coordinate a row may carry: small enough to fit the machine's
/// index type on every target.
pub const COORD_LIMIT: u64 = 0xFFFF_FFFF;

/// The mandatory header row of the snapshot stream.
pub open spec fn header_bytes() -> Seq<u8> {
    seq![116u8, 105u8, 109u8, 101u8, 115u8, 116u8, 101u8, 112u8, 44u8, 99u8, 111u8, 108u8, 44u8, 114u8, 111u8, 119u8, 44u8, 108u8, 97u8, 121u8, 101u8, 114u8, 44u8, 99u8, 117u8, 114u8, 118u8, 97u8, 116u8, 117u8, 114u8, 101u8, 44u8, 109u8, 97u8, 116u8, 116u8, 101u8, 114u8, 95u8, 100u8, 101u8, 110u8, 115u8, 105u8, 116u8, 121u8, 44u8, 105u8, 115u8, 95u8, 98u8, 108u8, 97u8, 99u8, 107u8, 95u8, 104u8, 111u8, 108u8, 101u8, 44u8, 114u8, 105u8, 112u8, 95u8, 115u8, 116u8, 114u8, 101u8, 110u8, 103u8, 116u8, 104u8, 44u8, 109u8, 97u8, 116u8, 116u8, 101u8, 114u8, 95u8, 100u8, 101u8, 110u8, 115u8, 105u8, 116u8, 121u8, 95u8, 115u8, 109u8, 111u8, 111u8, 116u8, 104u8, 101u8, 100u8, 44u8, 98u8, 108u8, 97u8, 99u8, 107u8, 95u8, 104u8, 111u8, 108u8, 101u8, 95u8, 105u8, 100u8, 44u8, 103u8, 114u8, 97u8, 118u8, 105u8, 116u8, 121u8, 95u8, 119u8, 101u8, 108u8, 108u8]
}

/// One row of the snapshot stream: the eleven columns in schema order,
/// comma separated; curvature and rip strength at three decimal places,
/// densities and gravity well at six, the black hole flag as 0 or 1, the
/// identifier as a bare integer with 0 meaning none.
pub open spec fn format_record(r: CellRecord) -> Seq<u8> {
    dec_digits(r.timestep as int) + seq![COMMA] + (
    dec_digits(r.col as int) + seq![COMMA] + (
    dec_digits(r.row as int) + seq![COMMA] + (
    dec_digits(r.layer as int) + seq![COMMA] + (
    format_scaled3(r.curvature as int) + seq![COMMA] + (
    format_scaled6(r.matter_density as int) + seq![COMMA] + (
    dec_digits(if r.is_black_hole { 1int } else { 0int }) + seq![COMMA] + (
    format_scaled3(r.rip_strength as int) + seq![COMMA] + (
    format_scaled6(r.matter_density_smoothed as int) + seq![COMMA] + (
    dec_digits(r.black_hole_id as int) + seq![COMMA] + (
    format_scaled6(r.gravity_well as int)))))))))))
}

/// Parse one row back into a record: eleven comma-separated columns, the
/// numeric grammar of each column enforced, every scalar at most the
/// scalar limit, the timestep below the machine's index limit.
pub open spec fn parse_record_spec(line: Seq<u8>) -> Option<CellRecord> {
    let fs = split_bytes(line, COMMA);
    if fs.len() != 11 {
        None
    } else {
        let t = parse_number_spec(fs[0], TIMESTEP_LIMIT as int);
        let c = parse_number_spec(fs[1], COORD_LIMIT as int);
        let w = parse_number_spec(fs[2], COORD_LIMIT as int);
        let l = parse_number_spec(fs[3], COORD_LIMIT as int);
        let cv = parse_scaled_spec(fs[4], SCALAR_LIMIT as int);
        let md = parse_scaled_spec(fs[5], SCALAR_LIMIT as int);
        let bh = parse_number_spec(fs[6], 255);
        let rp = parse_scaled_spec(fs[7], SCALAR_LIMIT as int);
        let ms = parse_scaled_spec(fs[8], SCALAR_LIMIT as int);
        let id = parse_number_spec(fs[9], 0xFFFF_FFFF_FFFF_FFFF);
        let gw = parse_scaled_spec(fs[10], SCALAR_LIMIT as int);
        if t is Some && c is Some && w is Some && l is Some && cv is Some && md is Some
            && bh is Some && rp is Some && ms is Some && id is Some && gw is Some {
            Some(CellRecord {
                timestep: t.unwrap() as usize,
                col: c.unwrap() as usize,
                row: w.unwrap() as usize,
                layer: l.unwrap() as usize,
                curvature: cv.unwrap() as u64,
                matter_density: md.unwrap() as u64,
                is_black_hole: bh.unwrap() != 0,
                rip_strength: rp.unwrap() as u64,
                matter_density_smoothed: ms.unwrap() as u64,
                black_hole_id: id.unwrap() as u64,
                gravity_well: gw.unwrap() as u64,
            })
        } else {
            None
        }
    }
}

/// The rows of a snapshot, each terminated by a newline.
pub open spec fn format_rows(rs: Seq<CellRecord>) -> Seq<u8>
    decreases rs.len(),
{
    if rs.len() == 0 {
        Seq::empty()
    } else {
        format_record(rs[0]) + seq![NEWLINE] + format_rows(rs.skip(1))
    }
}

/// A whole snapshot: the header row, then one row per record, each
/// newline-terminated, step-major in lattice order.
pub open spec fn format_snapshot(rs: Seq<CellRecord>) -> Seq<u8> {
    header_bytes() + seq![NEWLINE] + format_rows(rs)
}

/// Parse a list of rows; any malformed row makes the whole read fail.
pub open spec fn parse_rows_spec(lines: Seq<Seq<u8>>) -> Option<Seq<CellRecord>>
    decreases lines.len(),
{
    if lines.len() == 0 {
        Some(Seq::empty())
    } else {
        match parse_record_spec(lines[0]) {
            None => None,
            Some(r) => match parse_rows_spec(lines.skip(1)) {
                None => None,
                Some(rest) => Some(seq![r] + rest),
            },
        }
    }
}

/// Parse a whole uncompressed snapshot: drop the header row, tolerate a
/// missing final newline, and parse every remaining row.
pub open spec fn parse_snapshot_spec(bytes: Seq<u8>) -> Option<Seq<CellRecord>> {
    let ls = split_bytes(bytes, NEWLINE);
    let body = ls.skip(1);
    let rows = if body.len() > 0 && body.last().len() == 0 {
        body.drop_last()
    } else {
        body
    };
    parse_rows_spec(rows)
}

/// The header contains no newline byte.
proof fn lemma_header_no_newline()
    ensures
        forall|i: int| 0 <= i < header_bytes().len() ==> #[trigger] header_bytes()[i] != NEWLINE,
{
}

/// Append the header row.
#[verifier::rlimit(100)]
fn push_header(out: &mut Vec<u8>)
    ensures
        final(out)@ == old(out)@ + header_bytes(),
{
    out.push(116);
    out.push(105);
    out.push(109);
    out.push(101);
    out.push(115);
    out.push(116);
    out.push(101);
    out.push(112);
    out.push(44);
    out.push(99);
    out.push(111);
    out.push(108);
    out.push(44);
    out.push(114);
    out.push(111);
    out.push(119);
    proof {
        assert(out@ =~= old(out)@ + header_bytes().take(16));
    }
    out.push(44);
    out.push(108);
    out.push(97);
    out.push(121);
    out.push(101);
    out.push(114);
    out.push(44);
    out.push(99);
    out.push(117);
    out.push(114);
    out.push(118);
    out.push(97);
    out.push(116);
    out.push(117);
    out.push(114);
    out.push(101);
    proof {
        assert(out@ =~= old(out)@ + header_bytes().take(32));
    }
    out.push(44);
    out.push(109);
    out.push(97);
    out.push(116);
    out.push(116);
    out.push(101);
    out.push(114);
    out.push(95);
    out.push(100);
    out.push(101);
    out.push(110);
    out.push(115);
    out.push(105);
    out.push(116);
    out.push(121);
    out.push(44);
    proof {
        assert(out@ =~= old(out)@ + header_bytes().take(48));
    }
    out.push(105);
    out.push(115);
    out.push(95);
    out.push(98);
    out.push(108);
    out.push(97);
    out.push(99);
    out.push(107);
    out.push(95);
    out.push(104);
    out.push(111);
    out.push(108);
    out.push(101);
    out.push(44);
    out.push(114);
    out.push(105);
    proof {
        assert(out@ =~= old(out)@ + header_bytes().take(64));
    }
    out.push(112);
    out.push(95);
    out.push(115);
    out.push(116);
    out.push(114);
    out.push(101);
    out.push(110);
    out.push(103);
    out.push(116);
    out.push(104);
    out.push(44);
    out.push(109);
    out.push(97);
    out.push(116);
    out.push(116);
    out.push(101);
    proof {
        assert(out@ =~= old(out)@ + header_bytes().take(80));
    }
    out.push(114);
    out.push(95);
    out.push(100);
    out.push(101);
    out.push(110);
    out.push(115);
    out.push(105);
    out.push(116);
    out.push(121);
    out.push(95);
    out.push(115);
    out.push(109);
    out.push(111);
    out.push(111);
    out.push(116);
    out.push(104);
    proof {
        assert(out@ =~= old(out)@ + header_bytes().take(96));
    }
    out.push(101);
    out.push(100);
    out.push(44);
    out.push(98);
    out.push(108);
    out.push(97);
    out.push(99);
    out.push(107);
    out.push(95);
    out.push(104);
    out.push(111);
    out.push(108);
    out.push(101);
    out.push(95);
    out.push(105);
    out.push(100);
    proof {
        assert(out@ =~= old(out)@ + header_bytes().take(112));
    }
    out.push(44);
    out.push(103);
    out.push(114);
    out.push(97);
    out.push(118);
    out.push(105);
    out.push(116);
    out.push(121);
    out.push(95);
    out.push(119);
    out.push(101);
    out.push(108);
    out.push(108);
    proof {
        assert(out@ =~= old(out)@ + header_bytes().take(125));
    }
    proof {
        assert(header_bytes().take(125) =~= header_bytes());
    }
}

/// Append one snapshot row, without its newline.
#[verifier::rlimit(100)]
pub fn push_record(out: &mut Vec<u8>, r: &CellRecord)
    ensures
        final(out)@ == old(out)@ + format_record(*r),
{
    push_number(out, r.timestep as u64);
    out.push(COMMA);
    push_number(out, r.col as u64);
    out.push(COMMA);
    push_number(out, r.row as u64);
    out.push(COMMA);
    push_number(out, r.layer as u64);
    out.push(COMMA);
    push_scaled3(out, r.curvature);
    out.push(COMMA);
    push_scaled6(out, r.matter_density);
    out.push(COMMA);
    push_number(out, if r.is_black_hole { 1 } else { 0 });
    out.push(COMMA);
    push_scaled3(out, r.rip_strength);
    out.push(COMMA);
    push_scaled6(out, r.matter_density_smoothed);
    out.push(COMMA);
    push_number(out, r.black_hole_id);
    out.push(COMMA);
    push_scaled6(out, r.gravity_well);
    proof {
        assert(final(out)@ =~= old(out)@ + format_record(*r));
    }
}

/// Serialize a sequence of records into the uncompressed snapshot bytes.
pub fn format_snapshot_exec(records: &Vec<CellRecord>) -> (out: Vec<u8>)
    ensures
        out@ == format_snapshot(records@),
{
    let mut out: Vec<u8> = Vec::new();
    push_header(&mut out);
    out.push(NEWLINE);
    let n: usize = records.len();
    let mut i: usize = 0;
    proof {
        assert(out@ =~= header_bytes() + seq![NEWLINE] + format_rows(records@.take(0)));
    }
    while i < n
        invariant
            n == records@.len(),
            i <= n,
            out@ == header_bytes() + seq![NEWLINE] + format_rows(records@.take(i as int)),
        decreases n - i,
    {
        let ghost before = records@.take(i as int);
        push_record(&mut out, &records[i]);
        out.push(NEWLINE);
        proof {
            lemma_format_rows_snoc(records@, i as int);
            assert(out@ =~= header_bytes() + seq![NEWLINE]
                + (format_rows(before) + format_record(records@[i as int]) + seq![NEWLINE]));
        }
        i = i + 1;
    }
    proof {
        assert(records@.take(n as int) =~= records@);
    }
    out
}

/// Appending one record appends its row to the formatted rows.
proof fn lemma_format_rows_snoc(rs: Seq<CellRecord>, i: int)
    requires
        0 <= i < rs.len(),
    ensures
        format_rows(rs.take(i + 1))
            == format_rows(rs.take(i)) + format_record(rs[i]) + seq![NEWLINE],
    decreases i,
{
    if i == 0 {
        assert(rs.take(1) =~= seq![rs[0]]);
        assert(rs.take(1).skip(1) =~= Seq::<CellRecord>::empty());
        assert(format_rows(rs.take(1).skip(1)) == Seq::<u8>::empty());
        assert(format_rows(rs.take(0)) == Seq::<u8>::empty());
        assert(format_rows(rs.take(1))
            =~= format_rows(rs.take(0)) + format_record(rs[0]) + seq![NEWLINE]);
    } else {
        lemma_format_rows_snoc(rs.skip(1), i - 1);
        assert(rs.take(i + 1).skip(1) =~= rs.skip(1).take(i));
        assert(rs.take(i).skip(1) =~= rs.skip(1).take(i - 1));
        assert(rs.take(i + 1)[0] == rs[0]);
        assert(rs.take(i)[0] == rs[0]);
        assert(rs.skip(1)[i - 1] == rs[i]);
        assert(format_rows(rs.take(i + 1))
            == format_record(rs[0]) + seq![NEWLINE] + format_rows(rs.skip(1).take(i)));
        assert(format_rows(rs.take(i))
            == format_record(rs[0]) + seq![NEWLINE] + format_rows(rs.skip(1).take(i - 1)));
        assert(format_record(rs[0]) + seq![NEWLINE]
            + (format_rows(rs.skip(1).take(i - 1)) + format_record(rs[i]) + seq![NEWLINE])
            =~= (format_record(rs[0]) + seq![NEWLINE] + format_rows(rs.skip(1).take(i - 1)))
                + format_record(rs[i]) + seq![NEWLINE]);
    }
}

/// Parse one row of the snapshot stream.
pub fn parse_record(line: &Vec<u8>) -> (r: Option<CellRecord>)
    ensures
        r == parse_record_spec(line@),
{
    let fields: Vec<Vec<u8>> = split_exec(line, COMMA);
    if fields.len() != 11 {
        return None;
    }
    let t = parse_number(&fields[0], TIMESTEP_LIMIT);
    let c = parse_number(&fields[1], COORD_LIMIT);
    let w = parse_number(&fields[2], COORD_LIMIT);
    let l = parse_number(&fields[3], COORD_LIMIT);
    let cv = parse_scaled(&fields[4], SCALAR_LIMIT);
    let md = parse_scaled(&fields[5], SCALAR_LIMIT);
    let bh = parse_number(&fields[6], 255);
    let rp = parse_scaled(&fields[7], SCALAR_LIMIT);
    let ms = parse_scaled(&fields[8], SCALAR_LIMIT);
    let id = parse_number(&fields[9], u64::MAX);
    let gw = parse_scaled(&fields[10], SCALAR_LIMIT);
    match (t, c, w, l, cv, md, bh, rp, ms, id, gw) {
        (Some(t), Some(c), Some(w), Some(l), Some(cv), Some(md), Some(bh), Some(rp), Some(ms), Some(id), Some(gw)) => {
            Some(CellRecord {
                timestep: t as usize,
                col: c as usize,
                row: w as usize,
                layer: l as usize,
                curvature: cv,
                matter_density: md,
                is_black_hole: bh != 0,
                rip_strength: rp,
                matter_density_smoothed: ms,
                black_hole_id: id,
                gravity_well: gw,
            })
        },
        _ => None,
    }
}

/// Parse a whole uncompressed snapshot.
pub fn parse_snapshot_exec(bytes: &Vec<u8>) -> (r: Option<Vec<CellRecord>>)
    ensures
        match r {
            Some(v) => parse_snapshot_spec(bytes@) == Some(v@),
            None => parse_snapshot_spec(bytes@) is None,
        },
{
    let mut lines: Vec<Vec<u8>> = split_exec(bytes, NEWLINE);
    let ghost ls = split_bytes(bytes@, NEWLINE);
    let mut rows_end: usize = lines.len();
    if rows_end > 1 && lines[rows_end - 1].len() == 0 {
        rows_end = rows_end - 1;
    }
    let ghost body = ls.skip(1);
    let ghost rows = if body.len() > 0 && body.last().len() == 0 {
        body.drop_last()
    } else {
        body
    };
    proof {
        assert(rows.len() == rows_end - 1);
        assert(forall|k: int| 0 <= k < rows.len() ==> rows[k] == ls[k + 1]);
    }
    let mut out: Vec<CellRecord> = Vec::new();
    let mut i: usize = 1;
    proof {
        assert(rows.skip(0) =~= rows);
    }
    while i < rows_end
        invariant
            1 <= i <= rows_end,
            rows_end <= lines@.len(),
            lines@.len() == ls.len(),
            forall|k: int| 0 <= k < lines@.len() ==> (#[trigger] lines@[k])@ == ls[k],
            rows.len() == rows_end - 1,
            forall|k: int| 0 <= k < rows.len() ==> #[trigger] rows[k] == ls[k + 1],
            parse_snapshot_spec(bytes@) == parse_rows_spec(rows),
            parse_rows_spec(rows) is Some <==> parse_rows_spec(rows.skip(i - 1)) is Some,
            parse_rows_spec(rows) is Some ==>
                parse_rows_spec(rows).unwrap().take(i - 1) == out@,
            out@.len() == i - 1,
        decreases rows_end - i,
    {
        let rec: Option<CellRecord> = parse_record(&lines[i]);
        proof {
            lemma_parse_rows_skip(rows, i - 1);
        }
        proof {
            assert(rows[i - 1] == ls[i as int]);
            assert(rows.skip(i - 1)[0] == rows[i - 1]);
            assert(rows.skip(i - 1).skip(1) =~= rows.skip(i as int));
        }
        match rec {
            None => {
                proof {
                    assert(parse_rows_spec(rows.skip(i - 1)) is None);
                    assert(parse_rows_spec(rows) is None);
                    assert(parse_snapshot_spec(bytes@) is None);
                }
                return None;
            },
            Some(rec) => {
                out.push(rec);
                proof {
                    assert(parse_rows_spec(rows.skip(i - 1)) is Some
                        <==> parse_rows_spec(rows.skip(i as int)) is Some);
                    if parse_rows_spec(rows) is Some {
                        lemma_parse_rows_take(rows, i - 1);
                        assert(parse_rows_spec(rows).unwrap().take(i as int)
                            =~= parse_rows_spec(rows).unwrap().take(i - 1).push(
                                parse_record_spec(rows[i - 1]).unwrap()));
                    }
                }
            },
        }
        i = i + 1;
    }
    proof {
        assert(rows.skip(rows_end - 1) =~= Seq::<Seq<u8>>::empty());
        assert(parse_rows_spec(rows.skip(rows_end - 1)) == Some(Seq::<CellRecord>::empty()));
        if parse_rows_spec(rows) is Some {
            assert(parse_rows_spec(rows).unwrap().take(rows_end - 1) == out@);
            lemma_parse_rows_len(rows);
            assert(parse_rows_spec(rows).unwrap().take(rows_end - 1)
                =~= parse_rows_spec(rows).unwrap());
        }
    }
    Some(out)
}

/// A failed row keeps the whole parse failed, and a parsed prefix extends
/// by one row at a time.
proof fn lemma_parse_rows_skip(rows: Seq<Seq<u8>>, k: int)
    requires
        0 <= k < rows.len(),
    ensures
        parse_record_spec(rows[k]) is None ==> parse_rows_spec(rows.skip(k)) is None,
        parse_rows_spec(rows.skip(k)) is None ==> parse_rows_spec(rows) is None,
        parse_rows_spec(rows.skip(k + 1)) is None ==> parse_rows_spec(rows.skip(k)) is None,
    decreases k,
{
    assert(rows.skip(k)[0] == rows[k]);
    assert(rows.skip(k).skip(1) =~= rows.skip(k + 1));
    if k > 0 {
        lemma_parse_rows_skip(rows.skip(1), k - 1);
        assert(rows.skip(1).skip(k - 1) =~= rows.skip(k));
        assert(rows.skip(1)[k - 1] == rows[k]);
    } else {
        assert(rows.skip(0) =~= rows);
    }
}

/// When the whole list parses, the result at position `k` is the parse of
/// row `k`.
proof fn lemma_parse_rows_take(rows: Seq<Seq<u8>>, k: int)
    requires
        0 <= k < rows.len(),
        parse_rows_spec(rows) is Some,
    ensures
        parse_record_spec(rows[k]) is Some,
        parse_rows_spec(rows).unwrap().len() > k,
        parse_rows_spec(rows).unwrap()[k] == parse_record_spec(rows[k]).unwrap(),
    decreases k,
{
    lemma_parse_rows_len(rows);
    if k == 0 {
        assert(rows[0] == rows[0]);
        assert(parse_rows_spec(rows).unwrap()[0] == parse_record_spec(rows[0]).unwrap());
    } else {
        assert(parse_rows_spec(rows.skip(1)) is Some);
        lemma_parse_rows_take(rows.skip(1), k - 1);
        lemma_parse_rows_len(rows.skip(1));
        assert(rows.skip(1)[k - 1] == rows[k]);
        assert(parse_rows_spec(rows).unwrap()
            == seq![parse_record_spec(rows[0]).unwrap()] + parse_rows_spec(rows.skip(1)).unwrap());
    }
}

/// A parsed list has one record per row.
proof fn lemma_parse_rows_len(rows: Seq<Seq<u8>>)
    requires
        parse_rows_spec(rows) is Some,
    ensures
        parse_rows_spec(rows).unwrap().len() == rows.len(),
    decreases rows.len(),
{
    if rows.len() > 0 {
        lemma_parse_rows_len(rows.skip(1));
    }
}

/// Every byte of a formatted fixed-point column is a digit or the dot.
proof fn lemma_scaled_bytes3(v: int)
    requires
        0 <= v,
    ensures
        forall|i: int| 0 <= i < format_scaled3(v).len() ==>
            (is_digit(#[trigger] format_scaled3(v)[i]) || format_scaled3(v)[i] == DOT),
{
    lemma_dec_digits_val(v / 1_000_000);
    assert(crate::codec::pow10(3) == 1000) by {
        assert(crate::codec::pow10(0) == 1);
        assert(crate::codec::pow10(1) == 10);
        assert(crate::codec::pow10(2) == 100);
    }
    crate::codec::lemma_fixed_digits_val((v / 1000) % 1000, 3);
    let d = dec_digits(v / 1_000_000);
    let f = crate::codec::fixed_digits((v / 1000) % 1000, 3);
    assert forall|i: int| 0 <= i < format_scaled3(v).len()
        implies (is_digit(#[trigger] format_scaled3(v)[i]) || format_scaled3(v)[i] == DOT) by {
        if i < d.len() {
            assert(format_scaled3(v)[i] == d[i]);
        } else if i == d.len() {
            assert(format_scaled3(v)[i] == DOT);
        } else {
            assert(format_scaled3(v)[i] == f[i - d.len() - 1]);
        }
    }
}

/// Every byte of a formatted fixed-point column is a digit or the dot.
proof fn lemma_scaled_bytes6(v: int)
    requires
        0 <= v,
    ensures
        forall|i: int| 0 <= i < format_scaled6(v).len() ==>
            (is_digit(#[trigger] format_scaled6(v)[i]) || format_scaled6(v)[i] == DOT),
{
    lemma_dec_digits_val(v / 1_000_000);
    assert(crate::codec::pow10(6) == 1_000_000) by {
        assert(crate::codec::pow10(0) == 1);
        assert(crate::codec::pow10(1) == 10);
        assert(crate::codec::pow10(2) == 100);
        assert(crate::codec::pow10(3) == 1000);
        assert(crate::codec::pow10(4) == 10_000);
        assert(crate::codec::pow10(5) == 100_000);
    }
    crate::codec::lemma_fixed_digits_val(v % 1_000_000, 6);
    let d = dec_digits(v / 1_000_000);
    let f = crate::codec::fixed_digits(v % 1_000_000, 6);
    assert forall|i: int| 0 <= i < format_scaled6(v).len()
        implies (is_digit(#[trigger] format_scaled6(v)[i]) || format_scaled6(v)[i] == DOT) by {
        if i < d.len() {
            assert(format_scaled6(v)[i] == d[i]);
        } else if i == d.len() {
            assert(format_scaled6(v)[i] == DOT);
        } else {
            assert(format_scaled6(v)[i] == f[i - d.len() - 1]);
        }
    }
}

/// A record whose index columns fit the stream's bounds.
pub open spec fn record_fits(r: CellRecord) -> bool {
    &&& r.timestep <= TIMESTEP_LIMIT
    &&& r.col <= COORD_LIMIT
    &&& r.row <= COORD_LIMIT
    &&& r.layer <= COORD_LIMIT
}

/// A record that the engine can emit reads back from its own row exactly.
#[verifier::rlimit(100)]
pub proof fn lemma_record_round_trip(r: CellRecord)
    requires
        record_valid(r),
        record_fits(r),
    ensures
        parse_record_spec(format_record(r)) == Some(r),
{
    let f0 = dec_digits(r.timestep as int);
    let f1 = dec_digits(r.col as int);
    let f2 = dec_digits(r.row as int);
    let f3 = dec_digits(r.layer as int);
    let f4 = format_scaled3(r.curvature as int);
    let f5 = format_scaled6(r.matter_density as int);
    let f6 = dec_digits(if r.is_black_hole { 1int } else { 0int });
    let f7 = format_scaled3(r.rip_strength as int);
    let f8 = format_scaled6(r.matter_density_smoothed as int);
    let f9 = dec_digits(r.black_hole_id as int);
    let f10 = format_scaled6(r.gravity_well as int);
    lemma_dec_digits_val(r.timestep as int);
    lemma_dec_digits_val(r.col as int);
    lemma_dec_digits_val(r.row as int);
    lemma_dec_digits_val(r.layer as int);
    lemma_dec_digits_val(if r.is_black_hole { 1int } else { 0int });
    lemma_dec_digits_val(r.black_hole_id as int);
    lemma_scaled_bytes3(r.curvature as int);
    lemma_scaled_bytes6(r.matter_density as int);
    lemma_scaled_bytes3(r.rip_strength as int);
    lemma_scaled_bytes6(r.matter_density_smoothed as int);
    lemma_scaled_bytes6(r.gravity_well as int);
    let r10 = f10;
    let r9 = f9 + seq![COMMA] + r10;
    let r8 = f8 + seq![COMMA] + r9;
    let r7 = f7 + seq![COMMA] + r8;
    let r6 = f6 + seq![COMMA] + r7;
    let r5 = f5 + seq![COMMA] + r6;
    let r4 = f4 + seq![COMMA] + r5;
    let r3 = f3 + seq![COMMA] + r4;
    let r2 = f2 + seq![COMMA] + r3;
    let r1 = f1 + seq![COMMA] + r2;
    let r0 = f0 + seq![COMMA] + r1;
    assert(r0 =~= format_record(r));
    lemma_split_single(f10, COMMA);
    lemma_split_field(f9, r10, COMMA);
    lemma_split_field(f8, r9, COMMA);
    lemma_split_field(f7, r8, COMMA);
    lemma_split_field(f6, r7, COMMA);
    lemma_split_field(f5, r6, COMMA);
    lemma_split_field(f4, r5, COMMA);
    lemma_split_field(f3, r4, COMMA);
    lemma_split_field(f2, r3, COMMA);
    lemma_split_field(f1, r2, COMMA);
    lemma_split_field(f0, r1, COMMA);
    let fs = split_bytes(format_record(r), COMMA);
    assert(fs =~= seq![f0, f1, f2, f3, f4, f5, f6, f7, f8, f9, f10]);
    lemma_scaled3_round_trip(r.curvature as int, SCALAR_LIMIT as int);
    lemma_scaled6_round_trip(r.matter_density as int, SCALAR_LIMIT as int);
    lemma_scaled3_round_trip(r.rip_strength as int, SCALAR_LIMIT as int);
    lemma_scaled6_round_trip(r.matter_density_smoothed as int, SCALAR_LIMIT as int);
    lemma_scaled6_round_trip(r.gravity_well as int, SCALAR_LIMIT as int);
    assert(parse_record_spec(format_record(r)) == Some(r));
}

/// Every byte of a formatted row is a digit, a comma, or a dot; in
/// particular no newline.
proof fn lemma_record_no_newline(r: CellRecord)
    requires
        0 <= r.curvature,
    ensures
        forall|i: int| 0 <= i < format_record(r).len() ==> #[trigger] format_record(r)[i] != NEWLINE,
{
    let s = format_record(r);
    lemma_dec_digits_val(r.timestep as int);
    lemma_dec_digits_val(r.col as int);
    lemma_dec_digits_val(r.row as int);
    lemma_dec_digits_val(r.layer as int);
    lemma_dec_digits_val(if r.is_black_hole { 1int } else { 0int });
    lemma_dec_digits_val(r.black_hole_id as int);
    lemma_scaled_bytes3(r.curvature as int);
    lemma_scaled_bytes6(r.matter_density as int);
    lemma_scaled_bytes3(r.rip_strength as int);
    lemma_scaled_bytes6(r.matter_density_smoothed as int);
    lemma_scaled_bytes6(r.gravity_well as int);
    let f0 = dec_digits(r.timestep as int);
    let f1 = dec_digits(r.col as int);
    let f2 = dec_digits(r.row as int);
    let f3 = dec_digits(r.layer as int);
    let f4 = format_scaled3(r.curvature as int);
    let f5 = format_scaled6(r.matter_density as int);
    let f6 = dec_digits(if r.is_black_hole { 1int } else { 0int });
    let f7 = format_scaled3(r.rip_strength as int);
    let f8 = format_scaled6(r.matter_density_smoothed as int);
    let f9 = dec_digits(r.black_hole_id as int);
    let f10 = format_scaled6(r.gravity_well as int);
    assert forall|i: int| 0 <= i < s.len() implies #[trigger] s[i] != NEWLINE by {
        let l0 = f0.len() as int;
        let l1 = l0 + 1 + f1.len();
        let l2 = l1 + 1 + f2.len();
        let l3 = l2 + 1 + f3.len();
        let l4 = l3 + 1 + f4.len();
        let l5 = l4 + 1 + f5.len();
        let l6 = l5 + 1 + f6.len();
        let l7 = l6 + 1 + f7.len();
        let l8 = l7 + 1 + f8.len();
        let l9 = l8 + 1 + f9.len();
        if i < l0 { assert(s[i] == f0[i]); }
        else if i == l0 { assert(s[i] == COMMA); }
        else if i < l1 { assert(s[i] == f1[i - l0 - 1]); }
        else if i == l1 { assert(s[i] == COMMA); }
        else if i < l2 { assert(s[i] == f2[i - l1 - 1]); }
        else if i == l2 { assert(s[i] == COMMA); }
        else if i < l3 { assert(s[i] == f3[i - l2 - 1]); }
        else if i == l3 { assert(s[i] == COMMA); }
        else if i < l4 { assert(s[i] == f4[i - l3 - 1]); }
        else if i == l4 { assert(s[i] == COMMA); }
        else if i < l5 { assert(s[i] == f5[i - l4 - 1]); }
        else if i == l5 { assert(s[i] == COMMA); }
        else if i < l6 { assert(s[i] == f6[i - l5 - 1]); }
        else if i == l6 { assert(s[i] == COMMA); }
        else if i < l7 { assert(s[i] == f7[i - l6 - 1]); }
        else if i == l7 { assert(s[i] == COMMA); }
        else if i < l8 { assert(s[i] == f8[i - l7 - 1]); }
        else if i == l8 { assert(s[i] == COMMA); }
        else if i < l9 { assert(s[i] == f9[i - l8 - 1]); }
        else if i == l9 { assert(s[i] == COMMA); }
        else { assert(s[i] == f10[i - l9 - 1]); }
    }
}

/// A snapshot written for a sequence of engine records reads back as
/// exactly those records: the header is dropped, every row parses, and
/// the order is kept.
pub proof fn lemma_snapshot_round_trip(rs: Seq<CellRecord>)
    requires
        forall|i: int| 0 <= i < rs.len() ==> record_valid(#[trigger] rs[i]),
        forall|i: int| 0 <= i < rs.len() ==> record_fits(#[trigger] rs[i]),
    ensures
        parse_snapshot_spec(format_snapshot(rs)) == Some(rs),
{
    lemma_header_no_newline();
    lemma_rows_split(rs);
    lemma_split_field(header_bytes(), format_rows(rs), NEWLINE);
    let ls = split_bytes(format_snapshot(rs), NEWLINE);
    assert(ls =~= seq![header_bytes()] + split_bytes(format_rows(rs), NEWLINE));
    let body = ls.skip(1);
    assert(body =~= split_bytes(format_rows(rs), NEWLINE));
    assert(body =~= rows_lines(rs).push(Seq::<u8>::empty()));
    assert(body.last().len() == 0);
    assert(body.drop_last() =~= rows_lines(rs));
    lemma_rows_parse(rs);
}

/// The lines of the formatted rows, one per record.
spec fn rows_lines(rs: Seq<CellRecord>) -> Seq<Seq<u8>>
    decreases rs.len(),
{
    if rs.len() == 0 {
        Seq::empty()
    } else {
        seq![format_record(rs[0])] + rows_lines(rs.skip(1))
    }
}

/// Splitting the formatted rows yields one line per record plus the empty
/// piece after the final newline.
proof fn lemma_rows_split(rs: Seq<CellRecord>)
    requires
        forall|i: int| 0 <= i < rs.len() ==> record_valid(#[trigger] rs[i]),
    ensures
        split_bytes(format_rows(rs), NEWLINE) == rows_lines(rs).push(Seq::<u8>::empty()),
    decreases rs.len(),
{
    if rs.len() == 0 {
        assert(split_bytes(Seq::<u8>::empty(), NEWLINE) == seq![Seq::<u8>::empty()]);
        assert(rows_lines(rs).push(Seq::<u8>::empty()) =~= seq![Seq::<u8>::empty()]);
    } else {
        assert(forall|i: int| 0 <= i < rs.skip(1).len() ==> record_valid(#[trigger] rs.skip(1)[i]));
        lemma_rows_split(rs.skip(1));
        lemma_record_no_newline(rs[0]);
        lemma_split_field(format_record(rs[0]), format_rows(rs.skip(1)), NEWLINE);
        assert(split_bytes(format_rows(rs), NEWLINE)
            =~= seq![format_record(rs[0])] + split_bytes(format_rows(rs.skip(1)), NEWLINE));
        assert(seq![format_record(rs[0])] + rows_lines(rs.skip(1)).push(Seq::<u8>::empty())
            =~= rows_lines(rs).push(Seq::<u8>::empty()));
    }
}

/// Every line of a formatted row list parses back to its record.
proof fn lemma_rows_parse(rs: Seq<CellRecord>)
    requires
        forall|i: int| 0 <= i < rs.len() ==> record_valid(#[trigger] rs[i]),
        forall|i: int| 0 <= i < rs.len() ==> record_fits(#[trigger] rs[i]),
    ensures
        parse_rows_spec(rows_lines(rs)) == Some(rs),
    decreases rs.len(),
{
    if rs.len() == 0 {
        assert(parse_rows_spec(rows_lines(rs)) == Some(Seq::<CellRecord>::empty()));
        assert(Seq::<CellRecord>::empty() =~= rs);
    } else {
        assert(forall|i: int| 0 <= i < rs.skip(1).len() ==> record_valid(#[trigger] rs.skip(1)[i]));
        assert(forall|i: int| 0 <= i < rs.skip(1).len()
            ==> record_fits(#[trigger] rs.skip(1)[i]));
        lemma_rows_parse(rs.skip(1));
        lemma_record_round_trip(rs[0]);
        let lines = rows_lines(rs);
        assert(lines[0] == format_record(rs[0]));
        assert(lines.skip(1) =~= rows_lines(rs.skip(1)));
        assert(seq![rs[0]] + rs.skip(1) =~= rs);
    }
}

/// Every record a snapshot parse yields keeps its timestep below the
/// machine index limit.
pub proof fn lemma_parse_rows_bounded(lines: Seq<Seq<u8>>)
    requires
        parse_rows_spec(lines) is Some,
    ensures
        forall|k: int| 0 <= k < parse_rows_spec(lines).unwrap().len() ==>
            (#[trigger] parse_rows_spec(lines).unwrap()[k]).timestep < usize::MAX,
    decreases lines.len(),
{
    if lines.len() > 0 {
        lemma_parse_rows_bounded(lines.skip(1));
        let r0 = parse_record_spec(lines[0]).unwrap();
        let fs = split_bytes(lines[0], COMMA);
        let t = parse_number_spec(fs[0], TIMESTEP_LIMIT as int);
        assert(t.unwrap() <= TIMESTEP_LIMIT) by {
            crate::codec::lemma_digits_val_nonneg(fs[0]);
        }
        assert(0 <= t.unwrap() <= 0xFFFF_FFFE) by {
            crate::codec::lemma_digits_val_nonneg(fs[0]);
        }
        assert(r0.timestep == t.unwrap() as usize);
        assert(usize::MAX >= 0xFFFF_FFFF);
        assert((t.unwrap() as usize) as int == t.unwrap());
        assert(r0.timestep < usize::MAX);
        assert(parse_rows_spec(lines) ==
            Some(seq![r0] + parse_rows_spec(lines.skip(1)).unwrap()));
    }
}

/// Every record a snapshot parse yields keeps its timestep below the
/// machine index limit.
pub proof fn lemma_parse_snapshot_bounded(bytes: Seq<u8>)
    requires
        parse_snapshot_spec(bytes) is Some,
    ensures
        forall|k: int| 0 <= k < parse_snapshot_spec(bytes).unwrap().len() ==>
            (#[trigger] parse_snapshot_spec(bytes).unwrap()[k]).timestep < usize::MAX,
{
    let ls = split_bytes(bytes, NEWLINE);
    let body = ls.skip(1);
    let rows = if body.len() > 0 && body.last().len() == 0 {
        body.drop_last()
    } else {
        body
    };
    lemma_parse_rows_bounded(rows);
}

} // verus!
