use vstd::prelude::*;

verus! {

/// ASCII code of the comma that separates the columns of a row.
pub const COMMA: u8 = 44;

/// ASCII code of the dot inside a fixed-point column.
pub const DOT: u8 = 46;

/// ASCII code of the newline that ends every row.
pub const NEWLINE: u8 = 10;

/// ASCII decimal digit.
pub open spec fn is_digit(b: u8) -> bool {
    48 <= b <= 57
}

/// Every byte of the sequence is a decimal digit.
pub open spec fn all_digits(s: Seq<u8>) -> bool {
    forall|i: int| 0 <= i < s.len() ==> is_digit(#[trigger] s[i])
}

/// The shortest decimal numeral of `n`, most significant digit first.
pub open spec fn dec_digits(n: int) -> Seq<u8>
    decreases n,
{
    if n < 10 {
        seq![(48 + if n >= 0 { n } else { 0 }) as u8]
    } else {
        dec_digits(n / 10) + seq![(48 + n % 10) as u8]
    }
}

/// The decimal numeral of `n` padded with leading zeros to width `w`;
/// only the lowest `w` digits of `n` appear.
pub open spec fn fixed_digits(n: int, w: nat) -> Seq<u8>
    decreases w,
{
    if w == 0 {
        Seq::empty()
    } else {
        fixed_digits(n / 10, (w - 1) as nat) + seq![(48 + n % 10) as u8]
    }
}

/// Numeric value of a digit string, most significant digit first.
pub open spec fn digits_val(s: Seq<u8>) -> int
    decreases s.len(),
{
    if s.len() == 0 {
        0
    } else {
        digits_val(s.drop_last()) * 10 + (s.last() - 48)
    }
}

/// A digit string never has a negative value.
pub proof fn lemma_digits_val_nonneg(s: Seq<u8>)
    requires
        all_digits(s),
    ensures
        digits_val(s) >= 0,
    decreases s.len(),
{
    if s.len() > 0 {
        assert(all_digits(s.drop_last())) by {
            assert(forall|i: int| 0 <= i < s.len() - 1 ==> s.drop_last()[i] == s[i]);
        }
        lemma_digits_val_nonneg(s.drop_last());
        assert(is_digit(s.last()));
    }
}

/// Appending one digit multiplies the value by ten and adds the digit.
pub proof fn lemma_digits_val_push(s: Seq<u8>, d: u8)
    ensures
        digits_val(s.push(d)) == digits_val(s) * 10 + (d - 48),
{
    assert(s.push(d).drop_last() =~= s);
    assert(s.push(d).last() == d);
}

/// The decimal numeral consists of digits and decodes back to its value.
pub proof fn lemma_dec_digits_val(n: int)
    requires
        n >= 0,
    ensures
        all_digits(dec_digits(n)),
        digits_val(dec_digits(n)) == n,
        dec_digits(n).len() >= 1,
    decreases n,
{
    if n < 10 {
        assert(dec_digits(n) =~= seq![(48 + n) as u8]);
        assert(dec_digits(n).drop_last() =~= Seq::<u8>::empty());
        assert(digits_val(Seq::<u8>::empty()) == 0);
        assert(digits_val(dec_digits(n))
            == digits_val(dec_digits(n).drop_last()) * 10 + (dec_digits(n).last() - 48));
    } else {
        lemma_dec_digits_val(n / 10);
        assert(dec_digits(n) =~= dec_digits(n / 10).push((48 + n % 10) as u8));
        lemma_digits_val_push(dec_digits(n / 10), (48 + n % 10) as u8);
        assert(digits_val(dec_digits(n)) == (n / 10) * 10 + n % 10);
        assert((n / 10) * 10 + n % 10 == n) by (nonlinear_arith);
        assert forall|i: int| 0 <= i < dec_digits(n).len()
            implies is_digit(#[trigger] dec_digits(n)[i]) by {
            if i < dec_digits(n / 10).len() {
                assert(dec_digits(n)[i] == dec_digits(n / 10)[i]);
            }
        }
    }
}

/// The ten-power of a width.
pub open spec fn pow10(w: nat) -> int
    decreases w,
{
    if w == 0 {
        1
    } else {
        10 * pow10((w - 1) as nat)
    }
}

pub proof fn lemma_pow10_pos(w: nat)
    ensures
        pow10(w) >= 1,
    decreases w,
{
    if w > 0 {
        lemma_pow10_pos((w - 1) as nat);
    }
}

/// A fixed-width numeral has exactly that width, consists of digits, and
/// decodes to the value modulo the width's ten-power.
pub proof fn lemma_fixed_digits_val(n: int, w: nat)
    requires
        0 <= n < pow10(w),
    ensures
        all_digits(fixed_digits(n, w)),
        fixed_digits(n, w).len() == w,
        digits_val(fixed_digits(n, w)) == n,
    decreases w,
{
    if w == 0 {
    } else {
        lemma_pow10_pos((w - 1) as nat);
        assert(n / 10 < pow10((w - 1) as nat)) by (nonlinear_arith)
            requires n < 10 * pow10((w - 1) as nat), 0 <= n, pow10((w - 1) as nat) >= 1;
        lemma_fixed_digits_val(n / 10, (w - 1) as nat);
        let tail = (48 + n % 10) as u8;
        assert(fixed_digits(n, w) =~= fixed_digits(n / 10, (w - 1) as nat).push(tail));
        lemma_digits_val_push(fixed_digits(n / 10, (w - 1) as nat), tail);
        assert((n / 10) * 10 + n % 10 == n) by (nonlinear_arith);
        assert forall|i: int| 0 <= i < fixed_digits(n, w).len()
            implies is_digit(#[trigger] fixed_digits(n, w)[i]) by {
            if i < fixed_digits(n / 10, (w - 1) as nat).len() {
                assert(fixed_digits(n, w)[i] == fixed_digits(n / 10, (w - 1) as nat)[i]);
            }
        }
    }
}

/// Splitting a byte sequence at every occurrence of `sep`: the list of
/// separated pieces, each free of the separator, in order.
pub open spec fn split_bytes(s: Seq<u8>, sep: u8) -> Seq<Seq<u8>>
    decreases s.len(),
{
    if s.len() == 0 {
        seq![Seq::<u8>::empty()]
    } else if s[0] == sep {
        seq![Seq::<u8>::empty()] + split_bytes(s.skip(1), sep)
    } else {
        let rest = split_bytes(s.skip(1), sep);
        seq![seq![s[0]] + rest[0]] + rest.skip(1)
    }
}

pub proof fn lemma_split_nonempty(s: Seq<u8>, sep: u8)
    ensures
        split_bytes(s, sep).len() >= 1,
    decreases s.len(),
{
    if s.len() != 0 {
        lemma_split_nonempty(s.skip(1), sep);
    }
}

/// A separator-free sequence splits into itself alone, and prepending it
/// to a separated rest prepends it to the first piece.
pub proof fn lemma_split_prepend(c: Seq<u8>, r: Seq<u8>, sep: u8)
    requires
        forall|i: int| 0 <= i < c.len() ==> #[trigger] c[i] != sep,
    ensures
        split_bytes(c + r, sep).len() == split_bytes(r, sep).len(),
        split_bytes(c + r, sep)[0] == c + split_bytes(r, sep)[0],
        split_bytes(c + r, sep).skip(1) == split_bytes(r, sep).skip(1),
    decreases c.len(),
{
    lemma_split_nonempty(r, sep);
    if c.len() == 0 {
        assert(c + r =~= r);
        assert(c + split_bytes(r, sep)[0] =~= split_bytes(r, sep)[0]);
    } else {
        let s = c + r;
        assert(s.len() > 0);
        assert(s[0] == c[0]);
        assert(s[0] != sep);
        assert(s.skip(1) =~= c.skip(1) + r);
        assert(forall|i: int| 0 <= i < c.skip(1).len() ==> #[trigger] c.skip(1)[i] != sep);
        lemma_split_prepend(c.skip(1), r, sep);
        let rest = split_bytes(s.skip(1), sep);
        assert(split_bytes(s, sep) == seq![seq![s[0]] + rest[0]] + rest.skip(1));
        assert(seq![s[0]] + rest[0] =~= c + split_bytes(r, sep)[0]);
        assert(split_bytes(s, sep)[0] == seq![s[0]] + rest[0]);
        assert(split_bytes(s, sep).skip(1) =~= rest.skip(1));
        lemma_split_nonempty(c.skip(1) + r, sep);
        assert(rest.skip(1) =~= split_bytes(r, sep).skip(1));
    }
}

/// A separator-free piece followed by a separator and a rest splits into
/// the piece and then the split of the rest.
pub proof fn lemma_split_field(c: Seq<u8>, r: Seq<u8>, sep: u8)
    requires
        forall|i: int| 0 <= i < c.len() ==> #[trigger] c[i] != sep,
    ensures
        split_bytes(c + seq![sep] + r, sep) == seq![c] + split_bytes(r, sep),
    decreases c.len(),
{
    lemma_split_nonempty(r, sep);
    let sepr = seq![sep] + r;
    assert(sepr[0] == sep);
    assert(sepr.skip(1) =~= r);
    assert(split_bytes(sepr, sep) == seq![Seq::<u8>::empty()] + split_bytes(r, sep));
    lemma_split_prepend(c, sepr, sep);
    assert(c + seq![sep] + r =~= c + sepr);
    assert(split_bytes(c + sepr, sep)[0] == c + Seq::<u8>::empty());
    assert(c + Seq::<u8>::empty() =~= c);
    assert(split_bytes(c + sepr, sep).skip(1) =~= (seq![Seq::<u8>::empty()] + split_bytes(r, sep)).skip(1));
    assert((seq![Seq::<u8>::empty()] + split_bytes(r, sep)).skip(1) =~= split_bytes(r, sep));
    assert(split_bytes(c + seq![sep] + r, sep) =~= seq![c] + split_bytes(r, sep));
}

/// A separator-free sequence splits into exactly itself.
pub proof fn lemma_split_single(c: Seq<u8>, sep: u8)
    requires
        forall|i: int| 0 <= i < c.len() ==> #[trigger] c[i] != sep,
    ensures
        split_bytes(c, sep) == seq![c],
{
    lemma_split_prepend(c, Seq::<u8>::empty(), sep);
    assert(c + Seq::<u8>::empty() =~= c);
    assert(split_bytes(Seq::<u8>::empty(), sep) == seq![Seq::<u8>::empty()]);
    assert(split_bytes(c, sep)[0] == c + Seq::<u8>::empty());
    assert(c + Seq::<u8>::empty() =~= c);
    assert(split_bytes(c, sep).len() == 1);
    assert(split_bytes(c, sep) =~= seq![c]);
}

/// Split a byte buffer at every occurrence of `sep`.
pub fn split_exec(s: &Vec<u8>, sep: u8) -> (fields: Vec<Vec<u8>>)
    ensures
        fields@.len() == split_bytes(s@, sep).len(),
        forall|k: int| 0 <= k < fields@.len() ==>
            (#[trigger] fields@[k])@ == split_bytes(s@, sep)[k],
{
    let n: usize = s.len();
    let mut fields: Vec<Vec<u8>> = Vec::new();
    let mut cur: Vec<u8> = Vec::new();
    let ghost mut done: Seq<Seq<u8>> = Seq::empty();
    let mut i: usize = 0;
    proof {
        assert(cur@ + s@.skip(0) =~= s@);
        assert(Seq::<Seq<u8>>::empty() + split_bytes(s@, sep) =~= split_bytes(s@, sep));
    }
    while i < n
        invariant
            n == s@.len(),
            i <= n,
            forall|k: int| 0 <= k < cur@.len() ==> #[trigger] cur@[k] != sep,
            done.len() == fields@.len(),
            forall|k: int| 0 <= k < fields@.len() ==> (#[trigger] fields@[k])@ == done[k],
            split_bytes(s@, sep) == done + split_bytes(cur@ + s@.skip(i as int), sep),
        decreases n - i,
    {
        let b: u8 = s[i];
        let ghost prefix = cur@;
        let ghost rest = s@.skip(i as int);
        proof {
            assert(rest.len() > 0);
            assert(rest[0] == b);
            assert(rest.skip(1) =~= s@.skip(i + 1));
        }
        if b == sep {
            proof {
                lemma_split_field(prefix, rest.skip(1), sep);
                assert(prefix + seq![sep] + rest.skip(1) =~= prefix + rest);
            }
            let done_field: Vec<u8> = cur;
            cur = Vec::new();
            fields.push(done_field);
            proof {
                done = done.push(prefix);
                assert(cur@ + s@.skip(i + 1) =~= rest.skip(1));
                assert(done + split_bytes(rest.skip(1), sep)
                    =~= done.drop_last() + (seq![prefix] + split_bytes(rest.skip(1), sep)));
                assert(split_bytes(s@, sep) == done + split_bytes(cur@ + s@.skip(i + 1), sep));
            }
        } else {
            cur.push(b);
            proof {
                assert(cur@ + s@.skip(i + 1) =~= prefix + rest);
            }
        }
        i = i + 1;
    }
    proof {
        assert(cur@ + s@.skip(n as int) =~= cur@);
        lemma_split_single(cur@, sep);
    }
    fields.push(cur);
    proof {
        done = done.push(split_bytes(s@, sep).last());
        assert(split_bytes(s@, sep) =~= done);
    }
    fields
}


/// Peel the last digit off a fixed-width numeral.
pub proof fn lemma_fixed_digits_unfold(n: int, w: nat)
    requires
        w >= 1,
    ensures
        fixed_digits(n, w) == fixed_digits(n / 10, (w - 1) as nat) + seq![(48 + n % 10) as u8],
{
}

/// Micro-units of one whole unit, as a spec integer.
pub open spec fn micro() -> int {
    1_000_000
}

/// A column of a whole number, parsed: the digits' value when the field is
/// a non-empty digit string whose value is at most `max`.
pub open spec fn parse_number_spec(s: Seq<u8>, max: int) -> Option<int> {
    if s.len() >= 1 && all_digits(s) && digits_val(s) <= max {
        Some(digits_val(s))
    } else {
        None
    }
}

/// A fixed-point column, parsed to micro-units: a non-empty digit string,
/// optionally followed by a dot and one to six fraction digits; the value
/// must be at most `max` micro-units.
pub open spec fn parse_scaled_spec(s: Seq<u8>, max: int) -> Option<int> {
    let parts = split_bytes(s, DOT);
    if parts.len() == 1 {
        if parts[0].len() >= 1 && all_digits(parts[0]) && digits_val(parts[0]) * micro() <= max {
            Some(digits_val(parts[0]) * micro())
        } else {
            None
        }
    } else if parts.len() == 2 {
        let w = parts[0];
        let f = parts[1];
        if w.len() >= 1 && all_digits(w) && 1 <= f.len() <= 6 && all_digits(f) {
            let v = digits_val(w) * micro() + digits_val(f) * pow10((6 - f.len()) as nat);
            if v <= max {
                Some(v)
            } else {
                None
            }
        } else {
            None
        }
    } else {
        None
    }
}

/// A fixed-point scalar at three decimal places: whole units, a dot, and
/// the milli-unit remainder zero-padded to three digits.
pub open spec fn format_scaled3(v: int) -> Seq<u8> {
    dec_digits(v / micro()) + seq![DOT] + fixed_digits((v / 1000) % 1000, 3)
}

/// A fixed-point scalar at six decimal places: whole units, a dot, and the
/// micro-unit remainder zero-padded to six digits.
pub open spec fn format_scaled6(v: int) -> Seq<u8> {
    dec_digits(v / micro()) + seq![DOT] + fixed_digits(v % micro(), 6)
}

/// Append the decimal numeral of `n`.
pub fn push_number(out: &mut Vec<u8>, n: u64)
    ensures
        final(out)@ == old(out)@ + dec_digits(n as int),
{
    let mut rev: Vec<u8> = Vec::new();
    let mut rest: u64 = n;
    while rest >= 10
        invariant
            dec_digits(n as int)
                == dec_digits(rest as int) + rev@.reverse(),
        decreases rest,
    {
        let d: u8 = 48 + (rest % 10) as u8;
        let ghost prev = rev@;
        rev.push(d);
        rest = rest / 10;
        proof {
            assert(dec_digits(rest as int).push(d) =~= dec_digits(rest as int) + seq![d]);
            assert(rev@.reverse() =~= seq![d] + prev.reverse());
            assert(dec_digits(rest as int) + rev@.reverse()
                =~= (dec_digits(rest as int) + seq![d]) + prev.reverse());
        }
    }
    let ghost mid = out@;
    out.push(48 + (rest % 10) as u8);
    proof {
        assert(rest % 10 == rest as int);
        assert(dec_digits(rest as int) =~= seq![(48 + rest as int) as u8]);
        assert(out@ =~= mid + dec_digits(rest as int));
    }
    let k: usize = rev.len();
    let mut i: usize = 0;
    while i < k
        invariant
            k == rev@.len(),
            i <= k,
            out@ == mid + dec_digits(rest as int) + rev@.reverse().take(i as int),
        decreases k - i,
    {
        let b: u8 = rev[k - 1 - i];
        out.push(b);
        proof {
            assert(rev@.reverse()[i as int] == rev@[k - 1 - i]);
            assert(rev@.reverse().take(i + 1)
                =~= rev@.reverse().take(i as int).push(b));
            assert((mid + dec_digits(rest as int) + rev@.reverse().take(i as int)).push(b)
                =~= mid + dec_digits(rest as int) + rev@.reverse().take(i + 1));
        }
        i = i + 1;
    }
    proof {
        assert(rev@.reverse().take(k as int) =~= rev@.reverse());
        assert(mid + dec_digits(rest as int) + rev@.reverse()
            =~= mid + (dec_digits(rest as int) + rev@.reverse()));
        assert(out@ =~= old(out)@ + dec_digits(n as int));
    }
}

/// Append one digit of the value `n / p`, for padding.
fn push_pad_digit(out: &mut Vec<u8>, n: u64, p: u64)
    requires
        p >= 1,
    ensures
        final(out)@ == old(out)@ + seq![(48 + (n / p) % 10) as u8],
{
    let d: u8 = 48 + ((n / p) % 10) as u8;
    out.push(d);
    proof {
        assert(final(out)@ =~= old(out)@ + seq![d]);
    }
}

/// Append a scalar at three decimal places; the value must sit on the
/// milli-grid.
pub fn push_scaled3(out: &mut Vec<u8>, v: u64)
    ensures
        final(out)@ == old(out)@ + format_scaled3(v as int),
{
    push_number(out, v / 1_000_000);
    out.push(DOT);
    let f: u64 = (v / 1000) % 1000;
    proof {
        assert(f < 1000);
    }
    push_pad_digit(out, f, 100);
    push_pad_digit(out, f, 10);
    push_pad_digit(out, f, 1);
    proof {
        let fi = f as int;
        lemma_fixed_digits_unfold(fi, 3);
        lemma_fixed_digits_unfold(fi / 10, 2);
        lemma_fixed_digits_unfold(fi / 10 / 10, 1);
        assert(fixed_digits(fi / 10 / 10 / 10, 0) == Seq::<u8>::empty());
        assert(fi / 10 / 10 == fi / 100) by (nonlinear_arith);
        assert(fi / 100 / 10 == 0) by (nonlinear_arith)
            requires 0 <= fi < 1000;
        assert((fi / 10) % 10 == (f / 10) % 10);
        assert((fi / 100) % 10 == fi / 100) by (nonlinear_arith)
            requires 0 <= fi < 1000;
        assert(f / 1 == f as int);
        assert(fixed_digits(fi, 3) =~= seq![
            (48 + (f / 100) % 10) as u8,
            (48 + (f / 10) % 10) as u8,
            (48 + f % 10) as u8,
        ]);
        assert(final(out)@ =~= old(out)@ + format_scaled3(v as int));
    }
}

/// Append a scalar at six decimal places.
pub fn push_scaled6(out: &mut Vec<u8>, v: u64)
    ensures
        final(out)@ == old(out)@ + format_scaled6(v as int),
{
    push_number(out, v / 1_000_000);
    out.push(DOT);
    let f: u64 = v % 1_000_000;
    push_pad_digit(out, f, 100_000);
    push_pad_digit(out, f, 10_000);
    push_pad_digit(out, f, 1000);
    push_pad_digit(out, f, 100);
    push_pad_digit(out, f, 10);
    push_pad_digit(out, f, 1);
    proof {
        let fi = f as int;
        lemma_fixed_digits_unfold(fi, 6);
        lemma_fixed_digits_unfold(fi / 10, 5);
        lemma_fixed_digits_unfold(fi / 10 / 10, 4);
        lemma_fixed_digits_unfold(fi / 10 / 10 / 10, 3);
        lemma_fixed_digits_unfold(fi / 10 / 10 / 10 / 10, 2);
        lemma_fixed_digits_unfold(fi / 10 / 10 / 10 / 10 / 10, 1);
        assert(fixed_digits(fi / 10 / 10 / 10 / 10 / 10 / 10, 0) == Seq::<u8>::empty());
        assert(fi / 10 / 10 == fi / 100) by (nonlinear_arith);
        assert(fi / 100 / 10 == fi / 1000) by (nonlinear_arith);
        assert(fi / 1000 / 10 == fi / 10_000) by (nonlinear_arith);
        assert(fi / 10_000 / 10 == fi / 100_000) by (nonlinear_arith);
        assert(fi / 100_000 / 10 == 0) by (nonlinear_arith)
            requires 0 <= fi < 1_000_000;
        assert((fi / 100_000) % 10 == fi / 100_000) by (nonlinear_arith)
            requires 0 <= fi < 1_000_000;
        assert(f / 1 == f as int);
        assert(fixed_digits(fi, 6) =~= seq![
            (48 + (f / 100_000) % 10) as u8,
            (48 + (f / 10_000) % 10) as u8,
            (48 + (f / 1000) % 10) as u8,
            (48 + (f / 100) % 10) as u8,
            (48 + (f / 10) % 10) as u8,
            (48 + f % 10) as u8,
        ]);
        assert(final(out)@ =~= old(out)@ + format_scaled6(v as int));
    }
}

/// Parse a whole-number column, rejecting values above `max`.
pub fn parse_number(field: &Vec<u8>, max: u64) -> (r: Option<u64>)
    ensures
        match r {
            Some(v) => parse_number_spec(field@, max as int) == Some(v as int),
            None => parse_number_spec(field@, max as int) is None,
        },
{
    let n: usize = field.len();
    if n == 0 {
        return None;
    }
    let mut acc: u64 = 0;
    let mut too_big: bool = false;
    let mut i: usize = 0;
    while i < n
        invariant
            n == field@.len(),
            i <= n,
            all_digits(field@.take(i as int)),
            !too_big ==> acc == digits_val(field@.take(i as int)) && acc <= max,
            too_big ==> digits_val(field@.take(i as int)) > max,
        decreases n - i,
    {
        let b: u8 = field[i];
        if b < 48 || b > 57 {
            proof {
                assert(!is_digit(field@[i as int]));
            }
            return None;
        }
        let ghost prefix = field@.take(i as int);
        proof {
            assert(field@.take(i + 1) =~= prefix.push(b));
            lemma_digits_val_push(prefix, b);
            lemma_digits_val_nonneg(prefix);
        }
        if !too_big {
            let wide: u128 = (acc as u128) * 10 + ((b - 48) as u128);
            if wide > max as u128 {
                too_big = true;
            } else {
                acc = wide as u64;
            }
        } else {
            proof {
                assert(digits_val(prefix) * 10 >= digits_val(prefix)) by (nonlinear_arith)
                    requires digits_val(prefix) >= 0;
            }
        }
        i = i + 1;
    }
    proof {
        assert(field@.take(n as int) =~= field@);
    }
    if too_big {
        None
    } else {
        Some(acc)
    }
}

/// The ten-power of the number of missing fraction digits.
fn pow10_exec(w: usize) -> (p: u64)
    requires
        w <= 6,
    ensures
        p == pow10(w as nat),
{
    proof {
        assert(pow10(0) == 1);
        assert(pow10(1) == 10);
        assert(pow10(2) == 100);
        assert(pow10(3) == 1000);
        assert(pow10(4) == 10_000);
        assert(pow10(5) == 100_000);
        assert(pow10(6) == 1_000_000);
    }
    if w == 0 { 1 }
    else if w == 1 { 10 }
    else if w == 2 { 100 }
    else if w == 3 { 1000 }
    else if w == 4 { 10_000 }
    else if w == 5 { 100_000 }
    else { 1_000_000 }
}

/// Parse a fixed-point column into micro-units, rejecting values above
/// `max` micro-units.
pub fn parse_scaled(field: &Vec<u8>, max: u64) -> (r: Option<u64>)
    ensures
        match r {
            Some(v) => parse_scaled_spec(field@, max as int) == Some(v as int),
            None => parse_scaled_spec(field@, max as int) is None,
        },
{
    let parts: Vec<Vec<u8>> = split_exec(field, DOT);
    let ghost sp = split_bytes(field@, DOT);
    if parts.len() == 1 {
        let whole: Option<u64> = parse_number(&parts[0], u64::MAX);
        match whole {
            None => {
                proof {
                    if sp[0].len() >= 1 && all_digits(sp[0]) {
                        lemma_digits_val_nonneg(sp[0]);
                        assert(digits_val(sp[0]) > u64::MAX);
                        assert(digits_val(sp[0]) * micro() >= digits_val(sp[0]))
                            by (nonlinear_arith)
                            requires digits_val(sp[0]) >= 0;
                    }
                }
                None
            },
            Some(w) => {
                let wide: u128 = (w as u128) * 1_000_000;
                if wide > max as u128 {
                    None
                } else {
                    Some(wide as u64)
                }
            },
        }
    } else if parts.len() == 2 {
        let whole: Option<u64> = parse_number(&parts[0], u64::MAX);
        let flen: usize = parts[1].len();
        if flen == 0 || flen > 6 {
            return None;
        }
        let frac: Option<u64> = parse_number(&parts[1], u64::MAX);
        proof {
            assert(pow10(6) == 1_000_000) by {
                assert(pow10(0) == 1);
                assert(pow10(1) == 10);
                assert(pow10(2) == 100);
                assert(pow10(3) == 1000);
                assert(pow10(4) == 10_000);
                assert(pow10(5) == 100_000);
            }
        }
        match (whole, frac) {
            (Some(w), Some(f)) => {
                proof {
                    if all_digits(sp[1]) && 1 <= sp[1].len() <= 6 {
                        lemma_pow10_pos((6 - sp[1].len()) as nat);
                        assert(pow10((6 - sp[1].len()) as nat) <= 1_000_000) by {
                            assert(pow10(0) == 1);
                            assert(pow10(1) == 10);
                            assert(pow10(2) == 100);
                            assert(pow10(3) == 1000);
                            assert(pow10(4) == 10_000);
                            assert(pow10(5) == 100_000);
                        }
                    }
                }
                let p: u64 = pow10_exec(6 - flen);
                proof {
                    assert((f as int) * (p as int) <= 0xFFFF_FFFF_FFFF_FFFF * 1_000_000)
                        by (nonlinear_arith)
                        requires 0 <= f as int <= 0xFFFF_FFFF_FFFF_FFFF, 0 <= p as int <= 1_000_000;
                    assert((w as int) * 1_000_000 <= 0xFFFF_FFFF_FFFF_FFFF * 1_000_000)
                        by (nonlinear_arith)
                        requires 0 <= w as int <= 0xFFFF_FFFF_FFFF_FFFF;
                }
                let wide: u128 = (w as u128) * 1_000_000 + (f as u128) * (p as u128);
                if wide > max as u128 {
                    None
                } else {
                    Some(wide as u64)
                }
            },
            _ => {
                proof {
                    if sp[0].len() >= 1 && all_digits(sp[0]) && 1 <= sp[1].len() <= 6
                        && all_digits(sp[1]) {
                        lemma_digits_val_nonneg(sp[0]);
                        lemma_digits_val_nonneg(sp[1]);
                        lemma_pow10_pos((6 - sp[1].len()) as nat);
                        if digits_val(sp[0]) > u64::MAX {
                            assert(digits_val(sp[0]) * micro() + digits_val(sp[1]) * pow10((6 - sp[1].len()) as nat) > max)
                                by (nonlinear_arith)
                                requires
                                    digits_val(sp[0]) > 0xFFFF_FFFF_FFFF_FFFF,
                                    digits_val(sp[1]) >= 0,
                                    pow10((6 - sp[1].len()) as nat) >= 1,
                                    max <= 0xFFFF_FFFF_FFFF_FFFF;
                        } else {
                            assert(digits_val(sp[1]) > u64::MAX);
                            assert(digits_val(sp[0]) * micro() + digits_val(sp[1]) * pow10((6 - sp[1].len()) as nat) > max)
                                by (nonlinear_arith)
                                requires
                                    digits_val(sp[0]) >= 0,
                                    digits_val(sp[1]) > 0xFFFF_FFFF_FFFF_FFFF,
                                    pow10((6 - sp[1].len()) as nat) >= 1,
                                    max <= 0xFFFF_FFFF_FFFF_FFFF;
                        }
                    }
                }
                None
            },
        }
    } else {
        None
    }
}

/// A scalar written at six decimal places reads back exactly.
pub proof fn lemma_scaled6_round_trip(v: int, max: int)
    requires
        0 <= v <= max,
    ensures
        parse_scaled_spec(format_scaled6(v), max) == Some(v),
{
    let w = v / micro();
    let f = v % micro();
    vstd::arithmetic::div_mod::lemma_fundamental_div_mod(v, micro());
    lemma_dec_digits_val(w);
    assert(pow10(6) == 1_000_000) by {
        assert(pow10(0) == 1);
        assert(pow10(1) == 10);
        assert(pow10(2) == 100);
        assert(pow10(3) == 1000);
        assert(pow10(4) == 10_000);
        assert(pow10(5) == 100_000);
    }
    lemma_fixed_digits_val(f, 6);
    assert(forall|i: int| 0 <= i < dec_digits(w).len() ==> #[trigger] dec_digits(w)[i] != DOT);
    assert(forall|i: int| 0 <= i < fixed_digits(f, 6).len() ==> #[trigger] fixed_digits(f, 6)[i] != DOT);
    lemma_split_single(fixed_digits(f, 6), DOT);
    lemma_split_field(dec_digits(w), fixed_digits(f, 6), DOT);
    let sp = split_bytes(format_scaled6(v), DOT);
    assert(sp =~= seq![dec_digits(w), fixed_digits(f, 6)]);
    assert(pow10((6 - 6) as nat) == 1);
    assert(digits_val(sp[0]) * micro() + digits_val(sp[1]) * 1 == w * micro() + f);
    assert(w * micro() + f == v) by (nonlinear_arith)
        requires v == micro() * w + f;
}

/// A scalar on the milli-grid written at three decimal places reads back
/// exactly.
pub proof fn lemma_scaled3_round_trip(v: int, max: int)
    requires
        0 <= v <= max,
        v % 1000 == 0,
    ensures
        parse_scaled_spec(format_scaled3(v), max) == Some(v),
{
    let w = v / micro();
    let f = (v / 1000) % 1000;
    lemma_dec_digits_val(w);
    assert(pow10(3) == 1000) by {
        assert(pow10(0) == 1);
        assert(pow10(1) == 10);
        assert(pow10(2) == 100);
    }
    lemma_fixed_digits_val(f, 3);
    assert(forall|i: int| 0 <= i < dec_digits(w).len() ==> #[trigger] dec_digits(w)[i] != DOT);
    assert(forall|i: int| 0 <= i < fixed_digits(f, 3).len() ==> #[trigger] fixed_digits(f, 3)[i] != DOT);
    lemma_split_single(fixed_digits(f, 3), DOT);
    lemma_split_field(dec_digits(w), fixed_digits(f, 3), DOT);
    let sp = split_bytes(format_scaled3(v), DOT);
    assert(sp =~= seq![dec_digits(w), fixed_digits(f, 3)]);
    let a = v / 1000;
    vstd::arithmetic::div_mod::lemma_fundamental_div_mod(v, 1000);
    assert(v == 1000 * a);
    vstd::arithmetic::div_mod::lemma_fundamental_div_mod(a, 1000);
    vstd::arithmetic::div_mod::lemma_div_denominator(v, 1000, 1000);
    assert(a / 1000 == v / micro());
    assert(a == 1000 * (a / 1000) + a % 1000);
    assert(digits_val(sp[0]) * micro() + digits_val(sp[1]) * pow10(3) == w * micro() + f * 1000);
    assert(w * micro() + f * 1000 == v) by (nonlinear_arith)
        requires
            v == 1000 * (1000 * w + f),
            0 <= f < 1000;
}

} // verus!
