//! The log's line format, on bytes.
//!
//! One record per line: `YYYY-MM-DD,HH:MM,<weight>` with the weight written
//! in decimal, one fractional digit when persisted by the engine. This
//! module states the format as spec functions over byte sequences, gives
//! verified renderers and parsers, and proves that parsing inverts
//! rendering.

use vstd::prelude::*;
use crate::timestamp::{Timestamp, days_in_month, days_in_month_x};
use crate::weight::WeightT;

verus! {

pub const NL: u8 = 10;

pub const CR: u8 = 13;

pub const COMMA: u8 = 44;

pub const DASH: u8 = 45;

pub const DOT: u8 = 46;

pub const COLON: u8 = 58;

pub const SPACE: u8 = 32;

pub open spec fn is_digit(b: u8) -> bool {
    48 <= b <= 57
}

pub open spec fn all_digits(s: Seq<u8>) -> bool {
    forall|i: int| 0 <= i < s.len() ==> is_digit(#[trigger] s[i])
}

pub open spec fn digit_val(b: u8) -> nat {
    (b - 48) as nat
}

/// Value of a string of decimal digits, most significant first.
pub open spec fn dec_val(s: Seq<u8>) -> nat
    decreases s.len(),
{
    if s.len() == 0 {
        0
    } else {
        dec_val(s.drop_last()) * 10 + digit_val(s.last())
    }
}

/// Shortest decimal rendering of `n`, most significant digit first.
pub open spec fn dec_digits(n: nat) -> Seq<u8>
    decreases n,
{
    if n < 10 {
        seq![(n + 48) as u8]
    } else {
        dec_digits(n / 10).push((n % 10 + 48) as u8)
    }
}

pub open spec fn pow10(e: nat) -> nat
    decreases e,
{
    if e == 0 {
        1
    } else {
        10 * pow10((e - 1) as nat)
    }
}

/// Index of the first occurrence of `d` in `s`, or `s.len()` when absent.
pub open spec fn first_at(s: Seq<u8>, d: u8) -> nat
    decreases s.len(),
{
    if s.len() == 0 {
        0
    } else if s[0] == d {
        0
    } else {
        1 + first_at(s.drop_first(), d)
    }
}

/// Splitting on a separator byte, as `str::split` does: even the empty
/// sequence yields one (empty) piece.
pub open spec fn spec_split(s: Seq<u8>, d: u8) -> Seq<Seq<u8>>
    decreases s.len(),
{
    let e = first_at(s, d);
    if e >= s.len() {
        seq![s]
    } else {
        seq![s.take(e as int)] + spec_split(s.skip(e as int + 1), d)
    }
}

pub open spec fn seq_views(s: Seq<Vec<u8>>) -> Seq<Seq<u8>> {
    s.map_values(|v: Vec<u8>| v@)
}

pub proof fn lemma_first_at_none(s: Seq<u8>, d: u8)
    requires
        forall|i: int| 0 <= i < s.len() ==> s[i] != d,
    ensures
        first_at(s, d) == s.len(),
    decreases s.len(),
{
    if s.len() > 0 {
        assert(forall|i: int| 0 <= i < s.drop_first().len() ==> s.drop_first()[i] == s[i + 1]);
        lemma_first_at_none(s.drop_first(), d);
    }
}

pub proof fn lemma_first_at_found(s: Seq<u8>, d: u8, e: int)
    requires
        0 <= e < s.len(),
        s[e] == d,
        forall|i: int| 0 <= i < e ==> s[i] != d,
    ensures
        first_at(s, d) == e,
    decreases s.len(),
{
    if e > 0 {
        assert(forall|i: int| 0 <= i < s.drop_first().len() ==> s.drop_first()[i] == s[i + 1]);
        lemma_first_at_found(s.drop_first(), d, e - 1);
    }
}

/// A sequence without the separator splits to itself alone.
pub proof fn lemma_split_no_delim(s: Seq<u8>, d: u8)
    requires
        forall|i: int| 0 <= i < s.len() ==> s[i] != d,
    ensures
        spec_split(s, d) == seq![s],
{
    lemma_first_at_none(s, d);
}

/// Splitting off the first piece at the first separator.
pub proof fn lemma_split_step(s: Seq<u8>, d: u8, e: int)
    requires
        0 <= e < s.len(),
        s[e] == d,
        forall|i: int| 0 <= i < e ==> s[i] != d,
    ensures
        spec_split(s, d) == seq![s.take(e)] + spec_split(s.skip(e + 1), d),
{
    lemma_first_at_found(s, d, e);
}

/// A separator-free piece followed by the separator splits off cleanly.
pub proof fn lemma_split_prefix(a: Seq<u8>, rest: Seq<u8>, d: u8)
    requires
        forall|i: int| 0 <= i < a.len() ==> a[i] != d,
    ensures
        spec_split(a + seq![d] + rest, d) == seq![a] + spec_split(rest, d),
{
    let s = a + seq![d] + rest;
    let e = a.len() as int;
    assert(s[e] == d);
    assert(forall|i: int| 0 <= i < e ==> s[i] == a[i]);
    lemma_split_step(s, d, e);
    assert(s.take(e) =~= a);
    assert(s.skip(e + 1) =~= rest);
}

/// Split a byte vector on a separator byte.
pub fn split_bytes(s: &Vec<u8>, d: u8) -> (r: Vec<Vec<u8>>)
    ensures
        seq_views(r@) == spec_split(s@, d),
{
    let mut r: Vec<Vec<u8>> = Vec::new();
    let mut cur: Vec<u8> = Vec::new();
    let mut start: usize = 0;
    let mut i: usize = 0;
    proof {
        assert(seq_views(r@) =~= Seq::<Seq<u8>>::empty());
        assert(s@.skip(0) =~= s@);
        assert(seq_views(r@) + spec_split(s@, d) =~= spec_split(s@, d));
        assert(cur@ =~= s@.subrange(0, 0));
    }
    while i < s.len()
        invariant
            start <= i <= s.len(),
            cur@ == s@.subrange(start as int, i as int),
            forall|k: int| start <= k < i ==> s@[k] != d,
            spec_split(s@, d) == seq_views(r@) + spec_split(s@.skip(start as int), d),
        decreases s.len() - i,
    {
        let b = s[i];
        if b == d {
            proof {
                let tail = s@.skip(start as int);
                let e = i - start;
                assert(tail[e] == s@[i as int]);
                assert(forall|k: int| 0 <= k < e ==> tail[k] == s@[k + start]);
                lemma_split_step(tail, d, e);
                assert(tail.take(e) =~= cur@);
                assert(tail.skip(e + 1) =~= s@.skip(i + 1));
                assert(seq_views(r@.push(cur)) =~= seq_views(r@).push(cur@));
            }
            r.push(cur);
            cur = Vec::new();
            start = i + 1;
            proof {
                assert(cur@ =~= s@.subrange(start as int, start as int));
            }
        } else {
            cur.push(b);
            proof {
                assert(cur@ =~= s@.subrange(start as int, i + 1));
            }
        }
        i += 1;
    }
    proof {
        let tail = s@.skip(start as int);
        assert(forall|k: int| 0 <= k < tail.len() ==> tail[k] == s@[k + start]);
        lemma_split_no_delim(tail, d);
        assert(tail =~= cur@);
        assert(seq_views(r@.push(cur)) =~= seq_views(r@).push(cur@));
    }
    r.push(cur);
    r
}

// ---------------------------------------------------------------------------
// Rendering: from samples to bytes.
// ---------------------------------------------------------------------------
pub open spec fn two_digits(n: nat) -> Seq<u8> {
    seq![(n / 10 % 10 + 48) as u8, (n % 10 + 48) as u8]
}

pub open spec fn four_digits(n: nat) -> Seq<u8> {
    seq![
        (n / 1000 % 10 + 48) as u8,
        (n / 100 % 10 + 48) as u8,
        (n / 10 % 10 + 48) as u8,
        (n % 10 + 48) as u8,
    ]
}

pub open spec fn render_date(t: Timestamp) -> Seq<u8> {
    four_digits(t.year as nat) + seq![DASH] + two_digits(t.month as nat) + seq![DASH]
        + two_digits(t.day as nat)
}

pub open spec fn render_time(t: Timestamp) -> Seq<u8> {
    two_digits(t.hour as nat) + seq![COLON] + two_digits(t.minute as nat)
}

/// A value in tenths written with exactly one fractional digit.
pub open spec fn render_tenths(v: nat) -> Seq<u8> {
    dec_digits(v / 10) + seq![DOT, (v % 10 + 48) as u8]
}

/// A weight as the engine persists it: one fractional digit.
pub open spec fn render_weight(k: nat) -> Seq<u8> {
    render_tenths(k)
}

/// One persisted record without its newline: `date,time,weight`.
pub open spec fn line_body(w: WeightT) -> Seq<u8> {
    render_date(w.time) + seq![COMMA] + render_time(w.time) + seq![COMMA]
        + render_weight(w.kilo as nat)
}

/// One persisted record: `date,time,weight` and a newline.
pub open spec fn render_line(w: WeightT) -> Seq<u8> {
    line_body(w) + seq![NL]
}

/// A whole log file: the records in order.
pub open spec fn render_log(ws: Seq<WeightT>) -> Seq<u8>
    decreases ws.len(),
{
    if ws.len() == 0 {
        Seq::<u8>::empty()
    } else {
        render_line(ws[0]) + render_log(ws.drop_first())
    }
}

// ---------------------------------------------------------------------------
// Facts about decimal digit strings.
// ---------------------------------------------------------------------------
pub proof fn lemma_dec_digits_bytes(n: nat)
    ensures
        dec_digits(n).len() >= 1,
        all_digits(dec_digits(n)),
    decreases n,
{
    if n >= 10 {
        lemma_dec_digits_bytes(n / 10);
    }
}

pub proof fn lemma_dec_val_digits(n: nat)
    ensures
        dec_val(dec_digits(n)) == n,
    decreases n,
{
    if n < 10 {
        assert(dec_digits(n).drop_last() =~= Seq::<u8>::empty());
        assert(dec_digits(n).last() == (n + 48) as u8);
        assert(digit_val((n + 48) as u8) == n);
        assert(dec_val(Seq::<u8>::empty()) == 0);
        assert(dec_val(dec_digits(n)) == dec_val(dec_digits(n).drop_last()) * 10 + digit_val(
            dec_digits(n).last(),
        ));
    } else {
        lemma_dec_val_digits(n / 10);
        assert(dec_digits(n).drop_last() =~= dec_digits(n / 10));
        assert(dec_digits(n).last() == (n % 10 + 48) as u8);
        assert(digit_val((n % 10 + 48) as u8) == n % 10);
        assert(dec_val(dec_digits(n)) == dec_val(dec_digits(n).drop_last()) * 10 + digit_val(
            dec_digits(n).last(),
        ));
        assert(n / 10 * 10 + n % 10 == n) by (nonlinear_arith);
    }
}

pub proof fn lemma_pow10_values()
    ensures
        pow10(8) == 100000000,
{
    assert(pow10(0) == 1);
    assert(pow10(1) == 10);
    assert(pow10(2) == 100);
    assert(pow10(3) == 1000);
    assert(pow10(4) == 10000);
    assert(pow10(5) == 100000);
    assert(pow10(6) == 1000000);
    assert(pow10(7) == 10000000);
    assert(pow10(8) == 100000000);
}

pub proof fn lemma_dec_val_bound(s: Seq<u8>)
    requires
        all_digits(s),
    ensures
        dec_val(s) < pow10(s.len()),
    decreases s.len(),
{
    if s.len() > 0 {
        lemma_dec_val_bound(s.drop_last());
        assert(dec_val(s.drop_last()) * 10 <= (pow10((s.len() - 1) as nat) - 1) * 10)
            by (nonlinear_arith)
            requires
                dec_val(s.drop_last()) <= pow10((s.len() - 1) as nat) - 1,
        ;
    }
}

pub proof fn lemma_dec_digits_len(n: nat, e: nat)
    requires
        n < pow10(e),
        e >= 1,
    ensures
        dec_digits(n).len() <= e,
    decreases n,
{
    if n >= 10 {
        assert(pow10(e) == 10 * pow10((e - 1) as nat));
        if e == 1 {
            assert(pow10(1) == 10);
            assert(false);
        }
        assert(n / 10 < pow10((e - 1) as nat));
        lemma_dec_digits_len(n / 10, (e - 1) as nat);
    }
}

// ---------------------------------------------------------------------------
// Verified renderers.
// ---------------------------------------------------------------------------
pub fn push_two_digits(out: &mut Vec<u8>, n: u32)
    requires
        n < 100,
    ensures
        final(out)@ == old(out)@ + two_digits(n as nat),
{
    out.push((n / 10) as u8 + 48);
    out.push((n % 10) as u8 + 48);
    proof {
        assert(out@ =~= old(out)@ + two_digits(n as nat));
    }
}

pub fn push_four_digits(out: &mut Vec<u8>, n: u32)
    requires
        n < 10000,
    ensures
        final(out)@ == old(out)@ + four_digits(n as nat),
{
    out.push((n / 1000) as u8 + 48);
    out.push((n / 100 % 10) as u8 + 48);
    out.push((n / 10 % 10) as u8 + 48);
    out.push((n % 10) as u8 + 48);
    proof {
        assert(out@ =~= old(out)@ + four_digits(n as nat));
    }
}

pub fn push_dec(out: &mut Vec<u8>, n: u32)
    ensures
        final(out)@ == old(out)@ + dec_digits(n as nat),
    decreases n,
{
    if n >= 10 {
        push_dec(out, n / 10);
    }
    out.push((n % 10) as u8 + 48);
    proof {
        assert(out@ =~= old(out)@ + dec_digits(n as nat));
    }
}

pub fn push_tenths(out: &mut Vec<u8>, v: u32)
    ensures
        final(out)@ == old(out)@ + render_tenths(v as nat),
{
    push_dec(out, v / 10);
    out.push(DOT);
    out.push((v % 10) as u8 + 48);
    proof {
        assert(out@ =~= old(out)@ + render_tenths(v as nat));
    }
}

/// Render one record exactly as it is persisted.
pub fn render_entry_line(w: &WeightT) -> (r: Vec<u8>)
    requires
        w.time.wf(),
    ensures
        r@ == render_line(*w),
{
    let mut out: Vec<u8> = Vec::new();
    push_four_digits(&mut out, w.time.year);
    out.push(DASH);
    push_two_digits(&mut out, w.time.month);
    out.push(DASH);
    push_two_digits(&mut out, w.time.day);
    out.push(COMMA);
    push_two_digits(&mut out, w.time.hour);
    out.push(COLON);
    push_two_digits(&mut out, w.time.minute);
    out.push(COMMA);
    push_tenths(&mut out, w.kilo);
    out.push(NL);
    proof {
        assert(out@ =~= render_line(*w));
    }
    out
}

// ---------------------------------------------------------------------------
// Parsing: from bytes back to samples.
// ---------------------------------------------------------------------------
pub open spec fn parse_two_at(s: Seq<u8>, i: int) -> nat {
    digit_val(s[i]) * 10 + digit_val(s[i + 1])
}

/// A date field: exactly `YYYY-MM-DD`, naming a real calendar day.
pub open spec fn parse_date_spec(s: Seq<u8>) -> Option<(u32, u32, u32)> {
    if s.len() == 10 && is_digit(s[0]) && is_digit(s[1]) && is_digit(s[2]) && is_digit(s[3]) && s[4]
        == DASH && is_digit(s[5]) && is_digit(s[6]) && s[7] == DASH && is_digit(s[8]) && is_digit(
        s[9],
    ) {
        let y = digit_val(s[0]) * 1000 + digit_val(s[1]) * 100 + digit_val(s[2]) * 10 + digit_val(
            s[3],
        );
        let m = parse_two_at(s, 5);
        let d = parse_two_at(s, 8);
        if 1 <= m <= 12 && 1 <= d <= days_in_month(y, m) {
            Some((y as u32, m as u32, d as u32))
        } else {
            None
        }
    } else {
        None
    }
}

/// A time field: exactly `HH:MM`, 24-hour clock.
pub open spec fn parse_time_spec(s: Seq<u8>) -> Option<(u32, u32)> {
    if s.len() == 5 && is_digit(s[0]) && is_digit(s[1]) && s[2] == COLON && is_digit(s[3])
        && is_digit(s[4]) {
        let h = parse_two_at(s, 0);
        let mi = parse_two_at(s, 3);
        if h <= 23 && mi <= 59 {
            Some((h as u32, mi as u32))
        } else {
            None
        }
    } else {
        None
    }
}

/// A weight field: unsigned decimal digits with an optional point, at
/// least one digit, at most eight integral digits; read in tenths, any
/// digits past the first fractional one discarded.
pub open spec fn parse_weight_spec(s: Seq<u8>) -> Option<u32> {
    let e = first_at(s, DOT) as int;
    let ip = s.take(e);
    let fr = if e < s.len() {
        s.skip(e + 1)
    } else {
        Seq::<u8>::empty()
    };
    if all_digits(ip) && all_digits(fr) && ip.len() + fr.len() >= 1 && ip.len() <= 8 {
        let f = if fr.len() > 0 {
            digit_val(fr[0])
        } else {
            0
        };
        Some((dec_val(ip) * 10 + f) as u32)
    } else {
        None
    }
}

/// What one raw line of the file means.
pub enum LineParse {
    /// A truly empty line: ignored.
    Skip,
    /// A malformed line: the whole load is abandoned.
    Bad,
    /// A well-formed record.
    Entry(WeightT),
}

pub open spec fn strip_cr(s: Seq<u8>) -> Seq<u8> {
    if s.len() > 0 && s.last() == CR {
        s.drop_last()
    } else {
        s
    }
}

pub open spec fn parse_line_spec(raw: Seq<u8>) -> LineParse {
    let s = strip_cr(raw);
    if s.len() == 0 {
        LineParse::Skip
    } else {
        let fields = spec_split(s, COMMA);
        if fields.len() < 3 {
            LineParse::Bad
        } else {
            match (parse_date_spec(fields[0]), parse_time_spec(fields[1]), parse_weight_spec(
                fields[2],
            )) {
                (Some(d), Some(t), Some(k)) => LineParse::Entry(
                    WeightT {
                        kilo: k,
                        time: Timestamp {
                            year: d.0,
                            month: d.1,
                            day: d.2,
                            hour: t.0,
                            minute: t.1,
                        },
                    },
                ),
                _ => LineParse::Bad,
            }
        }
    }
}

/// All-or-nothing parse of a sequence of raw lines.
pub open spec fn parse_lines(lines: Seq<Seq<u8>>) -> Option<Seq<WeightT>>
    decreases lines.len(),
{
    if lines.len() == 0 {
        Some(Seq::<WeightT>::empty())
    } else {
        match parse_line_spec(lines[0]) {
            LineParse::Bad => None,
            LineParse::Skip => parse_lines(lines.drop_first()),
            LineParse::Entry(w) => match parse_lines(lines.drop_first()) {
                None => None,
                Some(rest) => Some(seq![w] + rest),
            },
        }
    }
}

/// What a whole file means: `None` on the first malformed line.
pub open spec fn parse_log_spec(s: Seq<u8>) -> Option<Seq<WeightT>> {
    parse_lines(spec_split(s, NL))
}

pub open spec fn view_samples(r: Option<Vec<WeightT>>) -> Option<Seq<WeightT>> {
    match r {
        Some(v) => Some(v@),
        None => None,
    }
}

pub open spec fn opt_prepend(pre: Seq<WeightT>, o: Option<Seq<WeightT>>) -> Option<Seq<WeightT>> {
    match o {
        Some(t) => Some(pre + t),
        None => None,
    }
}

fn is_digit_x(b: u8) -> (r: bool)
    ensures
        r == is_digit(b),
{
    48 <= b && b <= 57
}

pub fn parse_date(f: &Vec<u8>) -> (r: Option<(u32, u32, u32)>)
    ensures
        r == parse_date_spec(f@),
{
    if f.len() != 10 {
        return None;
    }
    if !(is_digit_x(f[0]) && is_digit_x(f[1]) && is_digit_x(f[2]) && is_digit_x(f[3]) && f[4]
        == DASH && is_digit_x(f[5]) && is_digit_x(f[6]) && f[7] == DASH && is_digit_x(f[8])
        && is_digit_x(f[9])) {
        return None;
    }
    let y: u32 = (f[0] - 48) as u32 * 1000 + (f[1] - 48) as u32 * 100 + (f[2] - 48) as u32 * 10 + (
    f[3] - 48) as u32;
    let m: u32 = (f[5] - 48) as u32 * 10 + (f[6] - 48) as u32;
    let d: u32 = (f[8] - 48) as u32 * 10 + (f[9] - 48) as u32;
    if 1 <= m && m <= 12 && 1 <= d && d <= days_in_month_x(y, m) {
        Some((y, m, d))
    } else {
        None
    }
}

pub fn parse_time(f: &Vec<u8>) -> (r: Option<(u32, u32)>)
    ensures
        r == parse_time_spec(f@),
{
    if f.len() != 5 {
        return None;
    }
    if !(is_digit_x(f[0]) && is_digit_x(f[1]) && f[2] == COLON && is_digit_x(f[3]) && is_digit_x(
        f[4],
    )) {
        return None;
    }
    let h: u32 = (f[0] - 48) as u32 * 10 + (f[1] - 48) as u32;
    let mi: u32 = (f[3] - 48) as u32 * 10 + (f[4] - 48) as u32;
    if h <= 23 && mi <= 59 {
        Some((h, mi))
    } else {
        None
    }
}

pub fn parse_weight(f: &Vec<u8>) -> (r: Option<u32>)
    ensures
        r == parse_weight_spec(f@),
{
    let n = f.len();
    let mut e: usize = 0;
    while e < n && f[e] != DOT
        invariant
            n == f.len(),
            0 <= e <= n,
            forall|k: int| 0 <= k < e ==> f@[k] != DOT,
        decreases n - e,
    {
        e += 1;
    }
    proof {
        if e < n {
            lemma_first_at_found(f@, DOT, e as int);
        } else {
            lemma_first_at_none(f@, DOT);
        }
    }
    let ghost ip = f@.take(e as int);
    let ghost fr = if e < n {
        f@.skip(e as int + 1)
    } else {
        Seq::<u8>::empty()
    };
    if e > 8 {
        return None;
    }
    let frac_len = if e < n {
        n - e - 1
    } else {
        0
    };
    if e + frac_len < 1 {
        return None;
    }
    // integral digits
    let mut i: usize = 0;
    let mut acc: u32 = 0;
    proof {
        lemma_pow10_values();
        assert(f@.take(0) =~= Seq::<u8>::empty());
    }
    while i < e
        invariant
            i <= e <= n,
            e <= 8,
            n == f.len(),
            first_at(f@, DOT) == e as nat,
            ip == f@.take(e as int),
            all_digits(f@.take(i as int)),
            acc as nat == dec_val(f@.take(i as int)),
            acc <= 99999999,
        decreases e - i,
    {
        let b = f[i];
        if !is_digit_x(b) {
            proof {
                assert(ip[i as int] == b);
                assert(!all_digits(ip));
            }
            return None;
        }
        proof {
            let pre = f@.take(i as int);
            let nxt = f@.take(i + 1);
            assert(nxt.drop_last() =~= pre);
            assert(nxt.last() == b);
            assert(all_digits(nxt)) by {
                assert(forall|k: int| 0 <= k < nxt.len() ==> nxt[k] == f@.take(i + 1)[k]);
            }
            lemma_dec_val_bound(nxt);
            lemma_pow10_values();
            assert(nxt.len() <= 8);
            assert(pow10(nxt.len()) <= pow10(8)) by {
                lemma_pow10_increases(nxt.len(), 8);
            }
        }
        acc = acc * 10 + (b - 48) as u32;
        i += 1;
    }
    proof {
        assert(f@.take(e as int) =~= ip);
        assert(acc as nat == dec_val(ip));
        assert(all_digits(ip));
    }
    // fractional digits
    let mut fd: u32 = 0;
    if e < n {
        let mut j: usize = e + 1;
        while j < n
            invariant
                e + 1 <= j <= n,
                e < n,
                n == f.len(),
                first_at(f@, DOT) == e as nat,
                fr == f@.skip(e as int + 1),
                forall|k: int| e + 1 <= k < j ==> is_digit(#[trigger] f@[k]),
            decreases n - j,
        {
            let b = f[j];
            if !is_digit_x(b) {
                proof {
                    assert(fr[j - e - 1] == b);
                    assert(!all_digits(fr));
                }
                return None;
            }
            j += 1;
        }
        proof {
            assert(forall|k: int| 0 <= k < fr.len() ==> fr[k] == f@[k + e + 1]);
            assert(all_digits(fr));
        }
        if e + 1 < n {
            fd = (f[e + 1] - 48) as u32;
            proof {
                assert(fr[0] == f@[e as int + 1]);
            }
        }
    }
    Some(acc * 10 + fd)
}

pub proof fn lemma_pow10_increases(a: nat, b: nat)
    requires
        a <= b,
    ensures
        pow10(a) <= pow10(b),
    decreases b,
{
    if a < b {
        lemma_pow10_increases(a, (b - 1) as nat);
        assert(pow10(b) == 10 * pow10((b - 1) as nat));
        assert(pow10((b - 1) as nat) >= 1) by {
            lemma_pow10_pos((b - 1) as nat);
        }
    }
}

pub proof fn lemma_pow10_pos(e: nat)
    ensures
        pow10(e) >= 1,
    decreases e,
{
    if e > 0 {
        lemma_pow10_pos((e - 1) as nat);
    }
}

/// Parse one raw line of the file.
pub fn parse_line(raw: &Vec<u8>) -> (r: LineParse)
    ensures
        r == parse_line_spec(raw@),
{
    let n = if raw.len() > 0 && raw[raw.len() - 1] == CR {
        raw.len() - 1
    } else {
        raw.len()
    };
    let mut s: Vec<u8> = Vec::new();
    let mut i: usize = 0;
    while i < n
        invariant
            i <= n <= raw.len(),
            s@ == raw@.take(i as int),
        decreases n - i,
    {
        let b = raw[i];
        s.push(b);
        proof {
            assert(s@ =~= raw@.take(i + 1));
        }
        i += 1;
    }
    proof {
        assert(s@ =~= strip_cr(raw@));
    }
    if s.len() == 0 {
        return LineParse::Skip;
    }
    let fields = split_bytes(&s, COMMA);
    proof {
        assert(seq_views(fields@).len() == fields@.len());
    }
    if fields.len() < 3 {
        return LineParse::Bad;
    }
    proof {
        assert(seq_views(fields@)[0] == fields@[0]@);
        assert(seq_views(fields@)[1] == fields@[1]@);
        assert(seq_views(fields@)[2] == fields@[2]@);
    }
    let date = parse_date(&fields[0]);
    let time = parse_time(&fields[1]);
    let kilo = parse_weight(&fields[2]);
    match (date, time, kilo) {
        (Some(d), Some(t), Some(k)) => LineParse::Entry(
            WeightT {
                kilo: k,
                time: Timestamp { year: d.0, month: d.1, day: d.2, hour: t.0, minute: t.1 },
            },
        ),
        _ => LineParse::Bad,
    }
}

/// Parse a whole file. `None` exactly when some line is malformed; then
/// the caller falls back to an empty log, never a partial one.
pub fn parse_log(contents: &Vec<u8>) -> (r: Option<Vec<WeightT>>)
    ensures
        view_samples(r) == parse_log_spec(contents@),
{
    let lines = split_bytes(contents, NL);
    let ghost lv = seq_views(lines@);
    let mut acc: Vec<WeightT> = Vec::new();
    let mut j: usize = 0;
    proof {
        assert(lv.skip(0) =~= lv);
        assert(opt_prepend(acc@, parse_lines(lv)) == parse_lines(lv));
    }
    while j < lines.len()
        invariant
            j <= lines.len(),
            lv == seq_views(lines@),
            lv.len() == lines@.len(),
            parse_log_spec(contents@) == parse_lines(lv),
            parse_lines(lv) == opt_prepend(acc@, parse_lines(lv.skip(j as int))),
        decreases lines.len() - j,
    {
        proof {
            assert(lv.skip(j as int).len() > 0);
            assert(lv.skip(j as int)[0] == lv[j as int]);
            assert(lv.skip(j as int).drop_first() =~= lv.skip(j + 1));
            assert(lv[j as int] == lines@[j as int]@);
        }
        match parse_line(&lines[j]) {
            LineParse::Bad => {
                return None;
            },
            LineParse::Skip => {},
            LineParse::Entry(w) => {
                proof {
                    let tail = parse_lines(lv.skip(j + 1));
                    if tail is Some {
                        assert(acc@ + (seq![w] + tail->0) =~= acc@.push(w) + tail->0);
                    }
                }
                acc.push(w);
            },
        }
        j += 1;
    }
    proof {
        assert(lv.skip(lines@.len() as int) =~= Seq::<Seq<u8>>::empty());
        assert(acc@ + Seq::<WeightT>::empty() =~= acc@);
    }
    Some(acc)
}

// ---------------------------------------------------------------------------
// Human-readable rendering.
// ---------------------------------------------------------------------------
/// The bytes of `" days ago"`.
pub open spec fn days_ago_suffix() -> Seq<u8> {
    seq![SPACE, 100, 97, 121, 115, SPACE, 97, 103, 111]
}

/// The bytes of `" kg"`.
pub open spec fn kg_suffix() -> Seq<u8> {
    seq![SPACE, 107, 103]
}

/// An age in whole hours shown as days with one decimal, rounded half up:
/// `D.T days ago`.
pub open spec fn render_age(hours: int) -> Seq<u8>
    recommends
        0 <= hours,
{
    render_tenths(((hours * 10 + 12) / 24) as nat) + days_ago_suffix()
}

/// A weight shown plainly: the fractional digit only when it is not zero.
pub open spec fn render_weight_plain(k: nat) -> Seq<u8> {
    if k % 10 == 0 {
        dec_digits(k / 10)
    } else {
        render_tenths(k)
    }
}

/// One sample's display form: `date time (age days ago) weight kg`.
pub open spec fn render_human_line(w: WeightT, hours: int) -> Seq<u8> {
    render_date(w.time) + seq![SPACE] + render_time(w.time) + seq![SPACE, 40u8] + render_age(hours)
        + seq![41u8, SPACE] + render_weight_plain(w.kilo as nat) + kg_suffix()
}

/// Render an age in hours as `D.T days ago`.
pub fn age_text(hours: i64) -> (r: Vec<u8>)
    requires
        0 <= hours <= crate::weight::MAX_AGE_HOURS,
    ensures
        r@ == render_age(hours as int),
{
    let tenths: u64 = ((hours as u64) * 10 + 12) / 24;
    let mut out: Vec<u8> = Vec::new();
    push_tenths(&mut out, tenths as u32);
    out.push(SPACE);
    out.push(100);
    out.push(97);
    out.push(121);
    out.push(115);
    out.push(SPACE);
    out.push(97);
    out.push(103);
    out.push(111);
    proof {
        assert(out@ =~= render_age(hours as int));
    }
    out
}

pub fn push_weight_plain(out: &mut Vec<u8>, k: u32)
    ensures
        final(out)@ == old(out)@ + render_weight_plain(k as nat),
{
    if k % 10 == 0 {
        push_dec(out, k / 10);
    } else {
        push_tenths(out, k);
    }
}

/// Render one sample's display line given its age in hours.
pub fn human_line(w: &WeightT, hours: i64) -> (r: Vec<u8>)
    requires
        w.time.wf(),
        0 <= hours <= crate::weight::MAX_AGE_HOURS,
    ensures
        r@ == render_human_line(*w, hours as int),
{
    let mut out: Vec<u8> = Vec::new();
    push_four_digits(&mut out, w.time.year);
    out.push(DASH);
    push_two_digits(&mut out, w.time.month);
    out.push(DASH);
    push_two_digits(&mut out, w.time.day);
    out.push(SPACE);
    push_two_digits(&mut out, w.time.hour);
    out.push(COLON);
    push_two_digits(&mut out, w.time.minute);
    out.push(SPACE);
    out.push(40);
    let age = age_text(hours);
    let ghost old_out_view = out@;
    let mut i: usize = 0;
    proof {
        assert(out@ =~= old_out_view + age@.take(0));
    }
    while i < age.len()
        invariant
            i <= age.len(),
            out@ == old_out_view + age@.take(i as int),
        decreases age.len() - i,
    {
        let b = age[i];
        out.push(b);
        proof {
            assert(out@ =~= old_out_view + age@.take(i + 1));
        }
        i += 1;
    }
    out.push(41);
    out.push(SPACE);
    push_weight_plain(&mut out, w.kilo);
    out.push(SPACE);
    out.push(107);
    out.push(103);
    proof {
        assert(out@ =~= render_human_line(*w, hours as int));
    }
    out
}

/// The exec renderer for a date field alone.
pub fn render_date_x(t: &Timestamp) -> (r: Vec<u8>)
    requires
        t.wf(),
    ensures
        r@ == render_date(*t),
{
    let mut out: Vec<u8> = Vec::new();
    push_four_digits(&mut out, t.year);
    out.push(DASH);
    push_two_digits(&mut out, t.month);
    out.push(DASH);
    push_two_digits(&mut out, t.day);
    proof {
        assert(out@ =~= render_date(*t));
    }
    out
}

/// The exec renderer for a time field alone.
pub fn render_time_x(t: &Timestamp) -> (r: Vec<u8>)
    requires
        t.wf(),
    ensures
        r@ == render_time(*t),
{
    let mut out: Vec<u8> = Vec::new();
    push_two_digits(&mut out, t.hour);
    out.push(COLON);
    push_two_digits(&mut out, t.minute);
    proof {
        assert(out@ =~= render_time(*t));
    }
    out
}

// ---------------------------------------------------------------------------
// Parsing inverts rendering.
// ---------------------------------------------------------------------------
/// Bytes that may stand inside a rendered field: digits and the three
/// punctuation marks; never a comma, newline or carriage return.
pub open spec fn text_byte(b: u8) -> bool {
    is_digit(b) || b == DASH || b == COLON || b == DOT
}

pub proof fn lemma_render_date_bytes(t: Timestamp)
    ensures
        render_date(t).len() == 10,
        forall|i: int| 0 <= i < 10 ==> text_byte(#[trigger] render_date(t)[i]),
{
    let s = render_date(t);
    let y = t.year as nat;
    let m = t.month as nat;
    let d = t.day as nat;
    assert(s[0] == (y / 1000 % 10 + 48) as u8);
    assert(s[1] == (y / 100 % 10 + 48) as u8);
    assert(s[2] == (y / 10 % 10 + 48) as u8);
    assert(s[3] == (y % 10 + 48) as u8);
    assert(s[4] == DASH);
    assert(s[5] == (m / 10 % 10 + 48) as u8);
    assert(s[6] == (m % 10 + 48) as u8);
    assert(s[7] == DASH);
    assert(s[8] == (d / 10 % 10 + 48) as u8);
    assert(s[9] == (d % 10 + 48) as u8);
}

pub proof fn lemma_render_time_bytes(t: Timestamp)
    ensures
        render_time(t).len() == 5,
        forall|i: int| 0 <= i < 5 ==> text_byte(#[trigger] render_time(t)[i]),
{
    let s = render_time(t);
    let h = t.hour as nat;
    let mi = t.minute as nat;
    assert(s[0] == (h / 10 % 10 + 48) as u8);
    assert(s[1] == (h % 10 + 48) as u8);
    assert(s[2] == COLON);
    assert(s[3] == (mi / 10 % 10 + 48) as u8);
    assert(s[4] == (mi % 10 + 48) as u8);
}

pub proof fn lemma_render_weight_bytes(k: nat)
    ensures
        render_weight(k).len() >= 3,
        forall|i: int| 0 <= i < render_weight(k).len() ==> text_byte(#[trigger] render_weight(k)[i]),
        is_digit(render_weight(k).last()),
{
    let s = render_weight(k);
    let dd = dec_digits(k / 10);
    lemma_dec_digits_bytes(k / 10);
    assert(forall|i: int| 0 <= i < dd.len() ==> text_byte(#[trigger] s[i]));
    assert(s[dd.len() as int] == DOT);
    assert(s[dd.len() as int + 1] == (k % 10 + 48) as u8);
    assert(s.last() == (k % 10 + 48) as u8);
}

pub proof fn lemma_parse_render_date(t: Timestamp)
    requires
        t.year <= 9999,
        1 <= t.month <= 12,
        1 <= t.day,
        t.day as nat <= days_in_month(t.year as nat, t.month as nat),
    ensures
        parse_date_spec(render_date(t)) == Some((t.year, t.month, t.day)),
{
    let s = render_date(t);
    let y = t.year as nat;
    let m = t.month as nat;
    let d = t.day as nat;
    lemma_render_date_bytes(t);
    assert(s[0] == (y / 1000 % 10 + 48) as u8);
    assert(s[1] == (y / 100 % 10 + 48) as u8);
    assert(s[2] == (y / 10 % 10 + 48) as u8);
    assert(s[3] == (y % 10 + 48) as u8);
    assert(s[4] == DASH);
    assert(s[5] == (m / 10 % 10 + 48) as u8);
    assert(s[6] == (m % 10 + 48) as u8);
    assert(s[7] == DASH);
    assert(s[8] == (d / 10 % 10 + 48) as u8);
    assert(s[9] == (d % 10 + 48) as u8);
    assert(y == y / 1000 % 10 * 1000 + y / 100 % 10 * 100 + y / 10 % 10 * 10 + y % 10)
        by (nonlinear_arith)
        requires
            y <= 9999,
    ;
    assert(m == m / 10 % 10 * 10 + m % 10) by (nonlinear_arith)
        requires
            m <= 12,
    ;
    assert(d == d / 10 % 10 * 10 + d % 10) by (nonlinear_arith)
        requires
            d <= 31,
    ;
}

pub proof fn lemma_parse_render_time(t: Timestamp)
    requires
        t.hour <= 23,
        t.minute <= 59,
    ensures
        parse_time_spec(render_time(t)) == Some((t.hour, t.minute)),
{
    let s = render_time(t);
    let h = t.hour as nat;
    let mi = t.minute as nat;
    lemma_render_time_bytes(t);
    assert(s[0] == (h / 10 % 10 + 48) as u8);
    assert(s[1] == (h % 10 + 48) as u8);
    assert(s[2] == COLON);
    assert(s[3] == (mi / 10 % 10 + 48) as u8);
    assert(s[4] == (mi % 10 + 48) as u8);
    assert(h == h / 10 % 10 * 10 + h % 10) by (nonlinear_arith)
        requires
            h <= 23,
    ;
    assert(mi == mi / 10 % 10 * 10 + mi % 10) by (nonlinear_arith)
        requires
            mi <= 59,
    ;
}

pub proof fn lemma_parse_render_weight(k: u32)
    requires
        k <= 999999999,
    ensures
        parse_weight_spec(render_weight(k as nat)) == Some(k),
{
    let s = render_weight(k as nat);
    let dd = dec_digits(k as nat / 10);
    lemma_dec_digits_bytes(k as nat / 10);
    lemma_pow10_values();
    lemma_dec_digits_len(k as nat / 10, 8);
    assert(s[dd.len() as int] == DOT);
    assert(forall|i: int| 0 <= i < dd.len() ==> s[i] == dd[i] && is_digit(#[trigger] dd[i]));
    lemma_first_at_found(s, DOT, dd.len() as int);
    assert(s.take(dd.len() as int) =~= dd);
    assert(s.skip(dd.len() as int + 1) =~= seq![(k as nat % 10 + 48) as u8]);
    lemma_dec_val_digits(k as nat / 10);
    assert(k as nat / 10 * 10 + k as nat % 10 == k as nat) by (nonlinear_arith);
}

/// A record's body parses back to the record, and holds no newline.
pub proof fn lemma_line_round_trip(w: WeightT)
    requires
        w.wf(),
    ensures
        parse_line_spec(line_body(w)) == LineParse::Entry(w),
        forall|i: int| 0 <= i < line_body(w).len() ==> line_body(w)[i] != NL,
        line_body(w).len() > 0,
{
    let rd = render_date(w.time);
    let rt = render_time(w.time);
    let rw = render_weight(w.kilo as nat);
    let body = line_body(w);
    lemma_render_date_bytes(w.time);
    lemma_render_time_bytes(w.time);
    lemma_render_weight_bytes(w.kilo as nat);
    assert(forall|i: int| 0 <= i < body.len() ==> body[i] != NL && body[i] != CR) by {
        assert(forall|i: int| 0 <= i < rd.len() ==> #[trigger] body[i] == rd[i]);
        assert(body[rd.len() as int] == COMMA);
        assert(forall|i: int|
            0 <= i < rt.len() ==> #[trigger] body[rd.len() + 1 + i] == rt[i]);
        assert(body[rd.len() as int + 1 + rt.len() as int] == COMMA);
        assert(forall|i: int|
            0 <= i < rw.len() ==> #[trigger] body[rd.len() + rt.len() + 2 + i] == rw[i]);
        assert forall|i: int| 0 <= i < body.len() implies body[i] != NL && body[i] != CR by {
            if i < rd.len() {
                assert(text_byte(body[i]));
            } else if i == rd.len() {
            } else if i < rd.len() + 1 + rt.len() {
                assert(body[i] == rt[i - rd.len() - 1]);
                assert(text_byte(body[i]));
            } else if i == rd.len() + 1 + rt.len() {
            } else {
                assert(body[i] == rw[i - rd.len() - rt.len() - 2]);
                assert(text_byte(body[i]));
            }
        }
    }
    // the body ends in a digit, so nothing is stripped
    assert(body.last() == rw.last());
    assert(strip_cr(body) =~= body);
    // the two commas split it into exactly the three rendered fields
    assert(forall|i: int| 0 <= i < rd.len() ==> #[trigger] rd[i] != COMMA);
    assert(forall|i: int| 0 <= i < rt.len() ==> #[trigger] rt[i] != COMMA);
    assert(forall|i: int| 0 <= i < rw.len() ==> #[trigger] rw[i] != COMMA);
    let rest1 = rt + seq![COMMA] + rw;
    assert(body =~= rd + seq![COMMA] + rest1);
    lemma_split_prefix(rd, rest1, COMMA);
    lemma_split_prefix(rt, rw, COMMA);
    lemma_split_no_delim(rw, COMMA);
    let fields = spec_split(body, COMMA);
    assert(fields =~= seq![rd, rt, rw]);
    lemma_parse_render_date(w.time);
    lemma_parse_render_time(w.time);
    lemma_parse_render_weight(w.kilo);
}

/// Round trip (one direction per record, lifted to whole files below):
/// a file rendered from any sequence of well-formed samples parses back
/// to exactly that sequence.
#[verifier::rlimit(60)]
pub proof fn lemma_log_round_trip(ws: Seq<WeightT>)
    requires
        forall|i: int| 0 <= i < ws.len() ==> #[trigger] ws[i].wf(),
    ensures
        parse_log_spec(render_log(ws)) == Some(ws),
    decreases ws.len(),
{
    if ws.len() == 0 {
        let s = render_log(ws);
        assert(s =~= Seq::<u8>::empty());
        assert(first_at(s, NL) == 0);
        assert(spec_split(s, NL) =~= seq![s]);
        assert(parse_line_spec(s) == LineParse::Skip);
        assert(spec_split(s, NL).drop_first() =~= Seq::<Seq<u8>>::empty());
        assert(parse_lines(Seq::<Seq<u8>>::empty()) == Some(Seq::<WeightT>::empty()));
        assert(parse_lines(spec_split(s, NL)) == parse_lines(spec_split(s, NL).drop_first()));
        assert(parse_lines(spec_split(s, NL)) == Some(Seq::<WeightT>::empty()));
        assert(Some(Seq::<WeightT>::empty()) == Some(ws));
    } else {
        let w = ws[0];
        let rest = render_log(ws.drop_first());
        let body = line_body(w);
        lemma_line_round_trip(w);
        assert(render_log(ws) =~= body + seq![NL] + rest);
        lemma_split_prefix(body, rest, NL);
        assert(forall|i: int|
            0 <= i < ws.drop_first().len() ==> #[trigger] ws.drop_first()[i].wf()) by {
            assert(forall|i: int|
                0 <= i < ws.drop_first().len() ==> ws.drop_first()[i] == ws[i + 1]);
        }
        lemma_log_round_trip(ws.drop_first());
        let lines = spec_split(render_log(ws), NL);
        assert(lines == seq![body] + spec_split(rest, NL));
        assert(lines[0] == body);
        assert(lines.drop_first() =~= spec_split(rest, NL));
        assert(parse_lines(lines) == Some(seq![w] + ws.drop_first()));
        assert(seq![w] + ws.drop_first() =~= ws);
    }
}

/// Every record a successful parse yields is well formed.
pub proof fn lemma_parse_line_wf(raw: Seq<u8>)
    ensures
        parse_line_spec(raw) matches LineParse::Entry(w) ==> w.wf(),
{
    let s = strip_cr(raw);
    if s.len() > 0 {
        let fields = spec_split(s, COMMA);
        if fields.len() >= 3 {
            if parse_weight_spec(fields[2]) is Some {
                let f2 = fields[2];
                let e = first_at(f2, DOT) as int;
                let ip = f2.take(e);
                if all_digits(ip) && ip.len() <= 8 {
                    lemma_dec_val_bound(ip);
                    lemma_pow10_values();
                    lemma_pow10_increases(ip.len(), 8);
                }
            }
        }
    }
}

pub proof fn lemma_parse_lines_wf(lines: Seq<Seq<u8>>, ws: Seq<WeightT>)
    requires
        parse_lines(lines) == Some(ws),
    ensures
        forall|i: int| 0 <= i < ws.len() ==> (#[trigger] ws[i]).wf(),
    decreases lines.len(),
{
    if lines.len() > 0 {
        lemma_parse_line_wf(lines[0]);
        match parse_line_spec(lines[0]) {
            LineParse::Bad => {
                assert(false);
            },
            LineParse::Skip => {
                lemma_parse_lines_wf(lines.drop_first(), ws);
            },
            LineParse::Entry(w) => {
                match parse_lines(lines.drop_first()) {
                    None => {
                        assert(false);
                    },
                    Some(rest) => {
                        lemma_parse_lines_wf(lines.drop_first(), rest);
                        assert(ws == seq![w] + rest);
                        assert forall|i: int| 0 <= i < ws.len() implies (#[trigger] ws[i]).wf() by {
                            if i == 0 {
                                assert(ws[0] == w);
                            } else {
                                assert(ws[i] == rest[i - 1]);
                            }
                        }
                    },
                }
            },
        }
    }
}

/// One bad line voids the whole load.
pub proof fn lemma_bad_line_kills(lines: Seq<Seq<u8>>, j: int)
    requires
        0 <= j < lines.len(),
        parse_line_spec(lines[j]) == LineParse::Bad,
    ensures
        parse_lines(lines) is None,
    decreases lines.len(),
{
    if j > 0 {
        assert(lines.drop_first()[j - 1] == lines[j]);
        lemma_bad_line_kills(lines.drop_first(), j - 1);
    }
}

/// The malformed-line policy: a file with any non-empty line of fewer
/// than three comma-separated fields loads as nothing at all.
pub proof fn lemma_malformed_line_empties(c: Seq<u8>, j: int)
    requires
        0 <= j < spec_split(c, NL).len(),
        strip_cr(spec_split(c, NL)[j]).len() > 0,
        spec_split(strip_cr(spec_split(c, NL)[j]), COMMA).len() < 3,
    ensures
        parse_log_spec(c) is None,
{
    let line = spec_split(c, NL)[j];
    assert(parse_line_spec(line) == LineParse::Bad);
    lemma_bad_line_kills(spec_split(c, NL), j);
}

} // verus!
