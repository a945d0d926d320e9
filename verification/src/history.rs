//! Historical records of completed runs and the log line codec.
//!
//! One record per line, the four fields space-separated in the order
//! `timestamp accuracy wpm cpm`, each a decimal integer (rates in
//! milli-units), the line closed by a newline byte. Reading is atomic: one
//! malformed line makes the whole log unreadable. A trailing newline after
//! the last line is accepted but not required. Appending records and reading
//! them back yields the same records in the same order, without loss.
use vstd::prelude::*;

verus! {

/// A persisted summary of one completed run.
#[derive(Clone, Copy, PartialEq, Eq, Structural, Debug)]
pub struct Record {
    /// Wall-clock seconds since the Unix epoch when the run ended.
    pub time_s: u64,
    /// Accuracy of the run in milli-units, at most one thousand.
    pub accuracy_milli: u64,
    /// Correctness-weighted words per minute, in milli-units.
    pub wpm_milli: u64,
    /// Correctness-weighted characters per minute, in milli-units.
    pub cpm_milli: u64,
}

pub open spec fn sp() -> u8 {
    32
}

pub open spec fn nl() -> u8 {
    10
}

pub open spec fn is_digit(b: u8) -> bool {
    48 <= b <= 57
}

pub open spec fn all_digits(s: Seq<u8>) -> bool {
    forall|j: int| 0 <= j < s.len() ==> is_digit(#[trigger] s[j])
}

/// The decimal digits of a non-negative number, most significant first.
pub open spec fn dec_digits(n: int) -> Seq<u8>
    recommends
        n >= 0,
    decreases n,
{
    if n < 10 {
        seq![(48 + n) as u8]
    } else {
        dec_digits(n / 10).push((48 + n % 10) as u8)
    }
}

/// The number a digit string denotes.
pub open spec fn val(s: Seq<u8>) -> int
    decreases s.len(),
{
    if s.len() == 0 {
        0
    } else {
        val(s.drop_last()) * 10 + (s.last() - 48)
    }
}

/// A numeric field: non-empty, all digits, value within 64 bits.
pub open spec fn parse_field_spec(s: Seq<u8>) -> Option<u64> {
    if s.len() > 0 && all_digits(s) && val(s) <= u64::MAX {
        Some(val(s) as u64)
    } else {
        None
    }
}

/// Index of the first occurrence of `sep`, or the length when absent.
pub open spec fn find_sep(s: Seq<u8>, sep: u8) -> int
    decreases s.len(),
{
    if s.len() == 0 {
        0
    } else if s[0] == sep {
        0
    } else {
        1 + find_sep(s.drop_first(), sep)
    }
}

pub proof fn lemma_find_sep_props(s: Seq<u8>, sep: u8)
    ensures
        0 <= find_sep(s, sep) <= s.len(),
        find_sep(s, sep) < s.len() ==> s[find_sep(s, sep)] == sep,
        forall|j: int| 0 <= j < find_sep(s, sep) ==> s[j] != sep,
    decreases s.len(),
{
    if s.len() > 0 && s[0] != sep {
        lemma_find_sep_props(s.drop_first(), sep);
        assert forall|j: int| 0 <= j < find_sep(s, sep) implies s[j] != sep by {
            if j > 0 {
                assert(s.drop_first()[j - 1] == s[j]);
            }
        }
    }
}

pub proof fn lemma_find_sep_at(s: Seq<u8>, sep: u8, i: int)
    requires
        0 <= i <= s.len(),
        forall|j: int| 0 <= j < i ==> s[j] != sep,
        i < s.len() ==> s[i] == sep,
    ensures
        find_sep(s, sep) == i,
    decreases s.len(),
{
    if s.len() == 0 {
    } else if s[0] == sep {
        assert(i == 0);
    } else {
        assert(i >= 1);
        let d = s.drop_first();
        assert forall|j: int| 0 <= j < i - 1 implies d[j] != sep by {
            assert(d[j] == s[j + 1]);
        }
        if i - 1 < d.len() {
            assert(d[i - 1] == s[i]);
        }
        lemma_find_sep_at(d, sep, i - 1);
    }
}

/// One line: exactly four space-separated numeric fields.
pub open spec fn parse_record_spec(line: Seq<u8>) -> Option<Record> {
    let i1 = find_sep(line, sp());
    if i1 < 0 || i1 >= line.len() {
        None
    } else {
        let f1 = line.subrange(0, i1);
        let r1 = line.subrange(i1 + 1, line.len() as int);
        let i2 = find_sep(r1, sp());
        if i2 < 0 || i2 >= r1.len() {
            None
        } else {
            let f2 = r1.subrange(0, i2);
            let r2 = r1.subrange(i2 + 1, r1.len() as int);
            let i3 = find_sep(r2, sp());
            if i3 < 0 || i3 >= r2.len() {
                None
            } else {
                let f3 = r2.subrange(0, i3);
                let f4 = r2.subrange(i3 + 1, r2.len() as int);
                if find_sep(f4, sp()) < f4.len() {
                    None
                } else {
                    match (parse_field_spec(f1), parse_field_spec(f2), parse_field_spec(f3),
                    parse_field_spec(f4)) {
                        (Some(t), Some(a), Some(w), Some(c)) => Some(
                            Record {
                                time_s: t,
                                accuracy_milli: a,
                                wpm_milli: w,
                                cpm_milli: c,
                            },
                        ),
                        _ => None,
                    }
                }
            }
        }
    }
}

/// The whole log: records line by line, atomically. An empty log holds no
/// records; an empty tail after the final newline is not a line.
pub open spec fn parse_log_spec(content: Seq<u8>) -> Option<Seq<Record>>
    decreases content.len(),
{
    if content.len() == 0 {
        Some(Seq::empty())
    } else {
        let i = find_sep(content, nl());
        let line = if i < 0 || i >= content.len() {
            content
        } else {
            content.subrange(0, i)
        };
        let rest = if i < 0 || i >= content.len() {
            Seq::<u8>::empty()
        } else {
            content.subrange(i + 1, content.len() as int)
        };
        match parse_record_spec(line) {
            None => None,
            Some(r) => match parse_log_spec(rest) {
                None => None,
                Some(rs) => Some(seq![r] + rs),
            },
        }
    }
}

/// The line of one record, without its closing newline.
pub open spec fn record_body_spec(r: Record) -> Seq<u8> {
    dec_digits(r.time_s as int) + seq![sp()] + dec_digits(r.accuracy_milli as int) + seq![sp()]
        + dec_digits(r.wpm_milli as int) + seq![sp()] + dec_digits(r.cpm_milli as int)
}

/// The line of one record, closed by a newline.
pub open spec fn render_record_spec(r: Record) -> Seq<u8> {
    record_body_spec(r) + seq![nl()]
}

/// The whole log of a run of records, in order.
pub open spec fn render_log_spec(records: Seq<Record>) -> Seq<u8>
    decreases records.len(),
{
    if records.len() == 0 {
        Seq::empty()
    } else {
        render_record_spec(records[0]) + render_log_spec(records.drop_first())
    }
}

pub proof fn lemma_dec_digits_props(n: int)
    requires
        n >= 0,
    ensures
        dec_digits(n).len() >= 1,
        all_digits(dec_digits(n)),
        val(dec_digits(n)) == n,
    decreases n,
{
    if n < 10 {
        assert(val(dec_digits(n)) == val(Seq::<u8>::empty()) * 10 + ((48 + n) as u8 - 48)) by {
            assert(dec_digits(n).drop_last() =~= Seq::<u8>::empty());
        }
    } else {
        lemma_dec_digits_props(n / 10);
        vstd::arithmetic::div_mod::lemma_fundamental_div_mod(n, 10);
        let d = dec_digits(n / 10);
        assert(dec_digits(n) == d.push((48 + n % 10) as u8));
        assert(dec_digits(n).drop_last() =~= d);
        assert(val(dec_digits(n)) == val(d) * 10 + n % 10);
        assert forall|j: int| 0 <= j < dec_digits(n).len() implies is_digit(
            #[trigger] dec_digits(n)[j],
        ) by {
            if j < d.len() {
                assert(dec_digits(n)[j] == d[j]);
            }
        }
    }
}

/// A digit string's prefixes never denote more than the whole string.
pub proof fn lemma_val_monotone(s: Seq<u8>, i: int)
    requires
        all_digits(s),
        0 <= i <= s.len(),
    ensures
        0 <= val(s.take(i)) <= val(s),
    decreases s.len(),
{
    if s.len() == 0 {
        assert(s.take(i) =~= s);
    } else if i == s.len() {
        assert(s.take(i) =~= s);
        lemma_val_monotone(s.drop_last(), s.len() - 1);
        assert(s.drop_last().take(s.len() - 1) =~= s.drop_last());
    } else {
        assert(all_digits(s.drop_last()));
        lemma_val_monotone(s.drop_last(), i);
        assert(s.drop_last().take(i) =~= s.take(i));
        lemma_val_monotone(s.drop_last(), s.len() - 1);
        assert(s.drop_last().take(s.len() - 1) =~= s.drop_last());
        assert(val(s) == val(s.drop_last()) * 10 + (s.last() - 48));
        assert(val(s.drop_last()) * 10 >= val(s.drop_last())) by (nonlinear_arith)
            requires
                val(s.drop_last()) >= 0,
        ;
    }
}

pub proof fn lemma_parse_field_of_dec(n: u64)
    ensures
        parse_field_spec(dec_digits(n as int)) == Some(n),
{
    lemma_dec_digits_props(n as int);
}

/// Splitting at the first separator of `x + [sep] + y` recovers `x` and `y`.
proof fn lemma_affix(x: Seq<u8>, y: Seq<u8>, sep: u8)
    requires
        forall|j: int| 0 <= j < x.len() ==> x[j] != sep,
    ensures
        find_sep(x + seq![sep] + y, sep) == x.len(),
        (x + seq![sep] + y).subrange(0, x.len() as int) == x,
        (x + seq![sep] + y).subrange((x.len() + 1) as int, (x.len() + 1 + y.len()) as int) == y,
{
    let s = x + seq![sep] + y;
    assert(s.len() == x.len() + 1 + y.len());
    assert forall|j: int| 0 <= j < x.len() implies s[j] != sep by {
        assert(s[j] == x[j]);
    }
    assert(s[x.len() as int] == sep);
    lemma_find_sep_at(s, sep, x.len() as int);
    assert(s.subrange(0, x.len() as int) =~= x);
    assert(s.subrange((x.len() + 1) as int, (x.len() + 1 + y.len()) as int) =~= y);
}

/// Parsing the rendered line of a record gives the record back.
pub proof fn lemma_parse_record_round(r: Record)
    ensures
        parse_record_spec(record_body_spec(r)) == Some(r),
{
    let d1 = dec_digits(r.time_s as int);
    let d2 = dec_digits(r.accuracy_milli as int);
    let d3 = dec_digits(r.wpm_milli as int);
    let d4 = dec_digits(r.cpm_milli as int);
    lemma_dec_digits_props(r.time_s as int);
    lemma_dec_digits_props(r.accuracy_milli as int);
    lemma_dec_digits_props(r.wpm_milli as int);
    lemma_dec_digits_props(r.cpm_milli as int);
    let b = record_body_spec(r);
    let tail1 = d2 + seq![sp()] + d3 + seq![sp()] + d4;
    let tail2 = d3 + seq![sp()] + d4;
    assert(b =~= d1 + seq![sp()] + tail1);
    assert(tail1 =~= d2 + seq![sp()] + tail2);
    lemma_affix(d1, tail1, sp());
    lemma_affix(d2, tail2, sp());
    lemma_affix(d3, d4, sp());
    lemma_find_sep_at(d4, sp(), d4.len() as int);
    lemma_parse_field_of_dec(r.time_s);
    lemma_parse_field_of_dec(r.accuracy_milli);
    lemma_parse_field_of_dec(r.wpm_milli);
    lemma_parse_field_of_dec(r.cpm_milli);
    assert(b.subrange(0, d1.len() as int) == d1);
    assert(b.subrange((d1.len() + 1) as int, b.len() as int) =~= tail1);
    assert(tail1.subrange(0, d2.len() as int) == d2);
    assert(tail1.subrange((d2.len() + 1) as int, tail1.len() as int) =~= tail2);
    assert(tail2.subrange(0, d3.len() as int) == d3);
    assert(tail2.subrange((d3.len() + 1) as int, tail2.len() as int) =~= d4);
}

/// Writing any run of records to the log and reading the log back yields
/// exactly those records, in their original order, without precision loss.
pub proof fn lemma_log_round_trip(records: Seq<Record>)
    ensures
        parse_log_spec(render_log_spec(records)) == Some(records),
    decreases records.len(),
{
    if records.len() == 0 {
        assert(records =~= Seq::<Record>::empty());
    } else {
        let r0 = records[0];
        let body = record_body_spec(r0);
        let rest = render_log_spec(records.drop_first());
        lemma_dec_digits_props(r0.time_s as int);
        lemma_dec_digits_props(r0.accuracy_milli as int);
        lemma_dec_digits_props(r0.wpm_milli as int);
        lemma_dec_digits_props(r0.cpm_milli as int);
        let d1 = dec_digits(r0.time_s as int);
        let d2 = dec_digits(r0.accuracy_milli as int);
        let d3 = dec_digits(r0.wpm_milli as int);
        let d4 = dec_digits(r0.cpm_milli as int);
        assert forall|j: int| 0 <= j < body.len() implies body[j] != nl() by {
            let end1 = d1.len() as int;
            let end2 = end1 + 1 + d2.len();
            let end3 = end2 + 1 + d3.len();
            if j < end1 {
                assert(body[j] == d1[j]);
            } else if j == end1 {
                assert(body[j] == sp());
            } else if j < end2 {
                assert(body[j] == d2[j - end1 - 1]);
            } else if j == end2 {
                assert(body[j] == sp());
            } else if j < end3 {
                assert(body[j] == d3[j - end2 - 1]);
            } else if j == end3 {
                assert(body[j] == sp());
            } else {
                assert(body[j] == d4[j - end3 - 1]);
            }
        }
        let content = render_log_spec(records);
        assert(content =~= body + seq![nl()] + rest);
        lemma_affix(body, rest, nl());
        assert(content.subrange(0, body.len() as int) == body);
        assert(content.subrange((body.len() + 1) as int, content.len() as int) =~= rest);
        lemma_parse_record_round(r0);
        lemma_log_round_trip(records.drop_first());
        assert(seq![r0] + records.drop_first() =~= records);
    }
}

/// Writes the decimal digits of `n` onto `out`.
fn push_decimal(out: &mut Vec<u8>, n: u64)
    ensures
        final(out)@ == old(out)@ + dec_digits(n as int),
    decreases n,
{
    if n < 10 {
        out.push(48 + (n as u8));
        proof {
            assert(final(out)@ =~= old(out)@ + dec_digits(n as int));
        }
    } else {
        push_decimal(out, n / 10);
        out.push(48 + ((n % 10) as u8));
        proof {
            assert(final(out)@ =~= old(out)@ + dec_digits(n as int));
        }
    }
}

/// Renders one record as its log line, closing newline included.
pub fn render_record(r: &Record) -> (out: Vec<u8>)
    ensures
        out@ == render_record_spec(*r),
{
    let mut out: Vec<u8> = Vec::new();
    push_decimal(&mut out, r.time_s);
    out.push(32u8);
    push_decimal(&mut out, r.accuracy_milli);
    out.push(32u8);
    push_decimal(&mut out, r.wpm_milli);
    out.push(32u8);
    push_decimal(&mut out, r.cpm_milli);
    out.push(10u8);
    proof {
        assert(out@ =~= render_record_spec(*r));
    }
    out
}

/// Renders a run of records as the full log content.
pub fn render_log(records: &Vec<Record>) -> (out: Vec<u8>)
    ensures
        out@ == render_log_spec(records@),
{
    let mut out: Vec<u8> = Vec::new();
    let mut i: usize = 0;
    proof {
        assert(records@.skip(0) =~= records@);
    }
    while i < records.len()
        invariant
            i <= records@.len(),
            render_log_spec(records@) == out@ + render_log_spec(records@.skip(i as int)),
        decreases records@.len() - i,
    {
        let ghost before = out@;
        let line = render_record(&records[i]);
        let mut k: usize = 0;
        while k < line.len()
            invariant
                k <= line@.len(),
                out@ == before + line@.subrange(0, k as int),
            decreases line@.len() - k,
        {
            out.push(line[k]);
            proof {
                assert(before + line@.subrange(0, k + 1) =~= (before + line@.subrange(
                    0,
                    k as int,
                )).push(line@[k as int]));
            }
            k = k + 1;
        }
        proof {
            assert(line@.subrange(0, line@.len() as int) =~= line@);
            let tail = records@.skip(i as int);
            assert(tail[0] == records@[i as int]);
            assert(tail.drop_first() =~= records@.skip(i + 1));
            assert(render_log_spec(tail) == render_record_spec(records@[i as int])
                + render_log_spec(records@.skip(i + 1)));
            assert(out@ + render_log_spec(records@.skip(i + 1)) =~= before + line@
                + render_log_spec(records@.skip(i + 1)));
            assert(before + (line@ + render_log_spec(records@.skip(i + 1))) =~= (before + line@)
                + render_log_spec(records@.skip(i + 1)));
        }
        i = i + 1;
    }
    proof {
        assert(records@.skip(records@.len() as int) =~= Seq::<Record>::empty());
        assert(out@ + Seq::<u8>::empty() =~= out@);
    }
    out
}

/// Scans for the next occurrence of `sep` at or after `from`.
fn scan_sep(line: &Vec<u8>, from: usize, sep: u8) -> (j: usize)
    requires
        from <= line@.len(),
    ensures
        from <= j <= line@.len(),
        forall|k: int| from <= k < j ==> line@[k] != sep,
        j < line@.len() ==> line@[j as int] == sep,
{
    let mut j: usize = from;
    while j < line.len()
        invariant
            from <= j <= line@.len(),
            forall|k: int| from <= k < j ==> line@[k] != sep,
        decreases line@.len() - j,
    {
        if line[j] == sep {
            return j;
        }
        j = j + 1;
    }
    j
}

/// Ties a scan from `from` to the separator position in the suffix view.
proof fn lemma_scan_to_find(s: Seq<u8>, from: int, j: int, sep: u8)
    requires
        0 <= from <= j <= s.len(),
        forall|k: int| from <= k < j ==> s[k] != sep,
        j < s.len() ==> s[j] == sep,
    ensures
        find_sep(s.skip(from), sep) == j - from,
{
    let t = s.skip(from);
    assert forall|k: int| 0 <= k < j - from implies t[k] != sep by {
        assert(t[k] == s[from + k]);
    }
    if j - from < t.len() {
        assert(t[j - from] == s[j]);
    }
    lemma_find_sep_at(t, sep, j - from);
}

/// Parses the digit string between positions `a` and `b`.
fn parse_field_range(line: &Vec<u8>, a: usize, b: usize) -> (r: Option<u64>)
    requires
        a <= b <= line@.len(),
    ensures
        r == parse_field_spec(line@.subrange(a as int, b as int)),
{
    let ghost field = line@.subrange(a as int, b as int);
    if a == b {
        return None;
    }
    let mut acc: u64 = 0;
    let mut i: usize = a;
    while i < b
        invariant
            a <= i <= b <= line@.len(),
            field == line@.subrange(a as int, b as int),
            all_digits(field.take(i - a)),
            acc == val(field.take(i - a)),
        decreases b - i,
    {
        let ch: u8 = line[i];
        if ch < 48 || ch > 57 {
            proof {
                assert(field[i - a] == ch);
                assert(!is_digit(field[i - a]));
            }
            return None;
        }
        let d: u64 = (ch - 48) as u64;
        proof {
            assert(field.take(i - a + 1).drop_last() =~= field.take(i - a));
            assert(field.take(i - a + 1).last() == ch);
        }
        if acc > (u64::MAX - d) / 10 {
            proof {
                vstd::arithmetic::div_mod::lemma_fundamental_div_mod(
                    (u64::MAX - d) as int,
                    10,
                );
                assert(acc * 10 + d > u64::MAX) by (nonlinear_arith)
                    requires
                        acc > ((u64::MAX - d) as int) / 10 && 0 <= d <= 9 && (u64::MAX - d) as int
                            == 10 * (((u64::MAX - d) as int) / 10) + ((u64::MAX - d) as int) % 10
                            && 0 <= ((u64::MAX - d) as int) % 10 < 10,
                ;
                assert(val(field.take(i - a + 1)) > u64::MAX);
                if all_digits(field) {
                    lemma_val_monotone(field, i - a + 1);
                    assert(val(field) >= val(field.take(i - a + 1)));
                }
            }
            return None;
        }
        acc = acc * 10 + d;
        i = i + 1;
    }
    proof {
        assert(field.take(b - a) =~= field);
    }
    Some(acc)
}

/// Copies the bytes of `v` between positions `a` and `b`.
fn copy_bytes(v: &Vec<u8>, a: usize, b: usize) -> (r: Vec<u8>)
    requires
        a <= b <= v@.len(),
    ensures
        r@ == v@.subrange(a as int, b as int),
{
    let mut r: Vec<u8> = Vec::new();
    let mut i: usize = a;
    while i < b
        invariant
            a <= i <= b <= v@.len(),
            r@ =~= v@.subrange(a as int, i as int),
        decreases b - i,
    {
        r.push(v[i]);
        proof {
            assert(r@ =~= v@.subrange(a as int, i + 1));
        }
        i = i + 1;
    }
    r
}

/// Parses one log line into a record; any deviation from the format fails.
#[verifier::rlimit(60)]
pub fn parse_record(line: &Vec<u8>) -> (r: Option<Record>)
    ensures
        r == parse_record_spec(line@),
{
    let n: usize = line.len();
    let j1: usize = scan_sep(line, 0, 32);
    proof {
        lemma_scan_to_find(line@, 0, j1 as int, sp());
        assert(line@.skip(0) =~= line@);
    }
    if j1 == n {
        return None;
    }
    let ghost r1 = line@.subrange(j1 + 1, n as int);
    let j2: usize = scan_sep(line, j1 + 1, 32);
    proof {
        lemma_scan_to_find(line@, j1 + 1, j2 as int, sp());
        assert(line@.skip(j1 + 1) =~= r1);
    }
    if j2 == n {
        return None;
    }
    let ghost r2 = r1.subrange((j2 - j1) as int, r1.len() as int);
    let j3: usize = scan_sep(line, j2 + 1, 32);
    proof {
        lemma_scan_to_find(line@, j2 + 1, j3 as int, sp());
        assert(line@.skip(j2 + 1) =~= r2);
    }
    if j3 == n {
        return None;
    }
    let ghost f4 = r2.subrange((j3 - j2) as int, r2.len() as int);
    let j4: usize = scan_sep(line, j3 + 1, 32);
    proof {
        lemma_scan_to_find(line@, j3 + 1, j4 as int, sp());
        assert(line@.skip(j3 + 1) =~= f4);
        lemma_find_sep_props(f4, sp());
    }
    if j4 != n {
        return None;
    }
    let f1 = parse_field_range(line, 0, j1);
    let f2 = parse_field_range(line, j1 + 1, j2);
    let f3 = parse_field_range(line, j2 + 1, j3);
    let f4v = parse_field_range(line, j3 + 1, n);
    proof {
        assert(line@.subrange(0, j1 as int) == line@.subrange(0, j1 as int));
        assert(r1.subrange(0, (j2 - j1 - 1) as int) =~= line@.subrange(j1 + 1, j2 as int));
        assert(r2.subrange(0, (j3 - j2 - 1) as int) =~= line@.subrange(j2 + 1, j3 as int));
        assert(f4 =~= line@.subrange(j3 + 1, n as int));
    }
    match (f1, f2, f3, f4v) {
        (Some(t), Some(a), Some(w), Some(c)) => Some(
            Record { time_s: t, accuracy_milli: a, wpm_milli: w, cpm_milli: c },
        ),
        _ => None,
    }
}

/// How a parsed prefix and the remaining content combine into the whole
/// log's parse.
pub open spec fn opt_concat(done: Seq<Record>, rest: Option<Seq<Record>>) -> Option<Seq<Record>> {
    match rest {
        None => None,
        Some(t) => Some(done + t),
    }
}

/// Parses the full log content. Fails atomically: one malformed line makes
/// the whole read fail.
pub fn parse_log(content: &Vec<u8>) -> (r: Option<Vec<Record>>)
    ensures
        r is Some <==> parse_log_spec(content@) is Some,
        r matches Some(v) ==> parse_log_spec(content@) == Some(v@),
{
    let n: usize = content.len();
    let mut out: Vec<Record> = Vec::new();
    let mut pos: usize = 0;
    proof {
        assert(content@.skip(0) =~= content@);
        match parse_log_spec(content@) {
            None => {},
            Some(t) => {
                assert(Seq::<Record>::empty() + t =~= t);
            },
        }
    }
    while pos < n
        invariant
            pos <= n == content@.len(),
            parse_log_spec(content@) == opt_concat(out@, parse_log_spec(content@.skip(pos as int))),
        decreases n - pos,
    {
        let ghost tail = content@.skip(pos as int);
        let j: usize = scan_sep(content, pos, 10);
        proof {
            lemma_scan_to_find(content@, pos as int, j as int, nl());
            assert(tail.len() > 0);
            if j < n {
                assert(tail.subrange(0, (j - pos) as int) =~= content@.subrange(
                    pos as int,
                    j as int,
                ));
                assert(tail.subrange((j - pos + 1) as int, tail.len() as int) =~= content@.skip(
                    j + 1,
                ));
            } else {
                assert(tail =~= content@.subrange(pos as int, j as int));
            }
        }
        let line = copy_bytes(content, pos, j);
        let rec_opt = parse_record(&line);
        match rec_opt {
            None => {
                return None;
            },
            Some(rec) => {
                let ghost next_pos: int = if j == n {
                    n as int
                } else {
                    j + 1
                };
                proof {
                    if j == n {
                        assert(content@.skip(n as int) =~= Seq::<u8>::empty());
                    }
                    let rest_parse = parse_log_spec(content@.skip(next_pos));
                    assert(parse_log_spec(tail) == match rest_parse {
                        None => None::<Seq<Record>>,
                        Some(rs) => Some(seq![rec] + rs),
                    });
                    match rest_parse {
                        None => {},
                        Some(rs) => {
                            assert(out@.push(rec) + rs =~= out@ + (seq![rec] + rs));
                        },
                    }
                }
                out.push(rec);
                if j == n {
                    pos = n;
                } else {
                    pos = j + 1;
                }
            },
        }
    }
    proof {
        assert(content@.skip(n as int) =~= Seq::<u8>::empty());
        assert(out@ + Seq::<Record>::empty() =~= out@);
    }
    Some(out)
}

} // verus!
