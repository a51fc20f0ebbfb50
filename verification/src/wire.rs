//! Delivery client logic: the wire format of a series payload — a JSON
//! object `{"series":[...]}` — its serializer, a parser for the same
//! format, the proof that the two are inverse, and the classification of
//! a delivery response.

use vstd::prelude::*;
use crate::metrics::{Metric, MetricView, Series};
use crate::supervisor::DeliveryError;

verus! {

// ---------------------------------------------------------------------
// The wire format, as mathematics: what the serializer emits.
// ---------------------------------------------------------------------

/// The digit character for one decimal digit.
pub open spec fn digit_char(d: int) -> char {
    if d == 0 {
        '0'
    } else if d == 1 {
        '1'
    } else if d == 2 {
        '2'
    } else if d == 3 {
        '3'
    } else if d == 4 {
        '4'
    } else if d == 5 {
        '5'
    } else if d == 6 {
        '6'
    } else if d == 7 {
        '7'
    } else if d == 8 {
        '8'
    } else {
        '9'
    }
}

/// The decimal notation of a natural number, most significant digit
/// first, no leading zeros (`0` itself is the single digit `0`).
pub open spec fn dec_of(n: nat) -> Seq<char>
    decreases n,
{
    if n < 10 {
        seq![digit_char(n as int)]
    } else {
        dec_of(n / 10) + seq![digit_char((n % 10) as int)]
    }
}

/// How one character is written inside a JSON string: quote, backslash
/// and the common control characters take a two-character escape, every
/// other character stands for itself.
pub open spec fn esc_char(c: char) -> Seq<char> {
    if c == '"' {
        seq!['\\', '"']
    } else if c == '\\' {
        seq!['\\', '\\']
    } else if c == '\n' {
        seq!['\\', 'n']
    } else if c == '\r' {
        seq!['\\', 'r']
    } else if c == '\t' {
        seq!['\\', 't']
    } else {
        seq![c]
    }
}

/// A string's characters, each escaped.
pub open spec fn esc_str(s: Seq<char>) -> Seq<char>
    decreases s.len(),
{
    if s.len() == 0 {
        Seq::<char>::empty()
    } else {
        esc_char(s[0]) + esc_str(s.skip(1))
    }
}

/// A JSON string: the escaped characters between quotes.
pub open spec fn ser_str(s: Seq<char>) -> Seq<char> {
    seq!['"'] + esc_str(s) + seq!['"']
}

/// A JSON number for an unsigned value.
pub open spec fn ser_u32(v: u32) -> Seq<char> {
    dec_of(v as nat)
}

/// A JSON number for a signed value: a minus sign where needed, then
/// the decimal magnitude.
pub open spec fn ser_i64(v: i64) -> Seq<char> {
    if v < 0 {
        seq!['-'] + dec_of((-(v as int)) as nat)
    } else {
        dec_of(v as nat)
    }
}

/// One point: `[timestamp,value]`.
pub open spec fn ser_point(p: (i64, u32)) -> Seq<char> {
    seq!['['] + ser_i64(p.0) + seq![','] + ser_u32(p.1) + seq![']']
}

/// The points after the first: `,point` repeated, then the closing `]`.
pub open spec fn ser_points_tail(ps: Seq<(i64, u32)>) -> Seq<char>
    decreases ps.len(),
{
    if ps.len() == 0 {
        seq![']']
    } else {
        seq![','] + ser_point(ps[0]) + ser_points_tail(ps.skip(1))
    }
}

/// A JSON array of points.
pub open spec fn ser_points(ps: Seq<(i64, u32)>) -> Seq<char> {
    if ps.len() == 0 {
        seq!['[', ']']
    } else {
        seq!['['] + ser_point(ps[0]) + ser_points_tail(ps.skip(1))
    }
}

/// The strings after the first: `,string` repeated, then the closing `]`.
pub open spec fn ser_strs_tail(ts: Seq<Seq<char>>) -> Seq<char>
    decreases ts.len(),
{
    if ts.len() == 0 {
        seq![']']
    } else {
        seq![','] + ser_str(ts[0]) + ser_strs_tail(ts.skip(1))
    }
}

/// A JSON array of strings (the tag list).
pub open spec fn ser_strs(ts: Seq<Seq<char>>) -> Seq<char> {
    if ts.len() == 0 {
        seq!['[', ']']
    } else {
        seq!['['] + ser_str(ts[0]) + ser_strs_tail(ts.skip(1))
    }
}

/// One metric object, its four fields in fixed order.
pub open spec fn ser_metric(m: MetricView) -> Seq<char> {
    "{\"metric\":"@ + ser_str(m.metric) + ",\"points\":"@ + ser_points(m.points) + ",\"type\":"@
        + ser_str(m.metric_type) + ",\"tags\":"@ + ser_strs(m.tags) + seq!['}']
}

/// The metrics after the first: `,metric` repeated, then `]}`.
pub open spec fn ser_metrics_tail(ms: Seq<MetricView>) -> Seq<char>
    decreases ms.len(),
{
    if ms.len() == 0 {
        seq![']', '}']
    } else {
        seq![','] + ser_metric(ms[0]) + ser_metrics_tail(ms.skip(1))
    }
}

/// The whole payload: `{"series":[metric,...]}`.
pub open spec fn ser_series(ms: Seq<MetricView>) -> Seq<char> {
    if ms.len() == 0 {
        "{\"series\":["@ + seq![']', '}']
    } else {
        "{\"series\":["@ + ser_metric(ms[0]) + ser_metrics_tail(ms.skip(1))
    }
}

// ---------------------------------------------------------------------
// The executable serializer.
// ---------------------------------------------------------------------

/// Append the characters of `s` to `out`.
fn push_str_chars(out: &mut Vec<char>, s: &str)
    ensures
        final(out)@ == old(out)@ + s@,
{
    let n = s.unicode_len();
    let mut k: usize = 0;
    while k < n
        invariant
            n == s@.len(),
            k <= n,
            out@ == old(out)@ + s@.take(k as int),
        decreases n - k,
    {
        out.push(s.get_char(k));
        proof {
            assert(old(out)@ + s@.take(k as int) + seq![s@[k as int]] =~= old(out)@ + s@.take(
                k as int + 1,
            ));
        }
        k = k + 1;
    }
    proof {
        assert(s@.take(s@.len() as int) =~= s@);
    }
}

/// The digit character, executably.
fn digit_char_of(d: u64) -> (c: char)
    requires
        d < 10,
    ensures
        c == digit_char(d as int),
{
    if d == 0 {
        '0'
    } else if d == 1 {
        '1'
    } else if d == 2 {
        '2'
    } else if d == 3 {
        '3'
    } else if d == 4 {
        '4'
    } else if d == 5 {
        '5'
    } else if d == 6 {
        '6'
    } else if d == 7 {
        '7'
    } else if d == 8 {
        '8'
    } else {
        '9'
    }
}

/// Append the decimal notation of `n`.
fn push_dec(out: &mut Vec<char>, n: u64)
    ensures
        final(out)@ == old(out)@ + dec_of(n as nat),
    decreases n,
{
    if n < 10 {
        out.push(digit_char_of(n));
        proof {
            assert(old(out)@ + dec_of(n as nat) =~= old(out)@.push(digit_char(n as int)));
        }
    } else {
        push_dec(out, n / 10);
        out.push(digit_char_of(n % 10));
        proof {
            assert(old(out)@ + dec_of(n as nat) =~= (old(out)@ + dec_of((n / 10) as nat)).push(
                digit_char((n % 10) as int),
            ));
        }
    }
}

/// Append a signed decimal number.
fn push_i64(out: &mut Vec<char>, v: i64)
    ensures
        final(out)@ == old(out)@ + ser_i64(v),
{
    if v < 0 {
        out.push('-');
        let magnitude: u64 = if v == i64::MIN {
            9223372036854775808u64
        } else {
            (-v) as u64
        };
        assert(magnitude as nat == -(v as int));
        push_dec(out, magnitude);
        proof {
            assert(old(out)@ + ser_i64(v) =~= old(out)@.push('-') + dec_of((-(v as int)) as nat));
        }
    } else {
        push_dec(out, v as u64);
    }
}

/// Append one character, escaped as the wire format asks.
fn push_escaped_char(out: &mut Vec<char>, c: char)
    ensures
        final(out)@ == old(out)@ + esc_char(c),
{
    if c == '"' {
        out.push('\\');
        out.push('"');
    } else if c == '\\' {
        out.push('\\');
        out.push('\\');
    } else if c == '\n' {
        out.push('\\');
        out.push('n');
    } else if c == '\r' {
        out.push('\\');
        out.push('r');
    } else if c == '\t' {
        out.push('\\');
        out.push('t');
    } else {
        out.push(c);
    }
    proof {
        assert(final(out)@ =~= old(out)@ + esc_char(c));
    }
}

/// Appending an escaped character to an escaped string escapes the
/// extended string.
proof fn lemma_esc_str_snoc(s: Seq<char>, c: char)
    ensures
        esc_str(s + seq![c]) == esc_str(s) + esc_char(c),
    decreases s.len(),
{
    if s.len() == 0 {
        assert((s + seq![c]).len() == 1);
        assert((s + seq![c])[0] == c);
        assert((s + seq![c]).skip(1) =~= Seq::<char>::empty());
        assert(esc_str((s + seq![c]).skip(1)) == Seq::<char>::empty());
        assert(esc_str(s + seq![c]) == esc_char(c) + Seq::<char>::empty());
        assert(esc_char(c) + Seq::<char>::empty() =~= esc_char(c));
        assert(esc_str(s) == Seq::<char>::empty());
        assert(esc_str(s) + esc_char(c) =~= esc_char(c));
    } else {
        assert((s + seq![c]).skip(1) =~= s.skip(1) + seq![c]);
        assert((s + seq![c])[0] == s[0]);
        lemma_esc_str_snoc(s.skip(1), c);
        assert(esc_str(s + seq![c]) == esc_char(s[0]) + (esc_str(s.skip(1)) + esc_char(c)));
        assert(esc_char(s[0]) + (esc_str(s.skip(1)) + esc_char(c)) =~= (esc_char(s[0]) + esc_str(
            s.skip(1),
        )) + esc_char(c));
        assert(esc_str(s + seq![c]) =~= esc_str(s) + esc_char(c));
    }
}

/// Append a JSON string: quote, escaped characters, quote.
fn push_json_str(out: &mut Vec<char>, s: &str)
    ensures
        final(out)@ == old(out)@ + ser_str(s@),
{
    out.push('"');
    let n = s.unicode_len();
    let mut k: usize = 0;
    while k < n
        invariant
            n == s@.len(),
            k <= n,
            out@ == old(out)@ + seq!['"'] + esc_str(s@.take(k as int)),
        decreases n - k,
    {
        push_escaped_char(out, s.get_char(k));
        proof {
            assert(s@.take(k as int) + seq![s@[k as int]] =~= s@.take(k as int + 1));
            lemma_esc_str_snoc(s@.take(k as int), s@[k as int]);
            assert(out@ =~= old(out)@ + seq!['"'] + esc_str(s@.take(k as int + 1)));
        }
        k = k + 1;
    }
    out.push('"');
    proof {
        assert(s@.take(s@.len() as int) =~= s@);
        assert(final(out)@ =~= old(out)@ + ser_str(s@));
    }
}

/// Append one point `[timestamp,value]`.
fn push_point(out: &mut Vec<char>, p: (i64, u32))
    ensures
        final(out)@ == old(out)@ + ser_point(p),
{
    out.push('[');
    push_i64(out, p.0);
    out.push(',');
    push_dec(out, p.1 as u64);
    out.push(']');
    proof {
        assert(final(out)@ =~= old(out)@ + ser_point(p));
    }
}

/// Append the points from index `k` on, then the closing bracket.
fn push_points_tail(out: &mut Vec<char>, ps: &Vec<(i64, u32)>, k: usize)
    requires
        1 <= k <= ps@.len(),
    ensures
        final(out)@ == old(out)@ + ser_points_tail(ps@.skip(k as int)),
    decreases ps@.len() - k,
{
    if k == ps.len() {
        out.push(']');
        proof {
            assert(ps@.skip(k as int) =~= Seq::<(i64, u32)>::empty());
            assert(final(out)@ =~= old(out)@ + ser_points_tail(ps@.skip(k as int)));
        }
    } else {
        out.push(',');
        push_point(out, ps[k]);
        push_points_tail(out, ps, k + 1);
        proof {
            assert(ps@.skip(k as int).skip(1) =~= ps@.skip(k as int + 1));
            assert(ps@.skip(k as int)[0] == ps@[k as int]);
            assert(final(out)@ =~= old(out)@ + ser_points_tail(ps@.skip(k as int)));
        }
    }
}

/// Append a JSON array of points.
fn push_points(out: &mut Vec<char>, ps: &Vec<(i64, u32)>)
    ensures
        final(out)@ == old(out)@ + ser_points(ps@),
{
    out.push('[');
    if ps.len() == 0 {
        out.push(']');
        proof {
            assert(final(out)@ =~= old(out)@ + ser_points(ps@));
        }
    } else {
        push_point(out, ps[0]);
        push_points_tail(out, ps, 1);
        proof {
            assert(final(out)@ =~= old(out)@ + ser_points(ps@));
        }
    }
}

/// Append the strings from index `k` on, then the closing bracket.
fn push_strs_tail(out: &mut Vec<char>, ts: &Vec<String>, k: usize)
    requires
        1 <= k <= ts@.len(),
    ensures
        final(out)@ == old(out)@ + ser_strs_tail(ts.deep_view().skip(k as int)),
    decreases ts@.len() - k,
{
    if k == ts.len() {
        out.push(']');
        proof {
            assert(ts.deep_view().skip(k as int) =~= Seq::<Seq<char>>::empty());
            assert(final(out)@ =~= old(out)@ + ser_strs_tail(ts.deep_view().skip(k as int)));
        }
    } else {
        out.push(',');
        push_json_str(out, ts[k].as_str());
        push_strs_tail(out, ts, k + 1);
        proof {
            assert(ts.deep_view().skip(k as int).skip(1) =~= ts.deep_view().skip(k as int + 1));
            assert(ts.deep_view().skip(k as int)[0] == ts@[k as int]@);
            assert(final(out)@ =~= old(out)@ + ser_strs_tail(ts.deep_view().skip(k as int)));
        }
    }
}

/// Append a JSON array of strings.
fn push_strs(out: &mut Vec<char>, ts: &Vec<String>)
    ensures
        final(out)@ == old(out)@ + ser_strs(ts.deep_view()),
{
    out.push('[');
    if ts.len() == 0 {
        out.push(']');
        proof {
            assert(ts.deep_view().len() == 0);
            assert(final(out)@ =~= old(out)@ + ser_strs(ts.deep_view()));
        }
    } else {
        push_json_str(out, ts[0].as_str());
        push_strs_tail(out, ts, 1);
        proof {
            assert(ts.deep_view()[0] == ts@[0]@);
            assert(final(out)@ =~= old(out)@ + ser_strs(ts.deep_view()));
        }
    }
}

/// Append one metric object.
fn push_metric(out: &mut Vec<char>, m: &Metric)
    ensures
        final(out)@ == old(out)@ + ser_metric(m@),
{
    push_str_chars(out, "{\"metric\":");
    push_json_str(out, m.metric.as_str());
    push_str_chars(out, ",\"points\":");
    push_points(out, &m.points);
    push_str_chars(out, ",\"type\":");
    push_json_str(out, m.metric_type.as_str());
    push_str_chars(out, ",\"tags\":");
    push_strs(out, &m.tags);
    out.push('}');
    proof {
        assert(final(out)@ =~= old(out)@ + ser_metric(m@));
    }
}

/// Append the metrics from index `k` on, then the closing `]}`.
fn push_metrics_tail(out: &mut Vec<char>, ms: &Vec<Metric>, k: usize)
    requires
        1 <= k <= ms@.len(),
    ensures
        final(out)@ == old(out)@ + ser_metrics_tail(ms.deep_view().skip(k as int)),
    decreases ms@.len() - k,
{
    if k == ms.len() {
        out.push(']');
        out.push('}');
        proof {
            assert(ms.deep_view().skip(k as int) =~= Seq::<MetricView>::empty());
            assert(final(out)@ =~= old(out)@ + ser_metrics_tail(ms.deep_view().skip(k as int)));
        }
    } else {
        out.push(',');
        push_metric(out, &ms[k]);
        push_metrics_tail(out, ms, k + 1);
        proof {
            assert(ms.deep_view().skip(k as int).skip(1) =~= ms.deep_view().skip(k as int + 1));
            assert(ms.deep_view().skip(k as int)[0] == ms@[k as int]@);
            assert(final(out)@ =~= old(out)@ + ser_metrics_tail(ms.deep_view().skip(k as int)));
        }
    }
}

/// Relies on String implementing FromIterator<char> (std): collecting
/// a vector of characters yields the string of exactly those characters.
#[verifier::external_body]
fn string_from_chars(chars: &Vec<char>) -> (s: String)
    ensures
        s@ == chars@,
{
    chars.iter().collect()
}

/// Serialize a series to its wire format.
pub fn serialize_series(series: &Series) -> (r: String)
    ensures
        r@ == ser_series(series@),
{
    let mut out: Vec<char> = Vec::new();
    push_str_chars(&mut out, "{\"series\":[");
    if series.series.len() == 0 {
        out.push(']');
        out.push('}');
        proof {
            assert(series@.len() == 0);
            assert(out@ =~= ser_series(series@));
        }
    } else {
        push_metric(&mut out, &series.series[0]);
        push_metrics_tail(&mut out, &series.series, 1);
        proof {
            assert(series@[0] == series.series@[0]@);
            assert(out@ =~= ser_series(series@));
        }
    }
    string_from_chars(&out)
}

// ---------------------------------------------------------------------
// Parsing the wire format, as mathematics. Each function consumes a
// prefix of the input and yields the value read and the remainder.
// ---------------------------------------------------------------------

/// Consume an expected literal from the front of the input.
pub open spec fn parse_lit(s: Seq<char>, lit: Seq<char>) -> Option<Seq<char>>
    decreases lit.len(),
{
    if lit.len() == 0 {
        Some(s)
    } else if s.len() > 0 && s[0] == lit[0] {
        parse_lit(s.skip(1), lit.skip(1))
    } else {
        None
    }
}

/// The character an escape letter stands for.
pub open spec fn unesc_char(c: char) -> Option<char> {
    if c == '"' {
        Some('"')
    } else if c == '\\' {
        Some('\\')
    } else if c == 'n' {
        Some('\n')
    } else if c == 'r' {
        Some('\r')
    } else if c == 't' {
        Some('\t')
    } else {
        None
    }
}

/// The inside of a JSON string, up to and including its closing quote.
pub open spec fn parse_str_body(s: Seq<char>) -> Option<(Seq<char>, Seq<char>)>
    decreases s.len(),
{
    if s.len() == 0 {
        None
    } else if s[0] == '"' {
        Some((Seq::<char>::empty(), s.skip(1)))
    } else if s[0] == '\\' {
        if s.len() < 2 {
            None
        } else {
            match unesc_char(s[1]) {
                Some(c) => match parse_str_body(s.skip(2)) {
                    Some(p) => Some((seq![c] + p.0, p.1)),
                    None => None,
                },
                None => None,
            }
        }
    } else {
        match parse_str_body(s.skip(1)) {
            Some(p) => Some((seq![s[0]] + p.0, p.1)),
            None => None,
        }
    }
}

/// A JSON string, quotes included.
pub open spec fn parse_str(s: Seq<char>) -> Option<(Seq<char>, Seq<char>)> {
    if s.len() > 0 && s[0] == '"' {
        parse_str_body(s.skip(1))
    } else {
        None
    }
}

/// Whether a character is a decimal digit.
pub open spec fn is_digit(c: char) -> bool {
    c == '0' || c == '1' || c == '2' || c == '3' || c == '4' || c == '5' || c == '6' || c == '7'
        || c == '8' || c == '9'
}

/// The value of one digit character.
pub open spec fn digit_val(c: char) -> int {
    if c == '0' {
        0
    } else if c == '1' {
        1
    } else if c == '2' {
        2
    } else if c == '3' {
        3
    } else if c == '4' {
        4
    } else if c == '5' {
        5
    } else if c == '6' {
        6
    } else if c == '7' {
        7
    } else if c == '8' {
        8
    } else {
        9
    }
}

/// The longest digit run at the front of the input, and the remainder.
pub open spec fn take_digits(s: Seq<char>) -> (Seq<char>, Seq<char>)
    decreases s.len(),
{
    if s.len() > 0 && is_digit(s[0]) {
        let (d, r) = take_digits(s.skip(1));
        (seq![s[0]] + d, r)
    } else {
        (Seq::<char>::empty(), s)
    }
}

/// The value of a digit run, most significant digit first.
pub open spec fn val_of_digits(d: Seq<char>) -> int
    decreases d.len(),
{
    if d.len() == 0 {
        0
    } else {
        val_of_digits(d.drop_last()) * 10 + digit_val(d.last())
    }
}

/// An unsigned JSON number that fits the counter type.
pub open spec fn parse_u32(s: Seq<char>) -> Option<(u32, Seq<char>)> {
    let (d, r) = take_digits(s);
    if d.len() == 0 {
        None
    } else if val_of_digits(d) > u32::MAX {
        None
    } else {
        Some((val_of_digits(d) as u32, r))
    }
}

/// A signed JSON number that fits the timestamp type.
pub open spec fn parse_i64(s: Seq<char>) -> Option<(i64, Seq<char>)> {
    if s.len() > 0 && s[0] == '-' {
        let (d, r) = take_digits(s.skip(1));
        if d.len() == 0 {
            None
        } else if val_of_digits(d) > 9223372036854775808 {
            None
        } else {
            Some(((-val_of_digits(d)) as i64, r))
        }
    } else {
        let (d, r) = take_digits(s);
        if d.len() == 0 {
            None
        } else if val_of_digits(d) > i64::MAX {
            None
        } else {
            Some((val_of_digits(d) as i64, r))
        }
    }
}

/// One point: `[timestamp,value]`.
pub open spec fn parse_point(s: Seq<char>) -> Option<((i64, u32), Seq<char>)> {
    match parse_lit(s, seq!['[']) {
        Some(s1) => match parse_i64(s1) {
            Some((t, s2)) => match parse_lit(s2, seq![',']) {
                Some(s3) => match parse_u32(s3) {
                    Some((v, s4)) => match parse_lit(s4, seq![']']) {
                        Some(s5) => Some(((t, v), s5)),
                        None => None,
                    },
                    None => None,
                },
                None => None,
            },
            None => None,
        },
        None => None,
    }
}

/// The points after the first, each behind a comma, up to the closing
/// bracket. The fuel bounds how many elements may still follow.
pub open spec fn parse_points_tail(s: Seq<char>, fuel: nat) -> Option<(Seq<(i64, u32)>, Seq<char>)>
    decreases fuel,
{
    if s.len() > 0 && s[0] == ']' {
        Some((Seq::<(i64, u32)>::empty(), s.skip(1)))
    } else if s.len() > 0 && s[0] == ',' && fuel > 0 {
        match parse_point(s.skip(1)) {
            Some((p, r)) => match parse_points_tail(r, (fuel - 1) as nat) {
                Some((ps, r2)) => Some((seq![p] + ps, r2)),
                None => None,
            },
            None => None,
        }
    } else {
        None
    }
}

/// A JSON array of points.
pub open spec fn parse_points(s: Seq<char>, fuel: nat) -> Option<(Seq<(i64, u32)>, Seq<char>)> {
    if s.len() > 0 && s[0] == '[' {
        let s1 = s.skip(1);
        if s1.len() > 0 && s1[0] == ']' {
            Some((Seq::<(i64, u32)>::empty(), s1.skip(1)))
        } else {
            match parse_point(s1) {
                Some((p, r)) => match parse_points_tail(r, fuel) {
                    Some((ps, r2)) => Some((seq![p] + ps, r2)),
                    None => None,
                },
                None => None,
            }
        }
    } else {
        None
    }
}

/// The strings after the first, each behind a comma, up to the closing
/// bracket.
pub open spec fn parse_strs_tail(s: Seq<char>, fuel: nat) -> Option<(Seq<Seq<char>>, Seq<char>)>
    decreases fuel,
{
    if s.len() > 0 && s[0] == ']' {
        Some((Seq::<Seq<char>>::empty(), s.skip(1)))
    } else if s.len() > 0 && s[0] == ',' && fuel > 0 {
        match parse_str(s.skip(1)) {
            Some((t, r)) => match parse_strs_tail(r, (fuel - 1) as nat) {
                Some((ts, r2)) => Some((seq![t] + ts, r2)),
                None => None,
            },
            None => None,
        }
    } else {
        None
    }
}

/// A JSON array of strings.
pub open spec fn parse_strs(s: Seq<char>, fuel: nat) -> Option<(Seq<Seq<char>>, Seq<char>)> {
    if s.len() > 0 && s[0] == '[' {
        let s1 = s.skip(1);
        if s1.len() > 0 && s1[0] == ']' {
            Some((Seq::<Seq<char>>::empty(), s1.skip(1)))
        } else {
            match parse_str(s1) {
                Some((t, r)) => match parse_strs_tail(r, fuel) {
                    Some((ts, r2)) => Some((seq![t] + ts, r2)),
                    None => None,
                },
                None => None,
            }
        }
    } else {
        None
    }
}

/// One metric object, its four fields in fixed order.
pub open spec fn parse_metric(s: Seq<char>, fuel: nat) -> Option<(MetricView, Seq<char>)> {
    match parse_lit(s, "{\"metric\":"@) {
        Some(s1) => match parse_str(s1) {
            Some((name, s2)) => match parse_lit(s2, ",\"points\":"@) {
                Some(s3) => match parse_points(s3, fuel) {
                    Some((ps, s4)) => match parse_lit(s4, ",\"type\":"@) {
                        Some(s5) => match parse_str(s5) {
                            Some((ty, s6)) => match parse_lit(s6, ",\"tags\":"@) {
                                Some(s7) => match parse_strs(s7, fuel) {
                                    Some((ts, s8)) => match parse_lit(s8, seq!['}']) {
                                        Some(s9) => Some(
                                            (
                                                MetricView {
                                                    metric: name,
                                                    points: ps,
                                                    metric_type: ty,
                                                    tags: ts,
                                                },
                                                s9,
                                            ),
                                        ),
                                        None => None,
                                    },
                                    None => None,
                                },
                                None => None,
                            },
                            None => None,
                        },
                        None => None,
                    },
                    None => None,
                },
                None => None,
            },
            None => None,
        },
        None => None,
    }
}

/// The metrics after the first, each behind a comma, up to the closing
/// `]}`.
pub open spec fn parse_metrics_tail(s: Seq<char>, fuel: nat) -> Option<(Seq<MetricView>, Seq<char>)>
    decreases fuel,
{
    if s.len() > 0 && s[0] == ']' {
        match parse_lit(s.skip(1), seq!['}']) {
            Some(r) => Some((Seq::<MetricView>::empty(), r)),
            None => None,
        }
    } else if s.len() > 0 && s[0] == ',' && fuel > 0 {
        match parse_metric(s.skip(1), (fuel - 1) as nat) {
            Some((m, r)) => match parse_metrics_tail(r, (fuel - 1) as nat) {
                Some((ms, r2)) => Some((seq![m] + ms, r2)),
                None => None,
            },
            None => None,
        }
    } else {
        None
    }
}

/// The whole payload `{"series":[...]}`: the metrics it carries, when
/// the input is exactly one well-formed payload.
pub open spec fn parse_series_payload(s: Seq<char>) -> Option<Seq<MetricView>> {
    let fuel = s.len();
    match parse_lit(s, "{\"series\":["@) {
        Some(s1) => {
            if s1.len() > 0 && s1[0] == ']' {
                match parse_lit(s1.skip(1), seq!['}']) {
                    Some(r) => if r.len() == 0 {
                        Some(Seq::<MetricView>::empty())
                    } else {
                        None
                    },
                    None => None,
                }
            } else {
                match parse_metric(s1, fuel) {
                    Some((m, r)) => match parse_metrics_tail(r, fuel) {
                        Some((ms, r2)) => if r2.len() == 0 {
                            Some(seq![m] + ms)
                        } else {
                            None
                        },
                        None => None,
                    },
                    None => None,
                }
            }
        },
        None => None,
    }
}

// ---------------------------------------------------------------------
// Round trip: parsing undoes serializing.
// ---------------------------------------------------------------------

/// A literal at the front of the input is consumed exactly.
proof fn lemma_parse_lit(lit: Seq<char>, rest: Seq<char>)
    ensures
        parse_lit(lit + rest, lit) == Some(rest),
    decreases lit.len(),
{
    if lit.len() == 0 {
        assert(lit + rest =~= rest);
    } else {
        assert((lit + rest)[0] == lit[0]);
        assert((lit + rest).skip(1) =~= lit.skip(1) + rest);
        lemma_parse_lit(lit.skip(1), rest);
    }
}

/// Parsing a string body undoes escaping.
proof fn lemma_parse_str_body(s: Seq<char>, rest: Seq<char>)
    ensures
        parse_str_body(esc_str(s) + seq!['"'] + rest) == Some((s, rest)),
    decreases s.len(),
{
    let input = esc_str(s) + seq!['"'] + rest;
    if s.len() == 0 {
        assert(input =~= seq!['"'] + rest);
        assert(input[0] == '"');
        assert(input.skip(1) =~= rest);
        assert(s =~= Seq::<char>::empty());
    } else {
        let c = s[0];
        let e = esc_char(c);
        assert(esc_str(s) == e + esc_str(s.skip(1)));
        lemma_parse_str_body(s.skip(1), rest);
        if e.len() == 2 {
            assert(input[0] == '\\');
            assert(input[1] == e[1]);
            assert(input.len() >= 2);
            assert(unesc_char(e[1]) == Some(c));
            assert(input.skip(2) =~= esc_str(s.skip(1)) + seq!['"'] + rest);
            assert(seq![c] + s.skip(1) =~= s);
        } else {
            assert(input[0] == c);
            assert(c != '"' && c != '\\');
            assert(input.skip(1) =~= esc_str(s.skip(1)) + seq!['"'] + rest);
            assert(seq![c] + s.skip(1) =~= s);
        }
    }
}

/// Parsing a JSON string undoes serializing one.
proof fn lemma_parse_str(s: Seq<char>, rest: Seq<char>)
    ensures
        parse_str(ser_str(s) + rest) == Some((s, rest)),
{
    let input = ser_str(s) + rest;
    assert(input[0] == '"');
    assert(input.skip(1) =~= esc_str(s) + seq!['"'] + rest);
    lemma_parse_str_body(s, rest);
}

/// Decimal notation is at least one character, all of them digits.
proof fn lemma_dec_of_digits(n: nat)
    ensures
        dec_of(n).len() >= 1,
        forall|i: int| 0 <= i < dec_of(n).len() ==> is_digit(#[trigger] dec_of(n)[i]),
    decreases n,
{
    if n >= 10 {
        lemma_dec_of_digits(n / 10);
        assert forall|i: int| 0 <= i < dec_of(n).len() implies is_digit(#[trigger] dec_of(n)[i]) by {
            if i < dec_of(n / 10).len() {
                assert(dec_of(n)[i] == dec_of(n / 10)[i]);
            } else {
                assert(dec_of(n)[i] == digit_char((n % 10) as int));
            }
        }
    }
}

/// A digit run at the front of the input is taken exactly, up to the
/// first non-digit.
proof fn lemma_take_digits_exact(d: Seq<char>, rest: Seq<char>)
    requires
        forall|i: int| 0 <= i < d.len() ==> is_digit(#[trigger] d[i]),
        rest.len() == 0 || !is_digit(rest[0]),
    ensures
        take_digits(d + rest) == (d, rest),
    decreases d.len(),
{
    if d.len() == 0 {
        assert(d + rest =~= rest);
        assert(d =~= Seq::<char>::empty());
    } else {
        assert((d + rest)[0] == d[0]);
        assert((d + rest).skip(1) =~= d.skip(1) + rest);
        lemma_take_digits_exact(d.skip(1), rest);
        assert(seq![d[0]] + d.skip(1) =~= d);
    }
}

/// Reading the decimal notation of a number back gives the number.
proof fn lemma_val_of_dec(n: nat)
    ensures
        val_of_digits(dec_of(n)) == n,
    decreases n,
{
    assert forall|d: int| 0 <= d < 10 implies digit_val(digit_char(d)) == d by {
        assert(digit_char(d) == digit_char(d));
    }
    if n < 10 {
        assert(dec_of(n) == seq![digit_char(n as int)]);
        assert(dec_of(n).len() == 1);
        assert(dec_of(n).drop_last() =~= Seq::<char>::empty());
        assert(dec_of(n).last() == digit_char(n as int));
        assert(val_of_digits(Seq::<char>::empty()) == 0);
        assert(val_of_digits(dec_of(n)) == 0 * 10 + digit_val(digit_char(n as int)));
    } else {
        lemma_val_of_dec(n / 10);
        assert(dec_of(n).drop_last() =~= dec_of(n / 10));
        assert(dec_of(n).last() == digit_char((n % 10) as int));
        assert(val_of_digits(dec_of(n)) == (n / 10) * 10 + (n % 10));
        assert((n / 10) * 10 + (n % 10) == n) by {
            vstd::arithmetic::div_mod::lemma_fundamental_div_mod(n as int, 10);
        }
    }
}

/// Parsing an unsigned number undoes serializing one, as long as what
/// follows does not begin with a digit.
proof fn lemma_parse_u32(v: u32, rest: Seq<char>)
    requires
        rest.len() == 0 || !is_digit(rest[0]),
    ensures
        parse_u32(ser_u32(v) + rest) == Some((v, rest)),
{
    lemma_dec_of_digits(v as nat);
    lemma_take_digits_exact(dec_of(v as nat), rest);
    lemma_val_of_dec(v as nat);
}

/// Parsing a signed number undoes serializing one, as long as what
/// follows does not begin with a digit.
proof fn lemma_parse_i64(v: i64, rest: Seq<char>)
    requires
        rest.len() == 0 || !is_digit(rest[0]),
    ensures
        parse_i64(ser_i64(v) + rest) == Some((v, rest)),
{
    if v < 0 {
        let m = (-(v as int)) as nat;
        let input = ser_i64(v) + rest;
        lemma_dec_of_digits(m);
        lemma_take_digits_exact(dec_of(m), rest);
        lemma_val_of_dec(m);
        assert(input[0] == '-');
        assert(input.skip(1) =~= dec_of(m) + rest);
    } else {
        let input = ser_i64(v) + rest;
        lemma_dec_of_digits(v as nat);
        lemma_take_digits_exact(dec_of(v as nat), rest);
        lemma_val_of_dec(v as nat);
        assert(input[0] == dec_of(v as nat)[0]);
        assert(!(input[0] == '-'));
        assert(input =~= dec_of(v as nat) + rest);
    }
}

/// Parsing one point undoes serializing one.
proof fn lemma_parse_point(p: (i64, u32), rest: Seq<char>)
    ensures
        parse_point(ser_point(p) + rest) == Some((p, rest)),
{
    let input = ser_point(p) + rest;
    let t1 = ser_i64(p.0) + (seq![','] + (ser_u32(p.1) + (seq![']'] + rest)));
    assert(input =~= seq!['['] + t1);
    lemma_parse_lit(seq!['['], t1);
    let t2 = seq![','] + (ser_u32(p.1) + (seq![']'] + rest));
    lemma_parse_i64(p.0, t2);
    let t3 = ser_u32(p.1) + (seq![']'] + rest);
    lemma_parse_lit(seq![','], t3);
    let t4 = seq![']'] + rest;
    lemma_parse_u32(p.1, t4);
    lemma_parse_lit(seq![']'], rest);
}

/// Parsing a point-array tail undoes serializing one, with fuel for at
/// least as many points as the tail holds.
proof fn lemma_parse_points_tail(ps: Seq<(i64, u32)>, rest: Seq<char>, fuel: nat)
    requires
        fuel >= ps.len(),
    ensures
        parse_points_tail(ser_points_tail(ps) + rest, fuel) == Some((ps, rest)),
    decreases ps.len(),
{
    let input = ser_points_tail(ps) + rest;
    if ps.len() == 0 {
        assert(input =~= seq![']'] + rest);
        assert(input[0] == ']');
        assert(input.skip(1) =~= rest);
        assert(ps =~= Seq::<(i64, u32)>::empty());
    } else {
        assert(input[0] == ',');
        let t1 = ser_points_tail(ps.skip(1)) + rest;
        assert(input.skip(1) =~= ser_point(ps[0]) + t1);
        lemma_parse_point(ps[0], t1);
        lemma_parse_points_tail(ps.skip(1), rest, (fuel - 1) as nat);
        assert(seq![ps[0]] + ps.skip(1) =~= ps);
    }
}

/// Parsing a point array undoes serializing one.
proof fn lemma_parse_points(ps: Seq<(i64, u32)>, rest: Seq<char>, fuel: nat)
    requires
        fuel >= ps.len(),
    ensures
        parse_points(ser_points(ps) + rest, fuel) == Some((ps, rest)),
{
    let input = ser_points(ps) + rest;
    if ps.len() == 0 {
        assert(input =~= seq!['[', ']'] + rest);
        assert(input[0] == '[');
        assert(input.skip(1) =~= seq![']'] + rest);
        assert(input.skip(1)[0] == ']');
        assert(input.skip(1).skip(1) =~= rest);
        assert(ps =~= Seq::<(i64, u32)>::empty());
    } else {
        assert(input[0] == '[');
        let t1 = ser_points_tail(ps.skip(1)) + rest;
        assert(input.skip(1) =~= ser_point(ps[0]) + t1);
        assert((ser_point(ps[0]) + t1)[0] == '[');
        lemma_parse_point(ps[0], t1);
        lemma_parse_points_tail(ps.skip(1), rest, fuel);
        assert(seq![ps[0]] + ps.skip(1) =~= ps);
    }
}

/// Parsing a string-array tail undoes serializing one.
proof fn lemma_parse_strs_tail(ts: Seq<Seq<char>>, rest: Seq<char>, fuel: nat)
    requires
        fuel >= ts.len(),
    ensures
        parse_strs_tail(ser_strs_tail(ts) + rest, fuel) == Some((ts, rest)),
    decreases ts.len(),
{
    let input = ser_strs_tail(ts) + rest;
    if ts.len() == 0 {
        assert(input =~= seq![']'] + rest);
        assert(input[0] == ']');
        assert(input.skip(1) =~= rest);
        assert(ts =~= Seq::<Seq<char>>::empty());
    } else {
        assert(input[0] == ',');
        let t1 = ser_strs_tail(ts.skip(1)) + rest;
        assert(input.skip(1) =~= ser_str(ts[0]) + t1);
        lemma_parse_str(ts[0], t1);
        lemma_parse_strs_tail(ts.skip(1), rest, (fuel - 1) as nat);
        assert(seq![ts[0]] + ts.skip(1) =~= ts);
    }
}

/// Parsing a string array undoes serializing one.
proof fn lemma_parse_strs(ts: Seq<Seq<char>>, rest: Seq<char>, fuel: nat)
    requires
        fuel >= ts.len(),
    ensures
        parse_strs(ser_strs(ts) + rest, fuel) == Some((ts, rest)),
{
    let input = ser_strs(ts) + rest;
    if ts.len() == 0 {
        assert(input =~= seq!['[', ']'] + rest);
        assert(input[0] == '[');
        assert(input.skip(1) =~= seq![']'] + rest);
        assert(input.skip(1)[0] == ']');
        assert(input.skip(1).skip(1) =~= rest);
        assert(ts =~= Seq::<Seq<char>>::empty());
    } else {
        assert(input[0] == '[');
        let t1 = ser_strs_tail(ts.skip(1)) + rest;
        assert(input.skip(1) =~= ser_str(ts[0]) + t1);
        assert((ser_str(ts[0]) + t1)[0] == '"');
        lemma_parse_str(ts[0], t1);
        lemma_parse_strs_tail(ts.skip(1), rest, fuel);
        assert(seq![ts[0]] + ts.skip(1) =~= ts);
    }
}

/// A serialized point-array tail is longer than the number of points.
proof fn lemma_ser_points_tail_len(ps: Seq<(i64, u32)>)
    ensures
        ser_points_tail(ps).len() >= ps.len() + 1,
    decreases ps.len(),
{
    if ps.len() > 0 {
        lemma_ser_points_tail_len(ps.skip(1));
    }
}

/// A serialized point array is at least as long as its point count.
proof fn lemma_ser_points_len(ps: Seq<(i64, u32)>)
    ensures
        ser_points(ps).len() >= ps.len(),
{
    if ps.len() > 0 {
        lemma_ser_points_tail_len(ps.skip(1));
    }
}

/// A serialized string-array tail is longer than the number of strings.
proof fn lemma_ser_strs_tail_len(ts: Seq<Seq<char>>)
    ensures
        ser_strs_tail(ts).len() >= ts.len() + 1,
    decreases ts.len(),
{
    if ts.len() > 0 {
        lemma_ser_strs_tail_len(ts.skip(1));
    }
}

/// A serialized string array is at least as long as its string count.
proof fn lemma_ser_strs_len(ts: Seq<Seq<char>>)
    ensures
        ser_strs(ts).len() >= ts.len(),
{
    if ts.len() > 0 {
        lemma_ser_strs_tail_len(ts.skip(1));
    }
}

/// A serialized metric is longer than its point and tag counts put
/// together.
proof fn lemma_ser_metric_len(m: MetricView)
    ensures
        ser_metric(m).len() >= m.points.len() + m.tags.len() + 1,
{
    lemma_ser_points_len(m.points);
    lemma_ser_strs_len(m.tags);
}

/// A serialized metric-list tail is longer than the number of metrics.
proof fn lemma_ser_metrics_tail_len(ms: Seq<MetricView>)
    ensures
        ser_metrics_tail(ms).len() >= ms.len() + 1,
    decreases ms.len(),
{
    if ms.len() > 0 {
        lemma_ser_metrics_tail_len(ms.skip(1));
    }
}

/// A serialized metric-list tail is long enough to cover any one of its
/// metrics' inner counts on top of the metric count itself.
proof fn lemma_ser_metrics_tail_elem_len(ms: Seq<MetricView>, i: int)
    requires
        0 <= i < ms.len(),
    ensures
        ser_metrics_tail(ms).len() >= ms.len() + ms[i].points.len() + ms[i].tags.len() + 1,
    decreases i,
{
    if i == 0 {
        lemma_ser_metric_len(ms[0]);
        lemma_ser_metrics_tail_len(ms.skip(1));
    } else {
        lemma_ser_metric_len(ms[0]);
        lemma_ser_metrics_tail_elem_len(ms.skip(1), i - 1);
        assert(ms.skip(1)[i - 1] == ms[i]);
    }
}

/// Parsing one metric undoes serializing one, with fuel for its point
/// and tag counts.
proof fn lemma_parse_metric(m: MetricView, rest: Seq<char>, fuel: nat)
    requires
        fuel >= m.points.len(),
        fuel >= m.tags.len(),
    ensures
        parse_metric(ser_metric(m) + rest, fuel) == Some((m, rest)),
{
    let input = ser_metric(m) + rest;
    let t8 = seq!['}'] + rest;
    let t7 = ser_strs(m.tags) + t8;
    let t6 = ",\"tags\":"@ + t7;
    let t5 = ser_str(m.metric_type) + t6;
    let t4 = ",\"type\":"@ + t5;
    let t3 = ser_points(m.points) + t4;
    let t2 = ",\"points\":"@ + t3;
    let t1 = ser_str(m.metric) + t2;
    assert(input =~= "{\"metric\":"@ + t1);
    lemma_parse_lit("{\"metric\":"@, t1);
    lemma_parse_str(m.metric, t2);
    lemma_parse_lit(",\"points\":"@, t3);
    lemma_parse_points(m.points, t4, fuel);
    lemma_parse_lit(",\"type\":"@, t5);
    lemma_parse_str(m.metric_type, t6);
    lemma_parse_lit(",\"tags\":"@, t7);
    lemma_parse_strs(m.tags, t8, fuel);
    lemma_parse_lit(seq!['}'], rest);
    assert(MetricView { metric: m.metric, points: m.points, metric_type: m.metric_type, tags: m.tags } == m);
}

/// Parsing a metric-list tail undoes serializing one, with fuel for the
/// metric count and each metric's inner counts.
proof fn lemma_parse_metrics_tail(ms: Seq<MetricView>, rest: Seq<char>, fuel: nat)
    requires
        forall|i: int| 0 <= i < ms.len() ==> fuel >= ms.len() + (#[trigger] ms[i]).points.len()
            + ms[i].tags.len(),
    ensures
        parse_metrics_tail(ser_metrics_tail(ms) + rest, fuel) == Some((ms, rest)),
    decreases ms.len(),
{
    let input = ser_metrics_tail(ms) + rest;
    if ms.len() == 0 {
        assert(input =~= seq![']'] + (seq!['}'] + rest));
        assert(input[0] == ']');
        assert(input.skip(1) =~= seq!['}'] + rest);
        lemma_parse_lit(seq!['}'], rest);
        assert(ms =~= Seq::<MetricView>::empty());
    } else {
        assert(input[0] == ',');
        assert(fuel >= ms.len() + ms[0].points.len() + ms[0].tags.len());
        let t1 = ser_metrics_tail(ms.skip(1)) + rest;
        assert(input.skip(1) =~= ser_metric(ms[0]) + t1);
        lemma_parse_metric(ms[0], t1, (fuel - 1) as nat);
        assert forall|i: int| 0 <= i < ms.skip(1).len() implies (fuel - 1) as nat >= ms.skip(
            1,
        ).len() + (#[trigger] ms.skip(1)[i]).points.len() + ms.skip(1)[i].tags.len() by {
            assert(ms.skip(1)[i] == ms[i + 1]);
            assert(fuel >= ms.len() + ms[i + 1].points.len() + ms[i + 1].tags.len());
        }
        lemma_parse_metrics_tail(ms.skip(1), rest, (fuel - 1) as nat);
        assert(seq![ms[0]] + ms.skip(1) =~= ms);
    }
}

/// Law: parsing a serialized series yields exactly the metrics that
/// were serialized — names, points, kinds and tag lists all round-trip.
pub proof fn lemma_series_roundtrip(ms: Seq<MetricView>)
    ensures
        parse_series_payload(ser_series(ms)) == Some(ms),
{
    let input = ser_series(ms);
    let fuel = input.len();
    if ms.len() == 0 {
        let t1 = seq![']', '}'];
        assert(input =~= "{\"series\":["@ + t1);
        lemma_parse_lit("{\"series\":["@, t1);
        assert(t1[0] == ']');
        assert(t1.skip(1) =~= seq!['}'] + Seq::<char>::empty());
        lemma_parse_lit(seq!['}'], Seq::<char>::empty());
        assert(ms =~= Seq::<MetricView>::empty());
    } else {
        let tail = ser_metrics_tail(ms.skip(1));
        let t1 = ser_metric(ms[0]) + tail;
        assert(input =~= "{\"series\":["@ + t1);
        lemma_parse_lit("{\"series\":["@, t1);
        reveal_strlit("{\"metric\":");
        assert(ser_metric(ms[0])[0] == '{');
        assert(t1[0] == '{');
        lemma_ser_metric_len(ms[0]);
        lemma_ser_metrics_tail_len(ms.skip(1));
        assert(fuel >= ms[0].points.len() && fuel >= ms[0].tags.len());
        lemma_parse_metric(ms[0], tail, fuel);
        assert forall|i: int| 0 <= i < ms.skip(1).len() implies fuel >= ms.skip(1).len() + (
        #[trigger] ms.skip(1)[i]).points.len() + ms.skip(1)[i].tags.len() by {
            lemma_ser_metrics_tail_elem_len(ms.skip(1), i);
            lemma_ser_metric_len(ms[0]);
        }
        lemma_parse_metrics_tail(ms.skip(1), Seq::<char>::empty(), fuel);
        assert(tail + Seq::<char>::empty() =~= tail);
        assert(seq![ms[0]] + ms.skip(1) =~= ms);
    }
}

// ---------------------------------------------------------------------
// The executable parser.
// ---------------------------------------------------------------------

/// The characters of a string, as a vector.
fn chars_of_str(s: &str) -> (r: Vec<char>)
    ensures
        r@ == s@,
{
    let n: usize = s.unicode_len();
    let mut out: Vec<char> = Vec::new();
    let mut k: usize = 0;
    while k < n
        invariant
            n == s@.len(),
            k <= n,
            out@ == s@.take(k as int),
        decreases n - k,
    {
        out.push(s.get_char(k));
        proof {
            assert(s@.take(k as int).push(s@[k as int]) =~= s@.take(k as int + 1));
        }
        k = k + 1;
    }
    proof {
        assert(s@.take(s@.len() as int) =~= s@);
    }
    out
}

/// Consume one expected character.
fn eat(v: &Vec<char>, i: usize, c: char) -> (r: Option<usize>)
    requires
        i <= v@.len(),
    ensures
        match r {
            Some(n) => n <= v@.len() && parse_lit(v@.skip(i as int), seq![c]) == Some(
                v@.skip(n as int),
            ),
            None => parse_lit(v@.skip(i as int), seq![c]) is None,
        },
{
    if i < v.len() && v[i] == c {
        proof {
            assert(v@.skip(i as int)[0] == v@[i as int]);
            assert(seq![c].skip(1) =~= Seq::<char>::empty());
            assert(v@.skip(i as int).skip(1) =~= v@.skip(i as int + 1));
            assert(parse_lit(v@.skip(i as int + 1), Seq::<char>::empty()) == Some(
                v@.skip(i as int + 1),
            ));
        }
        Some(i + 1)
    } else {
        proof {
            if i < v@.len() {
                assert(v@.skip(i as int)[0] == v@[i as int]);
            } else {
                assert(v@.skip(i as int).len() == 0);
            }
        }
        None
    }
}

/// Consume an expected literal, from its character `j` on.
fn expect_lit(v: &Vec<char>, i: usize, lit: &str, j: usize) -> (r: Option<usize>)
    requires
        i <= v@.len(),
        j <= lit@.len(),
    ensures
        match r {
            Some(n) => n <= v@.len() && parse_lit(v@.skip(i as int), lit@.skip(j as int)) == Some(
                v@.skip(n as int),
            ),
            None => parse_lit(v@.skip(i as int), lit@.skip(j as int)) is None,
        },
    decreases lit@.len() - j,
{
    let llen: usize = lit.unicode_len();
    if j == llen {
        proof {
            assert(lit@.skip(j as int) =~= Seq::<char>::empty());
        }
        Some(i)
    } else if i < v.len() {
        let lc = lit.get_char(j);
        proof {
            assert(v@.skip(i as int)[0] == v@[i as int]);
            assert(lit@.skip(j as int)[0] == lit@[j as int]);
        }
        if v[i] == lc {
            proof {
                assert(v@.skip(i as int).skip(1) =~= v@.skip(i as int + 1));
                assert(lit@.skip(j as int).skip(1) =~= lit@.skip(j as int + 1));
            }
            expect_lit(v, i + 1, lit, j + 1)
        } else {
            None
        }
    } else {
        proof {
            assert(v@.skip(i as int).len() == 0);
        }
        None
    }
}

/// The character an escape letter stands for, executably.
fn unesc_char_of(c: char) -> (r: Option<char>)
    ensures
        r == unesc_char(c),
{
    if c == '"' {
        Some('"')
    } else if c == '\\' {
        Some('\\')
    } else if c == 'n' {
        Some('\n')
    } else if c == 'r' {
        Some('\r')
    } else if c == 't' {
        Some('\t')
    } else {
        None
    }
}

/// The inside of a JSON string, unescaped, up to its closing quote.
fn p_str_body(v: &Vec<char>, i: usize) -> (r: Option<(Vec<char>, usize)>)
    requires
        i <= v@.len(),
    ensures
        match r {
            Some(p) => p.1 <= v@.len() && parse_str_body(v@.skip(i as int)) == Some(
                (p.0@, v@.skip(p.1 as int)),
            ),
            None => parse_str_body(v@.skip(i as int)) is None,
        },
    decreases v@.len() - i,
{
    if i == v.len() {
        proof {
            assert(v@.skip(i as int).len() == 0);
        }
        None
    } else {
        let c = v[i];
        proof {
            assert(v@.skip(i as int)[0] == v@[i as int]);
        }
        if c == '"' {
            let empty: Vec<char> = Vec::new();
            proof {
                assert(v@.skip(i as int).skip(1) =~= v@.skip(i as int + 1));
                assert(empty@ =~= Seq::<char>::empty());
            }
            Some((empty, i + 1))
        } else if c == '\\' {
            if i + 1 == v.len() {
                proof {
                    assert(v@.skip(i as int).len() == 1);
                }
                None
            } else {
                proof {
                    assert(v@.skip(i as int).len() >= 2);
                    assert(v@.skip(i as int)[1] == v@[i as int + 1]);
                }
                match unesc_char_of(v[i + 1]) {
                    None => None,
                    Some(u) => {
                        proof {
                            assert(v@.skip(i as int).skip(2) =~= v@.skip(i as int + 2));
                        }
                        match p_str_body(v, i + 2) {
                            None => None,
                            Some((mut t, j)) => {
                                let ghost tpre = t@;
                                t.insert(0, u);
                                proof {
                                    assert(t@ =~= seq![u] + tpre);
                                }
                                Some((t, j))
                            },
                        }
                    },
                }
            }
        } else {
            proof {
                assert(v@.skip(i as int).skip(1) =~= v@.skip(i as int + 1));
            }
            match p_str_body(v, i + 1) {
                None => None,
                Some((mut t, j)) => {
                    let ghost tpre = t@;
                    t.insert(0, c);
                    proof {
                        assert(t@ =~= seq![c] + tpre);
                    }
                    Some((t, j))
                },
            }
        }
    }
}

/// A JSON string, quotes included.
fn p_str(v: &Vec<char>, i: usize) -> (r: Option<(Vec<char>, usize)>)
    requires
        i <= v@.len(),
    ensures
        match r {
            Some(p) => p.1 <= v@.len() && parse_str(v@.skip(i as int)) == Some(
                (p.0@, v@.skip(p.1 as int)),
            ),
            None => parse_str(v@.skip(i as int)) is None,
        },
{
    if i < v.len() {
        proof {
            assert(v@.skip(i as int)[0] == v@[i as int]);
        }
        if v[i] == '"' {
            proof {
                assert(v@.skip(i as int).skip(1) =~= v@.skip(i as int + 1));
            }
            p_str_body(v, i + 1)
        } else {
            None
        }
    } else {
        proof {
            assert(v@.skip(i as int).len() == 0);
        }
        None
    }
}

/// Whether a character is a decimal digit, executably.
fn is_digit_of(c: char) -> (r: bool)
    ensures
        r == is_digit(c),
{
    c == '0' || c == '1' || c == '2' || c == '3' || c == '4' || c == '5' || c == '6' || c == '7'
        || c == '8' || c == '9'
}

/// The value of one digit character, executably.
fn digit_val_of(c: char) -> (r: u32)
    requires
        is_digit(c),
    ensures
        r as int == digit_val(c),
{
    if c == '0' {
        0
    } else if c == '1' {
        1
    } else if c == '2' {
        2
    } else if c == '3' {
        3
    } else if c == '4' {
        4
    } else if c == '5' {
        5
    } else if c == '6' {
        6
    } else if c == '7' {
        7
    } else if c == '8' {
        8
    } else {
        9
    }
}

/// The digit run at the front, and where it ends.
fn p_take_digits(v: &Vec<char>, i: usize) -> (r: (Vec<char>, usize))
    requires
        i <= v@.len(),
    ensures
        r.1 <= v@.len(),
        take_digits(v@.skip(i as int)) == (r.0@, v@.skip(r.1 as int)),
        forall|k: int| 0 <= k < r.0@.len() ==> is_digit(#[trigger] r.0@[k]),
    decreases v@.len() - i,
{
    if i < v.len() {
        let c = v[i];
        proof {
            assert(v@.skip(i as int)[0] == v@[i as int]);
        }
        if is_digit_of(c) {
            proof {
                assert(v@.skip(i as int).skip(1) =~= v@.skip(i as int + 1));
            }
            let (mut d, j) = p_take_digits(v, i + 1);
            let ghost dpre = d@;
            d.insert(0, c);
            proof {
                assert(d@ =~= seq![c] + dpre);
                assert forall|k: int| 0 <= k < d@.len() implies is_digit(#[trigger] d@[k]) by {
                    if k == 0 {
                        assert(d@[k] == c);
                    } else {
                        assert(d@[k] == dpre[k - 1]);
                    }
                }
            }
            (d, j)
        } else {
            let empty: Vec<char> = Vec::new();
            proof {
                assert(empty@ =~= Seq::<char>::empty());
            }
            (empty, i)
        }
    } else {
        let empty: Vec<char> = Vec::new();
        proof {
            assert(v@.skip(i as int).len() == 0);
            assert(empty@ =~= Seq::<char>::empty());
        }
        (empty, i)
    }
}

/// The value of a digit run, unless it exceeds the given cap.
fn digits_value_capped(d: &Vec<char>, cap: u64) -> (r: Option<u64>)
    requires
        forall|k: int| 0 <= k < d@.len() ==> is_digit(#[trigger] d@[k]),
    ensures
        match r {
            Some(x) => x as int == val_of_digits(d@) && x <= cap,
            None => val_of_digits(d@) > cap,
        },
{
    let mut acc: u128 = 0;
    let mut over: bool = false;
    let mut k: usize = 0;
    while k < d.len()
        invariant
            k <= d@.len(),
            forall|k2: int| 0 <= k2 < d@.len() ==> is_digit(#[trigger] d@[k2]),
            !over ==> acc as int == val_of_digits(d@.take(k as int)) && acc <= cap as u128,
            over ==> val_of_digits(d@.take(k as int)) > cap,
        decreases d@.len() - k,
    {
        proof {
            assert(d@.take(k as int + 1).drop_last() =~= d@.take(k as int));
            assert(d@.take(k as int + 1).last() == d@[k as int]);
        }
        let c = d[k];
        let dv: u128 = digit_val_of(c) as u128;
        if !over {
            let next: u128 = acc * 10 + dv;
            if next > cap as u128 {
                over = true;
            } else {
                acc = next;
            }
        } else {
            proof {
                let prev = val_of_digits(d@.take(k as int));
                assert(digit_val(d@[k as int]) >= 0);
                assert(prev * 10 >= prev);
            }
        }
        k = k + 1;
    }
    proof {
        assert(d@.take(d@.len() as int) =~= d@);
    }
    if over {
        None
    } else {
        Some(acc as u64)
    }
}

/// An unsigned JSON number that fits the counter type.
fn p_u32(v: &Vec<char>, i: usize) -> (r: Option<(u32, usize)>)
    requires
        i <= v@.len(),
    ensures
        match r {
            Some(p) => p.1 <= v@.len() && parse_u32(v@.skip(i as int)) == Some(
                (p.0, v@.skip(p.1 as int)),
            ),
            None => parse_u32(v@.skip(i as int)) is None,
        },
{
    let (d, j) = p_take_digits(v, i);
    if d.len() == 0 {
        None
    } else {
        match digits_value_capped(&d, 4294967295u64) {
            Some(x) => Some((x as u32, j)),
            None => None,
        }
    }
}

/// A signed JSON number that fits the timestamp type.
fn p_i64(v: &Vec<char>, i: usize) -> (r: Option<(i64, usize)>)
    requires
        i <= v@.len(),
    ensures
        match r {
            Some(p) => p.1 <= v@.len() && parse_i64(v@.skip(i as int)) == Some(
                (p.0, v@.skip(p.1 as int)),
            ),
            None => parse_i64(v@.skip(i as int)) is None,
        },
{
    proof {
        if i < v@.len() {
            assert(v@.skip(i as int)[0] == v@[i as int]);
        } else {
            assert(v@.skip(i as int).len() == 0);
        }
    }
    if i < v.len() && v[i] == '-' {
        proof {
            assert(v@.skip(i as int).skip(1) =~= v@.skip(i as int + 1));
        }
        let (d, j) = p_take_digits(v, i + 1);
        if d.len() == 0 {
            None
        } else {
            match digits_value_capped(&d, 9223372036854775808u64) {
                Some(x) => {
                    let value: i64 = if x == 9223372036854775808u64 {
                        i64::MIN
                    } else {
                        -(x as i64)
                    };
                    proof {
                        assert(value as int == -val_of_digits(d@));
                    }
                    Some((value, j))
                },
                None => None,
            }
        }
    } else {
        let (d, j) = p_take_digits(v, i);
        if d.len() == 0 {
            None
        } else {
            match digits_value_capped(&d, 9223372036854775807u64) {
                Some(x) => Some((x as i64, j)),
                None => None,
            }
        }
    }
}

/// One point `[timestamp,value]`.
fn p_point(v: &Vec<char>, i: usize) -> (r: Option<((i64, u32), usize)>)
    requires
        i <= v@.len(),
    ensures
        match r {
            Some(p) => p.1 <= v@.len() && parse_point(v@.skip(i as int)) == Some(
                (p.0, v@.skip(p.1 as int)),
            ),
            None => parse_point(v@.skip(i as int)) is None,
        },
{
    match eat(v, i, '[') {
        None => None,
        Some(i1) => match p_i64(v, i1) {
            None => None,
            Some((t, i2)) => match eat(v, i2, ',') {
                None => None,
                Some(i3) => match p_u32(v, i3) {
                    None => None,
                    Some((value, i4)) => match eat(v, i4, ']') {
                        None => None,
                        Some(i5) => Some(((t, value), i5)),
                    },
                },
            },
        },
    }
}

/// The points after the first, up to the closing bracket.
fn p_points_tail(v: &Vec<char>, i: usize, fuel: usize) -> (r: Option<(Vec<(i64, u32)>, usize)>)
    requires
        i <= v@.len(),
    ensures
        match r {
            Some(p) => p.1 <= v@.len() && parse_points_tail(v@.skip(i as int), fuel as nat)
                == Some((p.0@, v@.skip(p.1 as int))),
            None => parse_points_tail(v@.skip(i as int), fuel as nat) is None,
        },
    decreases fuel,
{
    if i == v.len() {
        proof {
            assert(v@.skip(i as int).len() == 0);
        }
        return None;
    }
    let c = v[i];
    proof {
        assert(v@.skip(i as int)[0] == v@[i as int]);
    }
    if c == ']' {
        let empty: Vec<(i64, u32)> = Vec::new();
        proof {
            assert(v@.skip(i as int).skip(1) =~= v@.skip(i as int + 1));
            assert(empty@ =~= Seq::<(i64, u32)>::empty());
        }
        Some((empty, i + 1))
    } else if c == ',' && fuel > 0 {
        proof {
            assert(v@.skip(i as int).skip(1) =~= v@.skip(i as int + 1));
        }
        match p_point(v, i + 1) {
            None => None,
            Some((p, j)) => match p_points_tail(v, j, fuel - 1) {
                None => None,
                Some((mut ps, j2)) => {
                    let ghost pspre = ps@;
                    ps.insert(0, p);
                    proof {
                        assert(ps@ =~= seq![p] + pspre);
                    }
                    Some((ps, j2))
                },
            },
        }
    } else {
        None
    }
}

/// A JSON array of points.
fn p_points(v: &Vec<char>, i: usize, fuel: usize) -> (r: Option<(Vec<(i64, u32)>, usize)>)
    requires
        i <= v@.len(),
    ensures
        match r {
            Some(p) => p.1 <= v@.len() && parse_points(v@.skip(i as int), fuel as nat) == Some(
                (p.0@, v@.skip(p.1 as int)),
            ),
            None => parse_points(v@.skip(i as int), fuel as nat) is None,
        },
{
    proof {
        if i < v@.len() {
            assert(v@.skip(i as int)[0] == v@[i as int]);
        } else {
            assert(v@.skip(i as int).len() == 0);
        }
    }
    if i < v.len() && v[i] == '[' {
        let i1 = i + 1;
        proof {
            assert(v@.skip(i as int).skip(1) =~= v@.skip(i1 as int));
            if i1 < v@.len() {
                assert(v@.skip(i1 as int)[0] == v@[i1 as int]);
            } else {
                assert(v@.skip(i1 as int).len() == 0);
            }
        }
        if i1 < v.len() && v[i1] == ']' {
            let empty: Vec<(i64, u32)> = Vec::new();
            proof {
                assert(v@.skip(i1 as int).skip(1) =~= v@.skip(i1 as int + 1));
                assert(empty@ =~= Seq::<(i64, u32)>::empty());
            }
            Some((empty, i1 + 1))
        } else {
            match p_point(v, i1) {
                None => None,
                Some((p, j)) => match p_points_tail(v, j, fuel) {
                    None => None,
                    Some((mut ps, j2)) => {
                        let ghost pspre = ps@;
                        ps.insert(0, p);
                        proof {
                            assert(ps@ =~= seq![p] + pspre);
                        }
                        Some((ps, j2))
                    },
                },
            }
        }
    } else {
        None
    }
}

/// The strings after the first, up to the closing bracket.
fn p_strs_tail(v: &Vec<char>, i: usize, fuel: usize) -> (r: Option<(Vec<String>, usize)>)
    requires
        i <= v@.len(),
    ensures
        match r {
            Some(p) => p.1 <= v@.len() && parse_strs_tail(v@.skip(i as int), fuel as nat) == Some(
                (p.0.deep_view(), v@.skip(p.1 as int)),
            ),
            None => parse_strs_tail(v@.skip(i as int), fuel as nat) is None,
        },
    decreases fuel,
{
    if i == v.len() {
        proof {
            assert(v@.skip(i as int).len() == 0);
        }
        return None;
    }
    let c = v[i];
    proof {
        assert(v@.skip(i as int)[0] == v@[i as int]);
    }
    if c == ']' {
        let empty: Vec<String> = Vec::new();
        proof {
            assert(v@.skip(i as int).skip(1) =~= v@.skip(i as int + 1));
            assert(empty.deep_view() =~= Seq::<Seq<char>>::empty());
        }
        Some((empty, i + 1))
    } else if c == ',' && fuel > 0 {
        proof {
            assert(v@.skip(i as int).skip(1) =~= v@.skip(i as int + 1));
        }
        match p_str(v, i + 1) {
            None => None,
            Some((t, j)) => match p_strs_tail(v, j, fuel - 1) {
                None => None,
                Some((mut ts, j2)) => {
                    let ghost tspre = ts.deep_view();
                    ts.insert(0, string_from_chars(&t));
                    proof {
                        assert(ts.deep_view() =~~= seq![t@] + tspre);
                    }
                    Some((ts, j2))
                },
            },
        }
    } else {
        None
    }
}

/// A JSON array of strings.
fn p_strs(v: &Vec<char>, i: usize, fuel: usize) -> (r: Option<(Vec<String>, usize)>)
    requires
        i <= v@.len(),
    ensures
        match r {
            Some(p) => p.1 <= v@.len() && parse_strs(v@.skip(i as int), fuel as nat) == Some(
                (p.0.deep_view(), v@.skip(p.1 as int)),
            ),
            None => parse_strs(v@.skip(i as int), fuel as nat) is None,
        },
{
    proof {
        if i < v@.len() {
            assert(v@.skip(i as int)[0] == v@[i as int]);
        } else {
            assert(v@.skip(i as int).len() == 0);
        }
    }
    if i < v.len() && v[i] == '[' {
        let i1 = i + 1;
        proof {
            assert(v@.skip(i as int).skip(1) =~= v@.skip(i1 as int));
            if i1 < v@.len() {
                assert(v@.skip(i1 as int)[0] == v@[i1 as int]);
            } else {
                assert(v@.skip(i1 as int).len() == 0);
            }
        }
        if i1 < v.len() && v[i1] == ']' {
            let empty: Vec<String> = Vec::new();
            proof {
                assert(v@.skip(i1 as int).skip(1) =~= v@.skip(i1 as int + 1));
                assert(empty.deep_view() =~= Seq::<Seq<char>>::empty());
            }
            Some((empty, i1 + 1))
        } else {
            match p_str(v, i1) {
                None => None,
                Some((t, j)) => match p_strs_tail(v, j, fuel) {
                    None => None,
                    Some((mut ts, j2)) => {
                        let ghost tspre = ts.deep_view();
                        ts.insert(0, string_from_chars(&t));
                        proof {
                            assert(ts.deep_view() =~~= seq![t@] + tspre);
                        }
                        Some((ts, j2))
                    },
                },
            }
        }
    } else {
        None
    }
}

/// One metric object.
fn p_metric(v: &Vec<char>, i: usize, fuel: usize) -> (r: Option<(Metric, usize)>)
    requires
        i <= v@.len(),
    ensures
        match r {
            Some(p) => p.1 <= v@.len() && parse_metric(v@.skip(i as int), fuel as nat) == Some(
                (p.0@, v@.skip(p.1 as int)),
            ),
            None => parse_metric(v@.skip(i as int), fuel as nat) is None,
        },
{
    proof {
        assert("{\"metric\":"@.skip(0) =~= "{\"metric\":"@);
        assert(",\"points\":"@.skip(0) =~= ",\"points\":"@);
        assert(",\"type\":"@.skip(0) =~= ",\"type\":"@);
        assert(",\"tags\":"@.skip(0) =~= ",\"tags\":"@);
    }
    match expect_lit(v, i, "{\"metric\":", 0) {
        None => None,
        Some(i1) => match p_str(v, i1) {
            None => None,
            Some((name, i2)) => match expect_lit(v, i2, ",\"points\":", 0) {
                None => None,
                Some(i3) => match p_points(v, i3, fuel) {
                    None => None,
                    Some((points, i4)) => match expect_lit(v, i4, ",\"type\":", 0) {
                        None => None,
                        Some(i5) => match p_str(v, i5) {
                            None => None,
                            Some((ty, i6)) => match expect_lit(v, i6, ",\"tags\":", 0) {
                                None => None,
                                Some(i7) => match p_strs(v, i7, fuel) {
                                    None => None,
                                    Some((tags, i8)) => match eat(v, i8, '}') {
                                        None => None,
                                        Some(i9) => {
                                            let m = Metric {
                                                metric: string_from_chars(&name),
                                                points,
                                                metric_type: string_from_chars(&ty),
                                                tags,
                                            };
                                            proof {
                                                assert(m@ == MetricView {
                                                    metric: name@,
                                                    points: m.points@,
                                                    metric_type: ty@,
                                                    tags: m.tags.deep_view(),
                                                });
                                            }
                                            Some((m, i9))
                                        },
                                    },
                                },
                            },
                        },
                    },
                },
            },
        },
    }
}

/// The metrics after the first, up to the closing `]}`.
fn p_metrics_tail(v: &Vec<char>, i: usize, fuel: usize) -> (r: Option<(Vec<Metric>, usize)>)
    requires
        i <= v@.len(),
    ensures
        match r {
            Some(p) => p.1 <= v@.len() && parse_metrics_tail(v@.skip(i as int), fuel as nat)
                == Some((p.0.deep_view(), v@.skip(p.1 as int))),
            None => parse_metrics_tail(v@.skip(i as int), fuel as nat) is None,
        },
    decreases fuel,
{
    if i == v.len() {
        proof {
            assert(v@.skip(i as int).len() == 0);
        }
        return None;
    }
    let c = v[i];
    proof {
        assert(v@.skip(i as int)[0] == v@[i as int]);
    }
    if c == ']' {
        proof {
            assert(v@.skip(i as int).skip(1) =~= v@.skip(i as int + 1));
        }
        match eat(v, i + 1, '}') {
            None => None,
            Some(j) => {
                let empty: Vec<Metric> = Vec::new();
                proof {
                    assert(empty.deep_view() =~= Seq::<MetricView>::empty());
                }
                Some((empty, j))
            },
        }
    } else if c == ',' && fuel > 0 {
        proof {
            assert(v@.skip(i as int).skip(1) =~= v@.skip(i as int + 1));
        }
        match p_metric(v, i + 1, fuel - 1) {
            None => None,
            Some((m, j)) => match p_metrics_tail(v, j, fuel - 1) {
                None => None,
                Some((mut ms, j2)) => {
                    let ghost mspre = ms.deep_view();
                    let ghost mv = m@;
                    ms.insert(0, m);
                    proof {
                        assert(ms.deep_view() =~~= seq![mv] + mspre);
                    }
                    Some((ms, j2))
                },
            },
        }
    } else {
        None
    }
}

/// Parse a payload back into a series. Succeeds exactly on the strings
/// the wire format describes, consumed whole.
pub fn parse_series(text: &str) -> (r: Option<Series>)
    ensures
        match parse_series_payload(text@) {
            Some(ms) => r matches Some(s) && s@ == ms,
            None => r is None,
        },
{
    let v = chars_of_str(text);
    let fuel: usize = v.len();
    proof {
        assert(v@.skip(0) =~= v@);
        assert("{\"series\":["@.skip(0) =~= "{\"series\":["@);
    }
    match expect_lit(&v, 0, "{\"series\":[", 0) {
        None => None,
        Some(i1) => {
            proof {
                if i1 < v@.len() {
                    assert(v@.skip(i1 as int)[0] == v@[i1 as int]);
                } else {
                    assert(v@.skip(i1 as int).len() == 0);
                }
            }
            if i1 < v.len() && v[i1] == ']' {
                proof {
                    assert(v@.skip(i1 as int).skip(1) =~= v@.skip(i1 as int + 1));
                }
                match eat(&v, i1 + 1, '}') {
                    None => None,
                    Some(j) => {
                        if j == v.len() {
                            let s = Series::new();
                            Some(s)
                        } else {
                            None
                        }
                    },
                }
            } else {
                match p_metric(&v, i1, fuel) {
                    None => None,
                    Some((m, j)) => match p_metrics_tail(&v, j, fuel) {
                        None => None,
                        Some((mut ms, j2)) => {
                            if j2 == v.len() {
                                let ghost mspre = ms.deep_view();
                                let ghost mv = m@;
                                ms.insert(0, m);
                                proof {
                                    assert(ms.deep_view() =~~= seq![mv] + mspre);
                                }
                                Some(Series { series: ms })
                            } else {
                                None
                            }
                        },
                    },
                }
            }
        },
    }
}

// ---------------------------------------------------------------------
// Response classification.
// ---------------------------------------------------------------------

/// The one response status that counts as acceptance.
pub open spec fn accepted_status(status: u32) -> bool {
    status == 202
}

/// Classify a delivery response: status 202 is success, any other
/// status is a delivery error carrying the response body text.
pub fn delivery_outcome(status: u32, body: String) -> (r: Result<(), DeliveryError>)
    ensures
        r is Ok <==> accepted_status(status),
        !accepted_status(status) ==> (r matches Err(DeliveryError::Rejected { body: b }) && b@
            == body@),
{
    if status == 202 {
        Ok(())
    } else {
        Err(DeliveryError::Rejected { body })
    }
}

} // verus!
