//! "2h", "45m", "until 07:00", "tonight", "today", "weekend" → a unix time.

use chrono::{Datelike, TimeZone, Timelike};
use vstd::prelude::*;

use crate::state::now_seconds;
use crate::text::{
    chars_eq, chars_of, debug_char, debug_char_quoted, debug_quoted, debug_text, decimal, digit_char,
    decimal_chars, push_all, string_of,
};

verus! {

// ---------------------------------------------------------------------------
// Durations: "90m", "2h", "1h30m", "1d", "45" (minutes).
// ---------------------------------------------------------------------------

/// The largest span chrono's `TimeDelta` holds, in whole seconds:
/// `i64::MAX` milliseconds.
pub open spec fn max_delta_secs() -> int {
    9_223_372_036_854_775
}

pub open spec fn delta_fits(s: int) -> bool {
    -max_delta_secs() <= s <= max_delta_secs()
}

/// chrono's `TimeDelta::try_minutes`, in seconds.
#[verifier::external_body]
fn delta_minutes(n: i64) -> (r: Option<i64>)
    ensures
        r == if delta_fits(n * 60) { Some((n * 60) as i64) } else { None },
{
    chrono::TimeDelta::try_minutes(n).map(|d| d.num_seconds())
}

/// chrono's `TimeDelta::try_hours`, in seconds.
#[verifier::external_body]
fn delta_hours(n: i64) -> (r: Option<i64>)
    ensures
        r == if delta_fits(n * 3600) { Some((n * 3600) as i64) } else { None },
{
    chrono::TimeDelta::try_hours(n).map(|d| d.num_seconds())
}

/// chrono's `TimeDelta::try_days`, in seconds.
#[verifier::external_body]
fn delta_days(n: i64) -> (r: Option<i64>)
    ensures
        r == if delta_fits(n * 86400) { Some((n * 86400) as i64) } else { None },
{
    chrono::TimeDelta::try_days(n).map(|d| d.num_seconds())
}

/// chrono's `TimeDelta::checked_add` on two whole-second spans.
#[verifier::external_body]
fn delta_add(a: i64, b: i64) -> (r: Option<i64>)
    requires
        delta_fits(a as int),
        delta_fits(b as int),
    ensures
        r == if delta_fits(a + b) { Some((a + b) as i64) } else { None },
{
    chrono::TimeDelta::seconds(a).checked_add(&chrono::TimeDelta::seconds(b)).map(|d| d.num_seconds())
}

pub open spec fn is_digit(c: char) -> bool {
    '0' <= c && c <= '9'
}

/// The value of a run of decimal digits.
pub open spec fn digits_value(ds: Seq<char>) -> nat
    decreases ds.len(),
{
    if ds.len() == 0 {
        0
    } else {
        digits_value(ds.drop_last()) * 10 + ((ds.last() as int) - ('0' as int)) as nat
    }
}

/// `str::parse::<i64>` on a run of digits: none when empty or too large.
pub open spec fn parse_digits(ds: Seq<char>) -> Option<int> {
    if ds.len() == 0 || digits_value(ds) > i64::MAX {
        None
    } else {
        Some(digits_value(ds) as int)
    }
}

pub open spec fn unit_secs(c: char) -> Option<int> {
    if c == 'm' {
        Some(60)
    } else if c == 'h' {
        Some(3600)
    } else if c == 'd' {
        Some(86400)
    } else {
        None
    }
}

#[derive(Debug, Clone, Copy, PartialEq, Eq, Structural)]
pub enum DurationError {
    /// A number that is not one: empty before a unit, or too long.
    Unreadable,
    /// A letter that is not m, h or d.
    UnknownUnit(char),
    /// More than a `TimeDelta` can hold.
    TooLong,
    /// Nothing, or nothing positive.
    Empty,
}

/// Running total in seconds, digits read since the last unit, and whether
/// any part has been read.
pub type DurState = (int, Seq<char>, bool);

pub open spec fn dur_step(st: DurState, c: char) -> Result<DurState, DurationError> {
    if is_digit(c) {
        Ok((st.0, st.1.push(c), st.2))
    } else {
        match parse_digits(st.1) {
            None => Err(DurationError::Unreadable),
            Some(n) => match unit_secs(c) {
                None => Err(DurationError::UnknownUnit(c)),
                Some(k) => if delta_fits(n * k) && delta_fits(st.0 + n * k) {
                    Ok((st.0 + n * k, Seq::<char>::empty(), true))
                } else {
                    Err(DurationError::TooLong)
                },
            },
        }
    }
}

pub open spec fn dur_scan(cs: Seq<char>) -> Result<DurState, DurationError>
    decreases cs.len(),
{
    if cs.len() == 0 {
        Ok((0, Seq::<char>::empty(), false))
    } else {
        match dur_scan(cs.drop_last()) {
            Err(e) => Err(e),
            Ok(st) => dur_step(st, cs.last()),
        }
    }
}

/// The scan of `cs` started from the state `st`.
pub open spec fn dur_run(st: DurState, cs: Seq<char>) -> Result<DurState, DurationError>
    decreases cs.len(),
{
    if cs.len() == 0 {
        Ok(st)
    } else {
        match dur_run(st, cs.drop_last()) {
            Err(e) => Err(e),
            Ok(s1) => dur_step(s1, cs.last()),
        }
    }
}

proof fn lemma_scan_is_run(cs: Seq<char>)
    ensures
        dur_scan(cs) == dur_run((0, Seq::<char>::empty(), false), cs),
    decreases cs.len(),
{
    if cs.len() > 0 {
        lemma_scan_is_run(cs.drop_last());
    }
}

/// Scanning `a + b` is scanning `a`, then `b` from where `a` left off.
proof fn lemma_run_append(st: DurState, a: Seq<char>, b: Seq<char>)
    ensures
        dur_run(st, a + b) == match dur_run(st, a) {
            Ok(s1) => dur_run(s1, b),
            Err(e) => Err(e),
        },
    decreases b.len(),
{
    if b.len() == 0 {
        assert(a + b =~= a);
    } else {
        lemma_run_append(st, a, b.drop_last());
        assert((a + b).drop_last() =~= a + b.drop_last());
        assert((a + b).last() == b.last());
    }
}

/// The running total never goes down.
proof fn lemma_run_grows(st: DurState, cs: Seq<char>)
    ensures
        dur_run(st, cs) matches Ok(s2) ==> s2.0 >= st.0,
    decreases cs.len(),
{
    if cs.len() > 0 {
        lemma_run_grows(st, cs.drop_last());
    }
}

/// A scan started from a larger total ends larger by as much, as long as
/// that end still fits.
proof fn lemma_run_shift(c: int, ds: Seq<char>, f: bool, x: int, g: bool, cs: Seq<char>)
    requires
        x >= 0,
        c >= 0,
        dur_run((c, ds, f), cs) is Ok,
        delta_fits(x + dur_run((c, ds, f), cs)->Ok_0.0),
    ensures
        dur_run((x + c, ds, f || g), cs) == Ok::<DurState, DurationError>(
            (
                x + dur_run((c, ds, f), cs)->Ok_0.0,
                dur_run((c, ds, f), cs)->Ok_0.1,
                dur_run((c, ds, f), cs)->Ok_0.2 || g,
            ),
        ),
    decreases cs.len(),
{
    if cs.len() > 0 {
        let r1 = dur_run((c, ds, f), cs.drop_last());
        assert(r1 is Ok);
        let s1 = r1->Ok_0;
        lemma_run_grows((c, ds, f), cs.drop_last());
        let t = dur_run((c, ds, f), cs)->Ok_0.0;
        assert(dur_step(s1, cs.last())->Ok_0.0 >= s1.0);
        assert(delta_fits(x + s1.0));
        lemma_run_shift(c, ds, f, x, g, cs.drop_last());
    }
}

/// The span `s` names, in seconds; trailing digits are minutes.
pub open spec fn duration_spec(s: Seq<char>) -> Result<int, DurationError> {
    match dur_scan(s) {
        Err(e) => Err(e),
        Ok(st) => {
            let fin: Result<(int, bool), DurationError> = if st.1.len() > 0 {
                match parse_digits(st.1) {
                    None => Err(DurationError::Unreadable),
                    Some(n) => if delta_fits(n * 60) && delta_fits(st.0 + n * 60) {
                        Ok((st.0 + n * 60, true))
                    } else {
                        Err(DurationError::TooLong)
                    },
                }
            } else {
                Ok((st.0, st.2))
            };
            match fin {
                Err(e) => Err(e),
                Ok((t, any)) => if !any || t <= 0 {
                    Err(DurationError::Empty)
                } else {
                    Ok(t)
                },
            }
        }
    }
}

proof fn lemma_digits_grow(ds: Seq<char>, k: int)
    requires
        0 <= k <= ds.len(),
        forall|i: int| 0 <= i < ds.len() ==> is_digit(#[trigger] ds[i]),
    ensures
        digits_value(ds.take(k)) <= digits_value(ds),
    decreases ds.len() - k,
{
    if k < ds.len() {
        assert(ds.take(k + 1).drop_last() =~= ds.take(k));
        lemma_digits_grow(ds, k + 1);
    } else {
        assert(ds.take(k) =~= ds);
    }
}

/// Once the scan fails it stays failed, with the same error.
proof fn lemma_dur_err_sticks(cs: Seq<char>, k: int)
    requires
        0 <= k <= cs.len(),
        dur_scan(cs.take(k)) is Err,
    ensures
        dur_scan(cs) == dur_scan(cs.take(k)),
    decreases cs.len() - k,
{
    if k == cs.len() {
        assert(cs.take(k) =~= cs);
    } else {
        assert(cs.take(k + 1).drop_last() =~= cs.take(k));
        lemma_dur_err_sticks(cs, k + 1);
    }
}

/// A span followed by another is their sum: "1h" then "30m", read as
/// "1h30m", is ninety minutes, as long as the sum fits a `TimeDelta`.
pub proof fn lemma_spans_add(a: Seq<char>, b: Seq<char>)
    requires
        a.len() > 0,
        unit_secs(a.last()) is Some,
        duration_spec(a) is Ok,
        duration_spec(b) is Ok,
        delta_fits(duration_spec(a)->Ok_0 + duration_spec(b)->Ok_0),
    ensures
        duration_spec(a + b) == Ok::<int, DurationError>(duration_spec(a)->Ok_0 + duration_spec(b)->Ok_0),
{
    let x = duration_spec(a)->Ok_0;
    let y = duration_spec(b)->Ok_0;
    let start: DurState = (0, Seq::<char>::empty(), false);
    assert(!is_digit(a.last()));
    let sa = dur_scan(a)->Ok_0;
    assert(sa.1 =~= Seq::<char>::empty() && sa.2);
    assert(sa.0 == x);
    lemma_scan_is_run(a);
    lemma_scan_is_run(b);
    lemma_scan_is_run(a + b);
    lemma_run_append(start, a, b);
    let sb = dur_scan(b)->Ok_0;
    lemma_run_grows(start, b);
    assert(sb.0 >= 0);
    if sb.1.len() > 0 {
        assert(y == sb.0 + parse_digits(sb.1)->Some_0 * 60);
        assert(parse_digits(sb.1)->Some_0 >= 0);
    } else {
        assert(y == sb.0);
    }
    assert(delta_fits(x + sb.0));
    lemma_run_shift(0, Seq::<char>::empty(), false, x, true, b);
    assert(sa == (x + 0, Seq::<char>::empty(), false || true));
    assert(dur_scan(a + b) == Ok::<DurState, DurationError>((x + sb.0, sb.1, true)));
}

/// `str::parse::<i64>` on a run of digits.
fn parse_number(ds: &Vec<char>) -> (r: Option<i64>)
    requires
        forall|i: int| 0 <= i < ds@.len() ==> is_digit(#[trigger] ds@[i]),
    ensures
        r == match parse_digits(ds@) {
            Some(n) => Some(n as i64),
            None => None::<i64>,
        },
{
    if ds.len() == 0 {
        return None;
    }
    let mut acc: u64 = 0;
    let mut i: usize = 0;
    while i < ds.len()
        invariant
            i <= ds@.len(),
            forall|j: int| 0 <= j < ds@.len() ==> is_digit(#[trigger] ds@[j]),
            acc == digits_value(ds@.take(i as int)),
            acc <= i64::MAX,
        decreases ds@.len() - i,
    {
        let d = (ds[i] as u64) - ('0' as u64);
        assert(ds@.take(i + 1).drop_last() =~= ds@.take(i as int));
        assert(is_digit(ds@[i as int]));
        if acc > (9_223_372_036_854_775_807u64 - d) / 10 {
            proof {
                assert(acc * 10 + d > 9_223_372_036_854_775_807) by (nonlinear_arith)
                    requires
                        acc > (9_223_372_036_854_775_807u64 - d) / 10,
                        d < 10,
                ;
                lemma_digits_grow(ds@, i + 1);
            }
            return None;
        }
        proof {
            assert(acc * 10 + d <= 9_223_372_036_854_775_807) by (nonlinear_arith)
                requires
                    acc <= (9_223_372_036_854_775_807u64 - d) / 10,
                    d < 10,
            ;
        }
        acc = acc * 10 + d;
        i = i + 1;
    }
    assert(ds@.take(ds@.len() as int) =~= ds@);
    Some(acc as i64)
}

/// The span `s` names, in seconds.
pub fn duration_secs(s: &str) -> (r: Result<i64, DurationError>)
    ensures
        match r {
            Ok(t) => duration_spec(s@) == Ok::<int, DurationError>(t as int),
            Err(e) => duration_spec(s@) == Err::<int, DurationError>(e),
        },
{
    let cs = chars_of(s);
    let mut total: i64 = 0;
    let mut num: Vec<char> = Vec::new();
    let mut any = false;
    let mut i: usize = 0;
    assert(cs@.take(0) =~= Seq::<char>::empty());
    while i < cs.len()
        invariant
            i <= cs@.len(),
            cs@ == s@,
            dur_scan(cs@.take(i as int)) == Ok::<DurState, DurationError>((total as int, num@, any)),
            delta_fits(total as int),
            forall|j: int| 0 <= j < num@.len() ==> is_digit(#[trigger] num@[j]),
        decreases cs@.len() - i,
    {
        let c = cs[i];
        assert(cs@.take(i + 1).drop_last() =~= cs@.take(i as int));
        assert(cs@.take(i + 1).last() == c);
        if '0' <= c && c <= '9' {
            num.push(c);
        } else {
            let n = match parse_number(&num) {
                Some(n) => n,
                None => {
                    proof {
                        lemma_dur_err_sticks(cs@, i + 1);
                    }
                    return Err(DurationError::Unreadable);
                },
            };
            num.clear();
            let part = if c == 'm' {
                delta_minutes(n)
            } else if c == 'h' {
                delta_hours(n)
            } else if c == 'd' {
                delta_days(n)
            } else {
                proof {
                    lemma_dur_err_sticks(cs@, i + 1);
                }
                return Err(DurationError::UnknownUnit(c));
            };
            let p = match part {
                Some(p) => p,
                None => {
                    proof {
                        lemma_dur_err_sticks(cs@, i + 1);
                    }
                    return Err(DurationError::TooLong);
                },
            };
            total = match delta_add(total, p) {
                Some(t) => t,
                None => {
                    proof {
                        lemma_dur_err_sticks(cs@, i + 1);
                    }
                    return Err(DurationError::TooLong);
                },
            };
            any = true;
        }
        i = i + 1;
    }
    assert(cs@.take(cs@.len() as int) =~= cs@);
    if num.len() > 0 {
        let n = match parse_number(&num) {
            Some(n) => n,
            None => return Err(DurationError::Unreadable),
        };
        let p = match delta_minutes(n) {
            Some(p) => p,
            None => return Err(DurationError::TooLong),
        };
        total = match delta_add(total, p) {
            Some(t) => t,
            None => return Err(DurationError::TooLong),
        };
        any = true;
    }
    if !any || total <= 0 {
        return Err(DurationError::Empty);
    }
    Ok(total)
}

pub open spec fn duration_message(s: Seq<char>, e: DurationError) -> Seq<char> {
    match e {
        DurationError::Unreadable => "can't read "@ + debug_quoted(s),
        DurationError::UnknownUnit(c) => "unknown unit "@ + debug_char_quoted(c) + " in "@
            + debug_quoted(s),
        DurationError::TooLong => debug_quoted(s) + " is longer than time itself; 30 days is the most"@,
        DurationError::Empty => "can't read "@ + debug_quoted(s)
            + "; try 2h, 90m, until 07:00, tonight, weekend"@,
    }
}

/// "90m", "2h", "1h30m", "1d", "45" (minutes): the span in seconds, or why not.
pub fn duration(s: &str) -> (r: Result<i64, String>)
    ensures
        match r {
            Ok(t) => duration_spec(s@) == Ok::<int, DurationError>(t as int),
            Err(m) => exists|e: DurationError|
                duration_spec(s@) == Err::<int, DurationError>(e) && m@ == duration_message(s@, e),
        },
{
    match duration_secs(s) {
        Ok(t) => Ok(t),
        Err(e) => {
            let q = debug_text(s);
            let m = match e {
                DurationError::Unreadable => {
                    let mut m = String::from_str("can't read ");
                    m.append(q.as_str());
                    m
                },
                DurationError::UnknownUnit(c) => {
                    let mut m = String::from_str("unknown unit ");
                    m.append(debug_char(c).as_str());
                    m.append(" in ");
                    m.append(q.as_str());
                    m
                },
                DurationError::TooLong => {
                    let mut m = q;
                    m.append(" is longer than time itself; 30 days is the most");
                    m
                },
                DurationError::Empty => {
                    let mut m = String::from_str("can't read ");
                    m.append(q.as_str());
                    m.append("; try 2h, 90m, until 07:00, tonight, weekend");
                    m
                },
            };
            assert(duration_spec(s@) == Err::<int, DurationError>(e) && m@ == duration_message(s@, e));
            Err(m)
        },
    }
}

// ---------------------------------------------------------------------------
// Reading what was asked for.
// ---------------------------------------------------------------------------

/// `char::is_whitespace`: the Unicode White_Space property.
pub open spec fn is_space(c: char) -> bool {
    let u = c as u32;
    (0x9 <= u && u <= 0xd) || u == 0x20 || u == 0x85 || u == 0xa0 || u == 0x1680 || (0x2000 <= u
        && u <= 0x200a) || u == 0x2028 || u == 0x2029 || u == 0x202f || u == 0x205f || u == 0x3000
}

pub open spec fn trim_front(s: Seq<char>) -> Seq<char>
    decreases s.len(),
{
    if s.len() > 0 && is_space(s[0]) {
        trim_front(s.drop_first())
    } else {
        s
    }
}

pub open spec fn trim_back(s: Seq<char>) -> Seq<char>
    decreases s.len(),
{
    if s.len() > 0 && is_space(s.last()) {
        trim_back(s.drop_last())
    } else {
        s
    }
}

pub open spec fn lower(c: char) -> char {
    if 'A' <= c && c <= 'Z' {
        ((c as u8) + 32) as char
    } else {
        c
    }
}

pub open spec fn until_prefix() -> Seq<char> {
    seq!['u', 'n', 't', 'i', 'l', ' ']
}

/// Trimmed, in ASCII lower case, without a leading "until ".
pub open spec fn normalized(spec: Seq<char>) -> Seq<char> {
    let t = trim_back(trim_front(spec)).map_values(|c: char| lower(c));
    if t.len() >= 6 && t.take(6) == until_prefix() {
        t.skip(6)
    } else {
        t
    }
}

fn is_space_char(c: char) -> (r: bool)
    ensures
        r == is_space(c),
{
    let u = c as u32;
    (0x9 <= u && u <= 0xd) || u == 0x20 || u == 0x85 || u == 0xa0 || u == 0x1680 || (0x2000 <= u
        && u <= 0x200a) || u == 0x2028 || u == 0x2029 || u == 0x202f || u == 0x205f || u == 0x3000
}

/// What was asked for, trimmed, lowered and without "until ".
pub fn normalize(spec: &str) -> (r: String)
    ensures
        r@ == normalized(spec@),
{
    let cs = chars_of(spec);
    let n = cs.len();
    let mut a: usize = 0;
    assert(cs@.skip(0) =~= cs@);
    while a < n && is_space_char(cs[a])
        invariant
            a <= n,
            n == cs@.len(),
            trim_front(cs@) == trim_front(cs@.skip(a as int)),
        decreases n - a,
    {
        assert(cs@.skip(a as int).drop_first() =~= cs@.skip(a + 1));
        a = a + 1;
    }
    assert(trim_front(cs@.skip(a as int)) == cs@.skip(a as int));
    let mut b: usize = n;
    assert(cs@.subrange(a as int, n as int) =~= cs@.skip(a as int));
    while b > a && is_space_char(cs[b - 1])
        invariant
            a <= b <= n,
            n == cs@.len(),
            trim_back(cs@.skip(a as int)) == trim_back(cs@.subrange(a as int, b as int)),
        decreases b,
    {
        assert(cs@.subrange(a as int, b as int).drop_last() =~= cs@.subrange(a as int, b - 1));
        b = b - 1;
    }
    let ghost t = cs@.subrange(a as int, b as int).map_values(|c: char| lower(c));
    assert(trim_back(cs@.subrange(a as int, b as int)) == cs@.subrange(a as int, b as int));
    let mut low: Vec<char> = Vec::new();
    let mut i = a;
    while i < b
        invariant
            a <= i <= b <= n,
            n == cs@.len(),
            low@ == cs@.subrange(a as int, i as int).map_values(|c: char| lower(c)),
        decreases b - i,
    {
        let c = cs[i];
        let l = if 'A' <= c && c <= 'Z' {
            ((c as u8) + 32) as char
        } else {
            c
        };
        low.push(l);
        assert(cs@.subrange(a as int, i + 1).map_values(|c: char| lower(c)) =~= cs@.subrange(
            a as int,
            i as int,
        ).map_values(|c: char| lower(c)).push(lower(c)));
        i = i + 1;
    }
    assert(low@ == t);
    let m = low.len();
    if m >= 6 && low[0] == 'u' && low[1] == 'n' && low[2] == 't' && low[3] == 'i' && low[4] == 'l'
        && low[5] == ' ' {
        assert(t.take(6) =~= until_prefix());
        let mut rest: Vec<char> = Vec::new();
        let mut j: usize = 6;
        while j < m
            invariant
                6 <= j <= m,
                m == low@.len(),
                rest@ == low@.subrange(6, j as int),
            decreases m - j,
        {
            rest.push(low[j]);
            assert(low@.subrange(6, j + 1) =~= low@.subrange(6, j as int).push(low@[j as int]));
            j = j + 1;
        }
        assert(rest@ =~= t.skip(6));
        string_of(&rest)
    } else {
        proof {
            if m >= 6 {
                if t.take(6) == until_prefix() {
                    assert(t.take(6)[0] == 'u');
                    assert(t.take(6)[1] == 'n');
                    assert(t.take(6)[2] == 't');
                    assert(t.take(6)[3] == 'i');
                    assert(t.take(6)[4] == 'l');
                    assert(t.take(6)[5] == ' ');
                }
            }
        }
        string_of(&low)
    }
}

/// What a request names, before the clock is read.
#[derive(Debug, Clone, Copy, PartialEq, Eq, Structural)]
pub enum Target {
    /// Until 07:00 next.
    Tonight,
    /// Until midnight next.
    Today,
    /// Until Monday 07:00.
    Weekend,
    /// Until this hour and minute next.
    At(u32, u32),
    /// For this many seconds.
    For(i64),
}

pub open spec fn target_spec(s: Seq<char>, clock: Option<(u32, u32)>) -> Result<Target, Seq<char>> {
    if s == "tonight"@ {
        Ok(Target::Tonight)
    } else if s == "today"@ || s == "rest of today"@ {
        Ok(Target::Today)
    } else if s == "weekend"@ {
        Ok(Target::Weekend)
    } else {
        match clock {
            Some((h, m)) => Ok(Target::At(h, m)),
            None => match duration_spec(s) {
                Ok(t) => Ok(Target::For(t as i64)),
                Err(e) => Err(duration_message(s, e)),
            },
        }
    }
}

/// The name of a time, a clock time (`clock`: how `s` reads as "%H:%M", if
/// it does), or a span.
pub fn target_of(s: &str, clock: Option<(u32, u32)>) -> (r: Result<Target, String>)
    ensures
        match r {
            Ok(t) => target_spec(s@, clock) == Ok::<Target, Seq<char>>(t),
            Err(m) => target_spec(s@, clock) == Err::<Target, Seq<char>>(m@),
        },
{
    let cs = chars_of(s);
    if chars_eq(&cs, &chars_of("tonight")) {
        return Ok(Target::Tonight);
    }
    if chars_eq(&cs, &chars_of("today")) || chars_eq(&cs, &chars_of("rest of today")) {
        return Ok(Target::Today);
    }
    if chars_eq(&cs, &chars_of("weekend")) {
        return Ok(Target::Weekend);
    }
    match clock {
        Some((h, m)) => Ok(Target::At(h, m)),
        None => match duration(s) {
            Ok(t) => Ok(Target::For(t)),
            Err(m) => Err(m),
        },
    }
}

// ---------------------------------------------------------------------------
// The local clock and calendar (chrono). Days are counted as chrono's
// `num_days_from_ce` counts them: 1 January of year 1 is day 1, and
// 1 January 1970 is day 719163. The local time is the UTC time moved by the
// zone's offset, which chrono keeps strictly within a day either way; which
// offset applies depends on the machine's time zone and is not stated.
// ---------------------------------------------------------------------------

/// Unix seconds well inside chrono's calendar (about ±220,000 years), where
/// every local date and time is representable.
pub open spec fn in_calendar(ts: int) -> bool {
    -7_000_000_000_000 <= ts <= 7_000_000_000_000
}

/// A day number well inside chrono's calendar (about ±246,000 years).
pub open spec fn calendar_day(d: int) -> bool {
    719163 - 90_000_000 <= d <= 719163 + 90_000_000
}

/// `d` is the local day of `ts` for some zone offset under a day.
pub open spec fn local_day_near(ts: int, d: int) -> bool {
    (ts - 86399) / 86400 + 719163 <= d <= (ts + 86399) / 86400 + 719163
}

/// The unix time at which day `d` reads `hour:minute` in UTC.
pub open spec fn naive_unix(d: int, hour: int, minute: int) -> int {
    (d - 719163) * 86400 + hour * 3600 + minute * 60
}

/// `t` is the moment the local clock reads `hour:minute` on day `d`, for
/// some zone offset under a day.
pub open spec fn near_time(t: int, d: int, hour: int, minute: int) -> bool {
    -86400 < naive_unix(d, hour, minute) - t < 86400
}

/// A zone offset chrono can hold: under a day either way.
pub open spec fn offset_ok(off: int) -> bool {
    -86400 < off < 86400
}

/// Two decimal digits, zero-padded.
pub open spec fn two_digits(n: int) -> Seq<char> {
    seq![digit_char((n / 10) as nat), digit_char((n % 10) as nat)]
}

/// "%H:%M" of the local seconds `t`.
pub open spec fn clock_words(t: int) -> Seq<char> {
    two_digits((t % 86400) / 3600) + seq![':'] + two_digits((t % 3600) / 60)
}

/// "%A": the English name of the weekday of day `d`.
pub open spec fn weekday_name(d: int) -> Seq<char> {
    seq![
        "Sunday"@,
        "Monday"@,
        "Tuesday"@,
        "Wednesday"@,
        "Thursday"@,
        "Friday"@,
        "Saturday"@,
    ][d % 7]
}

/// How `describe` words the unix time `ts` under the zone offset `off`:
/// "%H:%M today", or "%H:%M on %A".
pub open spec fn local_words(ts: int, off: int, today: bool) -> Seq<char> {
    let t = ts + off;
    if today {
        clock_words(t) + " today"@
    } else {
        clock_words(t) + " on "@ + weekday_name(t / 86400 + 719163)
    }
}

/// chrono's `Local.timestamp_opt(ts, 0)` and `date_naive`: the local day of
/// a unix time. chrono documents that `timestamp_opt` gives a single time for
/// every representable timestamp; the local date is the UTC date moved by the
/// zone's offset.
#[verifier::external_body]
fn local_day(ts: i64) -> (r: Option<i32>)
    requires
        in_calendar(ts as int),
    ensures
        r is Some,
        r matches Some(d) ==> local_day_near(ts as int, d as int),
{
    chrono::Local.timestamp_opt(ts, 0).single().map(|t| t.date_naive().num_days_from_ce())
}

/// How a local wall-clock time maps to unix time: not at all (a gap), once,
/// or twice (a fold), earliest first.
pub enum LocalTimes {
    Gap,
    Single(i64),
    Fold(i64, i64),
}

/// chrono's `Local.from_local_datetime` for `day` at `hour:minute`: each
/// unix time it gives is that local time less the zone's offset.
#[verifier::external_body]
fn local_times(day: i32, hour: u32, minute: u32) -> (r: LocalTimes)
    ensures
        r matches LocalTimes::Single(t) ==> near_time(t as int, day as int, hour as int, minute as int),
        r matches LocalTimes::Fold(a, b) ==> near_time(a as int, day as int, hour as int, minute as int)
            && near_time(b as int, day as int, hour as int, minute as int),
{
    let Some(t) = chrono::NaiveDate::from_num_days_from_ce_opt(day)
        .and_then(|d| d.and_hms_opt(hour, minute, 0)) else {
        return LocalTimes::Gap;
    };
    match chrono::Local.from_local_datetime(&t) {
        chrono::LocalResult::Single(a) => LocalTimes::Single(a.timestamp()),
        chrono::LocalResult::Ambiguous(a, b) => LocalTimes::Fold(a.timestamp(), b.timestamp()),
        chrono::LocalResult::None => LocalTimes::Gap,
    }
}

/// chrono's `NaiveDate::succ_opt`: the next day, which every day well inside
/// the calendar has.
#[verifier::external_body]
fn next_day(day: i32) -> (r: Option<i32>)
    ensures
        r matches Some(n) ==> n == day + 1,
        calendar_day(day as int) ==> r == Some((day + 1) as i32),
{
    chrono::NaiveDate::from_num_days_from_ce_opt(day)
        .and_then(|d| d.succ_opt())
        .map(|d| d.num_days_from_ce())
}

/// chrono's `Datelike::weekday` is Monday. Day 1, 1 January of year 1 in the
/// proleptic Gregorian calendar, was a Monday.
#[verifier::external_body]
fn is_monday(day: i32) -> (r: bool)
    ensures
        calendar_day(day as int) ==> (r <==> is_monday_day(day as int)),
{
    chrono::NaiveDate::from_num_days_from_ce_opt(day)
        .map_or(false, |d| d.weekday() == chrono::Weekday::Mon)
}

/// chrono's `DateTime::checked_add_signed`: a unix time moved by whole
/// seconds, when the calendar reaches that far (chrono refuses only a result
/// out of its range).
#[verifier::external_body]
fn later_by(ts: i64, secs: i64) -> (r: Option<i64>)
    requires
        delta_fits(secs as int),
    ensures
        r matches Some(t) ==> t == ts + secs,
        in_calendar(ts as int) && in_calendar(ts + secs) ==> r == Some((ts + secs) as i64),
{
    chrono::DateTime::from_timestamp(ts, 0)
        .and_then(|t| t.checked_add_signed(chrono::TimeDelta::seconds(secs)))
        .map(|t| t.timestamp())
}

/// chrono's `DateTime::format` in local time, for the two formats `describe`
/// uses (chrono panics on a format it cannot read). The text is the local hour and minute, zero-padded, then " today",
/// or " on " and the English weekday name.
#[verifier::external_body]
fn local_format(ts: i64, fmt: &str) -> (r: Option<String>)
    requires
        in_calendar(ts as int),
        fmt@ == "%H:%M today"@ || fmt@ == "%H:%M on %A"@,
    ensures
        r is Some,
        r matches Some(s) ==> (fmt@ == "%H:%M today"@ ==> exists|off: int|
            offset_ok(off) && s@ == #[trigger] local_words(ts as int, off, true)),
        r matches Some(s) ==> (fmt@ == "%H:%M on %A"@ ==> exists|off: int|
            offset_ok(off) && s@ == #[trigger] local_words(ts as int, off, false)),
{
    chrono::Local.timestamp_opt(ts, 0).single().map(|t| t.format(fmt).to_string())
}

/// chrono's `NaiveTime::parse_from_str(s, "%H:%M")`, as hour and minute.
pub uninterp spec fn clock_time(s: Seq<char>) -> Option<(u32, u32)>;

/// chrono's `NaiveTime::parse_from_str(s, "%H:%M")`, as hour and minute.
#[verifier::external_body]
fn parse_clock(s: &str) -> (r: Option<(u32, u32)>)
    ensures
        r == clock_time(s@),
{
    chrono::NaiveTime::parse_from_str(s, "%H:%M").ok().map(|t| (t.hour(), t.minute()))
}

/// Whether the unix time `ts` lies inside the calendar.
fn within_calendar(ts: i64) -> (r: bool)
    ensures
        r == in_calendar(ts as int),
{
    -7_000_000_000_000 <= ts && ts <= 7_000_000_000_000
}

/// The local day of a time inside the calendar is well inside it, a week
/// on too.
proof fn lemma_day_in_calendar(ts: int, d: int)
    requires
        in_calendar(ts),
        local_day_near(ts, d),
    ensures
        calendar_day(d),
        calendar_day(d + 8),
{
}

/// Seven days in a row hold a Monday.
proof fn lemma_week_has_monday(l: int)
    ensures
        l < l + 7 - (l + 6) % 7 <= l + 7,
        is_monday_day(l + 7 - (l + 6) % 7),
{
}

/// The earliest unix time at which the local day `day` reads `hour:minute`,
/// if the clock reads it that day at all.
fn earliest(day: i32, hour: u32, minute: u32) -> (r: Option<i64>)
    ensures
        r matches Some(t) ==> near_time(t as int, day as int, hour as int, minute as int),
{
    match local_times(day, hour, minute) {
        LocalTimes::Single(t) => Some(t),
        LocalTimes::Fold(t, _) => Some(t),
        LocalTimes::Gap => None,
    }
}

/// Which of the two candidate times to wait for: today's if it is still
/// ahead of `now`, else tomorrow's; with neither, `now`.
pub open spec fn next_choice(now: i64, today: Option<i64>, tomorrow: Option<i64>) -> i64 {
    match today {
        Some(t) if t > now => t,
        _ => match tomorrow {
            Some(t) => t,
            None => now,
        },
    }
}

/// Of the earliest times at which the local clock reads the wanted hour
/// today and tomorrow (`None` where it does not read it that day), the one
/// to wait for.
pub fn next_from(now: i64, today: Option<i64>, tomorrow: Option<i64>) -> (r: i64)
    ensures
        r == next_choice(now, today, tomorrow),
{
    let candidate = match today {
        Some(t) => t,
        None => now,
    };
    if candidate > now {
        return candidate;
    }
    match tomorrow {
        Some(t) => t,
        None => now,
    }
}

/// `at` is the moment the local clock reads `hour:minute` on the local day of
/// `now` or the day after, for some zone offset under a day.
pub open spec fn named_next(now: i64, at: i64, hour: int, minute: int) -> bool {
    exists|l: int|
        #[trigger] local_day_near(now as int, l) && (near_time(at as int, l, hour, minute) || near_time(
            at as int,
            l + 1,
            hour,
            minute,
        ))
}

/// The calendar's answers for `hour:minute` on the local day `l` of `now`
/// (`first`) and on the day after (`second`): each, when there is one, is a
/// moment at which the local clock reads `hour:minute` on that day.
pub open spec fn readings(now: i64, hour: int, minute: int, first: Option<i64>, second: Option<i64>) -> bool {
    exists|l: int|
        #[trigger] local_day_near(now as int, l) && (first matches Some(t) ==> near_time(t as int, l, hour, minute))
            && (second matches Some(t) ==> near_time(t as int, l + 1, hour, minute))
}

/// Today's reading is the answer whenever it lies after `now`; tomorrow's
/// only when today's is missing or not after `now`; with neither, `now`.
pub proof fn lemma_next_prefers_today(now: i64, first: Option<i64>, second: Option<i64>)
    ensures
        first is Some && first->Some_0 > now ==> next_choice(now, first, second) == first->Some_0,
        !(first is Some && first->Some_0 > now) ==> next_choice(now, first, second) == match second {
            Some(t) => t,
            None => now,
        },
{
}

/// The next time after `now` that the local clock reads `hour:minute`:
/// today if still ahead, else tomorrow. Where the calendar cannot say, `now`.
/// Also gives the calendar's two answers the choice was made between.
fn next_at(now: i64, hour: u32, minute: u32) -> (r: (i64, Ghost<Option<i64>>, Ghost<Option<i64>>))
    ensures
        r.0 == now || named_next(now, r.0, hour as int, minute as int),
        !in_calendar(now as int) ==> r.0 == now,
        in_calendar(now as int) ==> r.0 == next_choice(now, r.1@, r.2@) && readings(
            now,
            hour as int,
            minute as int,
            r.1@,
            r.2@,
        ),
{
    if !within_calendar(now) {
        return (now, Ghost(None), Ghost(None));
    }
    let today = match local_day(now) {
        Some(d) => d,
        None => return (now, Ghost(None), Ghost(None)),
    };
    proof {
        lemma_day_in_calendar(now as int, today as int);
    }
    let first = earliest(today, hour, minute);
    let second = match next_day(today) {
        Some(d) => earliest(d, hour, minute),
        None => None,
    };
    let r = next_from(now, first, second);
    assert(local_day_near(now as int, today as int));
    (r, Ghost(first), Ghost(second))
}

/// Monday 07:00 after the local day of `now`: the first Monday after the day
/// `l` that `now` falls on locally.
pub open spec fn monday_after(l: int, md: int) -> bool {
    l < md <= l + 7 && is_monday_day(md)
}

/// Day `d` is a Monday: day 1 was one.
pub open spec fn is_monday_day(d: int) -> bool {
    d % 7 == 1
}

/// Monday 07:00 after the local day of `now`.
fn weekend(now: i64) -> (r: Result<i64, String>)
    ensures
        r matches Err(e) ==> (e@ == "ambiguous local time"@ || e@ == "date overflow"@),
        in_calendar(now as int) ==> (r matches Err(e) ==> e@ == "ambiguous local time"@),
        !in_calendar(now as int) ==> (r matches Err(e) && e@ == "date overflow"@),
        r matches Ok(t) ==> exists|l: int, md: int|
            #![trigger local_day_near(now as int, l), monday_after(l, md)]
            local_day_near(now as int, l) && monday_after(l, md) && near_time(t as int, md, 7, 0),
{
    if !within_calendar(now) {
        return Err(String::from_str("date overflow"));
    }
    let mut d = match local_day(now) {
        Some(d) => d,
        None => return Err(String::from_str("ambiguous local time")),
    };
    let ghost l = d as int;
    proof {
        lemma_day_in_calendar(now as int, l);
        lemma_week_has_monday(l);
    }
    let mut steps: u32 = 0;
    loop
        invariant_except_break
            d == l + steps,
            forall|k: int| l < k <= d ==> !#[trigger] is_monday_day(k),
        invariant
            steps <= 7,
            calendar_day(l),
            calendar_day(l + 8),
            local_day_near(now as int, l),
            l < l + 7 - (l + 6) % 7 <= l + 7,
            is_monday_day(l + 7 - (l + 6) % 7),
        ensures
            monday_after(l, d as int),
        decreases 7 - steps,
    {
        assert(calendar_day(d as int));
        let ghost prev = d as int;
        d = match next_day(d) {
            Some(n) => n,
            None => return Err(String::from_str("date overflow")),
        };
        if is_monday(d) {
            proof {
                if d > l + 7 {
                    let k = l + 7 - (l + 6) % 7;
                    assert(l < k <= prev);
                }
            }
            break;
        }
        if steps == 7 {
            assert(false) by {
                let k = l + 7 - (l + 6) % 7;
                assert(l < k <= d);
            }
            return Err(String::from_str("date overflow"));
        }
        steps = steps + 1;
    }
    match local_times(d, 7, 0) {
        LocalTimes::Single(t) => Ok(t),
        _ => Err(String::from_str("ambiguous local time")),
    }
}

proof fn lemma_dur_scan_fits(cs: Seq<char>)
    ensures
        dur_scan(cs) matches Ok(st) ==> delta_fits(st.0),
    decreases cs.len(),
{
    if cs.len() > 0 {
        lemma_dur_scan_fits(cs.drop_last());
    }
}


/// A target that lies after `now`, as unix seconds, or the refusal.
pub fn future_or_error(target: i64, now: i64) -> (r: Result<u64, String>)
    ensures
        target <= now ==> (r matches Err(m) && m@ == "that's in the past"@),
        target > now ==> r == Ok::<u64, String>(target as u64),
{
    if target <= now {
        return Err(String::from_str("that's in the past"));
    }
    Ok(target as u64)
}

/// A unix time as `u64`, the way `as` converts it.
pub open spec fn unsigned(t: i64) -> u64 {
    t as u64
}

/// What reading `spec` at the unix time `now` may come to. An unreadable
/// request is refused with the reason; a span ends exactly that long after
/// `now`, or is refused as too long; whatever is accepted lies after `now`.
/// When a named or clock time falls depends on the local calendar.
pub open spec fn parse_outcome(spec: Seq<char>, now: i64, r: Result<u64, String>) -> bool {
    let s = normalized(spec);
    match target_spec(s, clock_time(s)) {
        Err(m) => r matches Err(e) && e@ == m,
        Ok(t) => {
            &&& (r matches Ok(u) ==> exists|at: i64| at > now && u == #[trigger] unsigned(at) && lands(now, at, t))
            &&& (r matches Ok(u) ==> (now >= 0 ==> u > now))
            &&& match t {
                Target::For(secs) => {
                    &&& match r {
                        Ok(u) => u == (now + secs) as u64,
                        Err(e) => e@ == duration_message(s, DurationError::TooLong),
                    }
                    &&& (in_calendar(now as int) && in_calendar(now + secs) ==> r is Ok)
                },
                Target::Weekend => {
                    &&& r matches Err(e) ==> (e@ == "that's in the past"@ || e@ == "ambiguous local time"@
                        || e@ == "date overflow"@)
                    &&& in_calendar(now as int) ==> (r matches Err(e) ==> e@ != "date overflow"@)
                },
                _ => r matches Err(e) ==> e@ == "that's in the past"@,
            }
        },
    }
}

/// Where the time a target names lands, seen from `now`: a span exactly that
/// long after; "tonight" at 07:00, "today" at midnight, a clock time at that
/// hour and minute, on the local day of `now` or the next; "weekend" at 07:00
/// on the first Monday after the local day of `now`.
pub open spec fn lands(now: i64, at: i64, t: Target) -> bool {
    match t {
        Target::For(secs) => at == now + secs,
        Target::Tonight => named_next(now, at, 7, 0),
        Target::Today => named_next(now, at, 0, 0),
        Target::At(h, m) => named_next(now, at, h as int, m as int),
        Target::Weekend => exists|l: int, md: int|
            #![trigger local_day_near(now as int, l), monday_after(l, md)]
            local_day_near(now as int, l) && monday_after(l, md) && near_time(at as int, md, 7, 0),
    }
}

/// A span read from a request is positive.
proof fn lemma_span_positive(s: Seq<char>, clock: Option<(u32, u32)>, secs: i64)
    requires
        target_spec(s, clock) == Ok::<Target, Seq<char>>(Target::For(secs)),
    ensures
        secs > 0,
        delta_fits(secs as int),
{
    lemma_dur_scan_fits(s);
}

/// "2h", "45m", "until 07:00", "tonight", "today", "weekend", read at the
/// unix time `now`: the time it names after `now`, or why not.
pub fn parse_at(spec: &str, now: i64) -> (r: Result<u64, String>)
    ensures
        parse_outcome(spec@, now, r),
{
    let s = normalize(spec);
    let cs = chars_of(s.as_str());
    let named = chars_eq(&cs, &chars_of("tonight")) || chars_eq(&cs, &chars_of("today"))
        || chars_eq(&cs, &chars_of("rest of today")) || chars_eq(&cs, &chars_of("weekend"));
    let clock = if named {
        None
    } else {
        parse_clock(s.as_str())
    };
    assert(target_spec(s@, clock) == target_spec(s@, clock_time(s@)));
    let target = match target_of(s.as_str(), clock) {
        Ok(t) => t,
        Err(m) => return Err(m),
    };
    let at = match target {
        Target::Tonight => next_at(now, 7, 0).0,
        Target::Today => next_at(now, 0, 0).0,
        Target::Weekend => match weekend(now) {
            Ok(t) => t,
            Err(m) => {
                proof {
                    reveal_strlit("ambiguous local time");
                    reveal_strlit("date overflow");
                    assert("ambiguous local time"@[0] != "date overflow"@[0]);
                }
                return Err(m);
            },
        },
        Target::At(h, m) => next_at(now, h, m).0,
        Target::For(secs) => {
            proof {
                lemma_span_positive(s@, clock, secs);
            }
            match later_by(now, secs) {
                Some(t) => t,
                None => {
                    let mut m = debug_text(s.as_str());
                    m.append(" is longer than time itself; 30 days is the most");
                    return Err(m);
                },
            }
        },
    };
    let r = future_or_error(at, now);
    proof {
        reveal_strlit("that's in the past");
        reveal_strlit("date overflow");
        assert("that's in the past"@[0] != "date overflow"@[0]);
        if r is Ok {
            assert(at != now);
            assert(lands(now, at, target));
            assert(at > now && r->Ok_0 == unsigned(at) && lands(now, at, target));
        }
    }
    r
}

/// "2h", "45m", "until 07:00", "tonight", "today", "weekend" → a unix time
/// after now, read on the system clock and the local calendar.
pub fn parse(spec: &str) -> (r: Result<u64, String>)
    ensures
        exists|now: i64| parse_outcome(spec@, now, r),
{
    let now = now_seconds();
    parse_at(spec, now)
}

/// `w` is how `describe` words `until`: inside the calendar, its local hour
/// and minute under some zone offset, then " today" or " on " and its local
/// weekday; outside it, "?".
pub open spec fn describes(until: u64, w: Seq<char>) -> bool {
    &&& in_calendar((until as i64) as int) ==> exists|off: int, today: bool|
        offset_ok(off) && w == #[trigger] local_words((until as i64) as int, off, today)
    &&& !in_calendar((until as i64) as int) ==> w == "?"@
}

/// The format for the end of a block on local day `day`, seen on local day
/// `today` (when known): the clock time alone on the same day, else with
/// the weekday.
pub fn describe_format(day: i32, today: Option<i32>) -> (r: &'static str)
    ensures
        today == Some(day) ==> r@ == "%H:%M today"@,
        today != Some(day) ==> r@ == "%H:%M on %A"@,
{
    if today == Some(day) {
        "%H:%M today"
    } else {
        "%H:%M on %A"
    }
}

/// `w` words the unix time `ts` as seen at `now`: `du` is the local day of
/// `ts` and `dn` that of `now` (none when `now` lies outside the calendar);
/// the words are the local hour and minute of `ts` followed by " today"
/// exactly when the two days are the same, else by " on " and its weekday.
pub open spec fn day_words(ts: int, now: i64, du: int, dn: Option<int>, off: int, w: Seq<char>) -> bool {
    &&& local_day_near(ts, du)
    &&& (dn matches Some(x) ==> local_day_near(now as int, x))
    &&& (in_calendar(now as int) <==> dn is Some)
    &&& offset_ok(off)
    &&& w == local_words(ts, off, dn == Some(du))
}

/// `w` is how `describe_at` words `until` seen at `now`.
pub open spec fn describes_at(until: u64, now: i64, w: Seq<char>) -> bool {
    &&& in_calendar((until as i64) as int) ==> exists|du: int, dn: Option<int>, off: int|
        #[trigger] day_words((until as i64) as int, now, du, dn, off, w)
    &&& !in_calendar((until as i64) as int) ==> w == "?"@
}

/// The end of a block in words as seen at the unix time `now`: "07:00 today"
/// when it falls on the local day of `now`, else "07:00 on Monday"; the
/// hour, minute and weekday are those of `until` in the local time zone.
/// Outside the calendar, "?".
pub fn describe_at(until: u64, now: i64) -> (r: String)
    ensures
        describes_at(until, now, r@),
{
    let ts = until as i64;
    if !within_calendar(ts) {
        return String::from_str("?");
    }
    match local_day(ts) {
        None => String::from_str("?"),
        Some(day) => {
            let today = if within_calendar(now) {
                local_day(now)
            } else {
                None
            };
            let fmt = describe_format(day, today);
            let r = match local_format(ts, fmt) {
                Some(t) => t,
                None => String::from_str("?"),
            };
            proof {
                let dn: Option<int> = match today {
                    Some(x) => Some(x as int),
                    None => None,
                };
                assert((dn == Some(day as int)) == (today == Some(day)));
                if today == Some(day) {
                    let off = choose|off: int| offset_ok(off) && r@ == #[trigger] local_words(ts as int, off, true);
                    assert(day_words(ts as int, now, day as int, dn, off, r@));
                } else {
                    let off = choose|off: int| offset_ok(off) && r@ == #[trigger] local_words(ts as int, off, false);
                    assert(day_words(ts as int, now, day as int, dn, off, r@));
                }
            }
            r
        },
    }
}

/// Seen three days or more before or after it, the end of a block is never
/// said to be "today": the words name its weekday.
pub proof fn lemma_describe_other_day(until: u64, now: i64, w: Seq<char>)
    requires
        describes_at(until, now, w),
        in_calendar((until as i64) as int),
        (until as i64) as int >= now + 3 * 86400 || (until as i64) as int + 3 * 86400 <= now,
    ensures
        exists|off: int| offset_ok(off) && w == #[trigger] local_words((until as i64) as int, off, false),
{
    let ts = (until as i64) as int;
    let (du, dn, off) = choose|du: int, dn: Option<int>, off: int| #[trigger] day_words(ts, now, du, dn, off, w);
    assert(day_words(ts, now, du, dn, off, w));
    if dn == Some(du) {
        assert(local_day_near(now as int, du));
        assert(local_day_near(ts, du));
        if ts >= now + 3 * 86400 {
            assert((ts - 86399) / 86400 > (now + 86399) / 86400) by (nonlinear_arith)
                requires
                    ts >= now + 3 * 86400,
            ;
        } else {
            assert((now - 86399) / 86400 > (ts + 86399) / 86400) by (nonlinear_arith)
                requires
                    ts + 3 * 86400 <= now,
            ;
        }
    }
    assert(w == local_words(ts, off, false));
}

/// `describes_at` at some reading of the clock is what `describe` promises.
proof fn lemma_describes_at_describes(until: u64, now: i64, w: Seq<char>)
    requires
        describes_at(until, now, w),
    ensures
        describes(until, w),
{
    let ts = (until as i64) as int;
    if in_calendar(ts) {
        let (du, dn, off) = choose|du: int, dn: Option<int>, off: int| #[trigger] day_words(ts, now, du, dn, off, w);
        assert(day_words(ts, now, du, dn, off, w));
        let today = dn == Some(du);
        assert(offset_ok(off) && w == local_words(ts, off, today));
    }
}

/// The end of a block in words: "07:00 today", or "07:00 on Monday"; the
/// hour, minute and weekday are those of `until` in the local time zone,
/// seen at the current reading of the clock. Outside the calendar, "?".
pub fn describe(until: u64) -> (r: String)
    ensures
        describes(until, r@),
        exists|now: i64| #[trigger] describes_at(until, now, r@),
{
    let n = now_seconds();
    let r = describe_at(until, n);
    proof {
        lemma_describes_at_describes(until, n, r@);
        assert(describes_at(until, n, r@));
    }
    r
}

// ---------------------------------------------------------------------------
// Time left, in words.
// ---------------------------------------------------------------------------

pub open spec fn remaining_spec(secs: u64) -> Seq<char> {
    let h = secs / 3600;
    let m = (secs % 3600) / 60;
    if h == 0 && m == 0 {
        "under a minute"@
    } else if h == 0 {
        decimal(m as nat) + "m"@
    } else if m == 0 {
        decimal(h as nat) + "h"@
    } else {
        decimal(h as nat) + "h "@ + decimal(m as nat) + "m"@
    }
}

/// The words for `secs` left show `h` hours and `m` minutes: together the
/// whole time left rounded down to a minute, with the hours never wrapped at
/// a day, in the form "2h 5m", "45m", "3h" or "under a minute".
pub open spec fn shows_time_left(secs: u64, h: nat, m: nat) -> bool {
    &&& m < 60
    &&& h * 3600 + m * 60 + secs % 60 == secs
    &&& (h == 0 && m == 0 ==> remaining_spec(secs) == "under a minute"@)
    &&& (h == 0 && m > 0 ==> remaining_spec(secs) == decimal(m) + "m"@)
    &&& (h > 0 && m == 0 ==> remaining_spec(secs) == decimal(h) + "h"@)
    &&& (h > 0 && m > 0 ==> remaining_spec(secs) == decimal(h) + "h "@ + decimal(m) + "m"@)
}

/// The time left is said in full: the hours and minutes shown add up to the
/// seconds left rounded down to a whole minute (30 hours read "30h").
pub proof fn lemma_remaining_whole(secs: u64)
    ensures
        exists|h: nat, m: nat| #[trigger] shows_time_left(secs, h, m),
{
    let h = (secs / 3600) as nat;
    let m = ((secs % 3600) / 60) as nat;
    assert(h * 3600 + m * 60 + secs % 60 == secs) by (nonlinear_arith)
        requires
            h == secs / 3600,
            m == (secs % 3600) / 60,
    ;
    assert(shows_time_left(secs, h, m));
}

/// Hours and minutes left: "2h 5m", "45m", "3h", or "under a minute".
pub fn remaining(secs: u64) -> (r: String)
    ensures
        r@ == remaining_spec(secs),
{
    let h = secs / 3600;
    let m = (secs % 3600) / 60;
    if h == 0 && m == 0 {
        return String::from_str("under a minute");
    }
    let mut out: Vec<char> = Vec::new();
    if h == 0 {
        push_all(&mut out, &decimal_chars(m));
        out.push('m');
        proof {
            reveal_strlit("m");
            assert(out@ =~= decimal(m as nat) + "m"@);
        }
    } else if m == 0 {
        push_all(&mut out, &decimal_chars(h));
        out.push('h');
        proof {
            reveal_strlit("h");
            assert(out@ =~= decimal(h as nat) + "h"@);
        }
    } else {
        push_all(&mut out, &decimal_chars(h));
        out.push('h');
        out.push(' ');
        push_all(&mut out, &decimal_chars(m));
        out.push('m');
        proof {
            reveal_strlit("m");
            reveal_strlit("h ");
            assert(out@ =~= decimal(h as nat) + "h "@ + decimal(m as nat) + "m"@);
        }
    }
    string_of(&out)
}

} // verus!
