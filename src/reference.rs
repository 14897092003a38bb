use vstd::prelude::*;
use chrono::Timelike;
use crate::text::chars_of;
use crate::duration::{decimal, duration_text, join_words, lemma_decimal_digits, lemma_format_components, unit_word};

verus! {

/// How a reference is read: as a time of day to wait for, or as a span to wait.
#[derive(Clone, Copy, Debug, PartialEq, Eq, Structural)]
pub enum Mode {
    At,
    In,
}

/// Why a reference could not be resolved.
#[derive(Clone, Copy, Debug, PartialEq, Eq, Structural)]
pub enum ParseError {
    /// The text does not follow the grammar of its mode.
    InvalidReference,
    /// A number of the text, or the span it adds up to, is too large.
    InvalidNumber,
    /// A clock time with more than two colons.
    Unsupported,
}

/// The largest number of seconds a reference may stand for, and the largest number it may
/// hold (that of a signed 64-bit integer).
pub const MAX_NUMBER: u64 = 9223372036854775807;

pub open spec fn is_digit(c: char) -> bool {
    '0' <= c && c <= '9'
}

pub open spec fn digit_value(c: char) -> nat {
    (c as u32 - 48) as nat
}

/// The number written by the decimal digits `ds`.
pub open spec fn digits_value(ds: Seq<char>) -> nat
    decreases ds.len(),
{
    if ds.len() == 0 {
        0
    } else {
        digits_value(ds.drop_last()) * 10 + digit_value(ds.last())
    }
}

/// Whether `ds` is one or more decimal digits.
pub open spec fn all_digits(ds: Seq<char>) -> bool {
    ds.len() > 0 && forall|k: int| 0 <= k < ds.len() ==> is_digit(#[trigger] ds[k])
}

/// The end of the run of digits of `s` that starts at `i`.
pub open spec fn run_end(s: Seq<char>, i: int) -> int
    decreases s.len() - i,
{
    if 0 <= i < s.len() && is_digit(s[i]) {
        run_end(s, i + 1)
    } else {
        i
    }
}

/// The digits of a field such as "30m" that starts at `i`, when one with `unit` stands there.
pub open spec fn field_at(s: Seq<char>, i: int, unit: char) -> Option<Seq<char>> {
    let e = run_end(s, i);
    if e > i && e < s.len() && s[e] == unit {
        Some(s.subrange(i, e))
    } else {
        None
    }
}

/// Where reading goes on after the field with `unit` at `i`, if there is one.
pub open spec fn after_field(s: Seq<char>, i: int, unit: char) -> int {
    match field_at(s, i, unit) {
        Some(ds) => i + ds.len() + 1,
        None => i,
    }
}

/// Where reading goes on after one optional space at `i`.
pub open spec fn after_space(s: Seq<char>, i: int) -> int {
    if 0 <= i < s.len() && s[i] == ' ' {
        i + 1
    } else {
        i
    }
}

/// The hour, minute and second fields of a relative reference `[Nh][ ][Nm][ ][Ns]`, or
/// nothing when the text is not of that form.
pub open spec fn relative_fields(s: Seq<char>) -> Option<
    (Option<Seq<char>>, Option<Seq<char>>, Option<Seq<char>>),
> {
    let i1 = after_field(s, 0, 'h');
    let i2 = after_space(s, i1);
    let i3 = after_field(s, i2, 'm');
    let i4 = after_space(s, i3);
    let i5 = after_field(s, i4, 's');
    if i5 == s.len() {
        Some((field_at(s, 0, 'h'), field_at(s, i2, 'm'), field_at(s, i4, 's')))
    } else {
        None
    }
}

/// The number of a field; an absent field counts as zero.
pub open spec fn field_value(f: Option<Seq<char>>) -> nat {
    match f {
        Some(ds) => digits_value(ds),
        None => 0,
    }
}

/// The number of seconds that a relative reference stands for.
pub open spec fn relative_seconds(s: Seq<char>) -> Result<u64, ParseError> {
    match relative_fields(s) {
        None => Err(ParseError::InvalidReference),
        Some((h, m, x)) => {
            let total = field_value(h) * 3600 + field_value(m) * 60 + field_value(x);
            if field_value(h) > MAX_NUMBER || field_value(m) > MAX_NUMBER || field_value(x)
                > MAX_NUMBER || total > MAX_NUMBER {
                Err(ParseError::InvalidNumber)
            } else {
                Ok(total as u64)
            }
        }
    }
}

/// The number of colons in `s`.
pub open spec fn colon_count(s: Seq<char>) -> nat
    decreases s.len(),
{
    if s.len() == 0 {
        0
    } else {
        colon_count(s.drop_last()) + if s.last() == ':' {
            1nat
        } else {
            0nat
        }
    }
}

/// The time of day, in seconds after midnight, that chrono reads from a clock time such as
/// "16:30" or "16:30:15".
pub uninterp spec fn clock_time_of(s: Seq<char>) -> Option<u32>;

/// Relies on chrono's `FromStr for NaiveTime` (hours and minutes, optional seconds and
/// fraction) and on `Timelike::num_seconds_from_midnight`, which maps every time of day
/// into 0 to 86399.
#[verifier::external_body]
fn parse_clock_time(text: &str) -> (r: Option<u32>)
    ensures
        r == clock_time_of(text@),
        r matches Some(t) ==> t < 86400,
{
    match text.parse::<chrono::NaiveTime>() {
        Ok(t) => Some(t.num_seconds_from_midnight()),
        Err(_) => None,
    }
}

/// Seconds from the time of day `now` until the next time of day `target`, both in seconds
/// after midnight: later today, or tomorrow when `target` has already passed.
pub open spec fn wait_until(target: nat, now: nat) -> nat {
    if target >= now {
        (target - now) as nat
    } else {
        (target + 86400 - now) as nat
    }
}

/// The number of seconds that an absolute reference stands for at the time of day `now`:
/// a bare hour of the day ("16"), or a clock time with one or two colons.
pub open spec fn absolute_seconds(s: Seq<char>, now: nat) -> Result<u64, ParseError> {
    let colons = colon_count(s);
    if colons == 0 {
        if all_digits(s) && digits_value(s) < 24 {
            Ok(wait_until(digits_value(s) * 3600, now) as u64)
        } else {
            Err(ParseError::InvalidReference)
        }
    } else if colons <= 2 {
        match clock_time_of(s) {
            Some(t) => Ok(wait_until(t as nat, now) as u64),
            None => Err(ParseError::InvalidReference),
        }
    } else {
        Err(ParseError::Unsupported)
    }
}

/// The number of seconds that `s` stands for in `mode` at the time of day `now`.
pub open spec fn reference_seconds(mode: Mode, s: Seq<char>, now: nat) -> Result<u64, ParseError> {
    match mode {
        Mode::At => absolute_seconds(s, now),
        Mode::In => relative_seconds(s),
    }
}

fn digit_run_end(cs: &Vec<char>, i: usize) -> (e: usize)
    requires
        i <= cs@.len(),
    ensures
        e == run_end(cs@, i as int),
        i <= e <= cs@.len(),
        forall|k: int| i <= k < e ==> is_digit(#[trigger] cs@[k]),
        e < cs@.len() ==> !is_digit(cs@[e as int]),
{
    let mut j: usize = i;
    while j < cs.len() && '0' <= cs[j] && cs[j] <= '9'
        invariant
            i <= j <= cs@.len(),
            run_end(cs@, j as int) == run_end(cs@, i as int),
            forall|k: int| i <= k < j ==> is_digit(#[trigger] cs@[k]),
        decreases cs@.len() - j,
    {
        j = j + 1;
    }
    j
}

proof fn lemma_digits_grow(ds: Seq<char>, k: int)
    requires
        0 <= k <= ds.len(),
    ensures
        digits_value(ds.subrange(0, k)) <= digits_value(ds),
    decreases ds.len(),
{
    if k < ds.len() {
        lemma_digits_grow(ds.drop_last(), k);
        assert(ds.drop_last().subrange(0, k) =~= ds.subrange(0, k));
    } else {
        assert(ds.subrange(0, k) =~= ds);
    }
}

/// The number written by the digits `cs[i..e]`, when it is at most `MAX_NUMBER`.
fn digits_number(cs: &Vec<char>, i: usize, e: usize) -> (r: Option<u64>)
    requires
        i <= e <= cs@.len(),
        forall|k: int| i <= k < e ==> is_digit(#[trigger] cs@[k]),
    ensures
        match r {
            Some(v) => v == digits_value(cs@.subrange(i as int, e as int)) && v <= MAX_NUMBER,
            None => digits_value(cs@.subrange(i as int, e as int)) > MAX_NUMBER,
        },
{
    let ghost ds = cs@.subrange(i as int, e as int);
    let mut acc: u64 = 0;
    let mut j: usize = i;
    assert(cs@.subrange(i as int, i as int) =~= Seq::<char>::empty());
    while j < e
        invariant
            i <= j <= e <= cs@.len(),
            forall|k: int| i <= k < e ==> is_digit(#[trigger] cs@[k]),
            ds == cs@.subrange(i as int, e as int),
            acc == digits_value(cs@.subrange(i as int, j as int)),
            acc <= MAX_NUMBER,
        decreases e - j,
    {
        let c = cs[j];
        assert(is_digit(cs@[j as int]));
        let d: u64 = (c as u32 - 48) as u64;
        let ghost next = cs@.subrange(i as int, j + 1);
        assert(next.drop_last() =~= cs@.subrange(i as int, j as int));
        assert(digits_value(next) == acc * 10 + d);
        if acc > (MAX_NUMBER - d) / 10 {
            proof {
                assert(ds.subrange(0, j + 1 - i) =~= next);
                lemma_digits_grow(ds, j + 1 - i);
            }
            return None;
        }
        acc = acc * 10 + d;
        j = j + 1;
    }
    Some(acc)
}

/// The end of the digits of the field with `unit` at `i`, when there is one.
fn field_end(cs: &Vec<char>, i: usize, unit: char) -> (r: Option<usize>)
    requires
        i <= cs@.len(),
    ensures
        match r {
            Some(e) => field_at(cs@, i as int, unit) == Some(cs@.subrange(i as int, e as int))
                && e == run_end(cs@, i as int) && e < cs@.len(),
            None => field_at(cs@, i as int, unit) is None,
        },
        r matches Some(e) ==> forall|k: int| i <= k < e ==> is_digit(#[trigger] cs@[k]),
{
    let e = digit_run_end(cs, i);
    if e > i && e < cs.len() && cs[e] == unit {
        Some(e)
    } else {
        None
    }
}

fn skip_space(cs: &Vec<char>, i: usize) -> (r: usize)
    requires
        i <= cs@.len(),
    ensures
        r == after_space(cs@, i as int),
        r <= cs@.len(),
{
    if i < cs.len() && cs[i] == ' ' {
        i + 1
    } else {
        i
    }
}

/// The number of a field given by the end of its digits; zero for an absent field.
fn field_number(cs: &Vec<char>, start: usize, end: Option<usize>) -> (r: Option<u64>)
    requires
        end matches Some(e) ==> start <= e <= cs@.len() && forall|k: int|
            start <= k < e ==> is_digit(#[trigger] cs@[k]),
    ensures
        match end {
            Some(e) => {
                let v = digits_value(cs@.subrange(start as int, e as int));
                match r {
                    Some(n) => n == v && v <= MAX_NUMBER,
                    None => v > MAX_NUMBER,
                }
            },
            None => r == Some(0u64),
        },
{
    match end {
        Some(e) => digits_number(cs, start, e),
        None => Some(0),
    }
}

/// The number of seconds of a relative reference `[Nh][ ][Nm][ ][Ns]`, such as "1h 30m".
pub fn parse_relative(text: &str) -> (r: Result<u64, ParseError>)
    ensures
        r == relative_seconds(text@),
{
    let cs = chars_of(text);
    let h_end = field_end(&cs, 0, 'h');
    let i1: usize = match h_end {
        Some(e) => e + 1,
        None => 0,
    };
    let i2 = skip_space(&cs, i1);
    let m_end = field_end(&cs, i2, 'm');
    let i3: usize = match m_end {
        Some(e) => e + 1,
        None => i2,
    };
    let i4 = skip_space(&cs, i3);
    let s_end = field_end(&cs, i4, 's');
    let i5: usize = match s_end {
        Some(e) => e + 1,
        None => i4,
    };
    if i5 != cs.len() {
        return Err(ParseError::InvalidReference);
    }
    let h = field_number(&cs, 0, h_end);
    let m = field_number(&cs, i2, m_end);
    let x = field_number(&cs, i4, s_end);
    match (h, m, x) {
        (Some(h), Some(m), Some(x)) => {
            let total: u128 = h as u128 * 3600 + m as u128 * 60 + x as u128;
            if total > MAX_NUMBER as u128 {
                Err(ParseError::InvalidNumber)
            } else {
                Ok(total as u64)
            }
        },
        _ => Err(ParseError::InvalidNumber),
    }
}


fn count_colons(cs: &Vec<char>) -> (r: usize)
    ensures
        r == colon_count(cs@),
{
    let mut n: usize = 0;
    let mut i: usize = 0;
    while i < cs.len()
        invariant
            i <= cs@.len(),
            n == colon_count(cs@.subrange(0, i as int)),
            n <= i,
        decreases cs@.len() - i,
    {
        assert(cs@.subrange(0, i + 1).drop_last() =~= cs@.subrange(0, i as int));
        if cs[i] == ':' {
            n = n + 1;
        }
        i = i + 1;
    }
    assert(cs@.subrange(0, i as int) =~= cs@);
    n
}

/// Seconds from the time of day `now` until the next time of day `target`, both in seconds
/// after midnight.
pub fn seconds_until(target: u32, now: u32) -> (r: u64)
    requires
        target < 86400,
        now < 86400,
    ensures
        r == wait_until(target as nat, now as nat),
        r < 86400,
{
    if target >= now {
        (target - now) as u64
    } else {
        (target as u64 + 86400) - now as u64
    }
}

/// The wait from the time of day `now` until a clock time as chrono read it (seconds after
/// midnight), or the error for a clock time that chrono did not accept.
pub fn clock_time_wait(parsed: Option<u32>, now: u32) -> (r: Result<u64, ParseError>)
    requires
        now < 86400,
        parsed matches Some(t) ==> t < 86400,
    ensures
        r == match parsed {
            Some(t) => Ok(wait_until(t as nat, now as nat) as u64),
            None => Err(ParseError::InvalidReference),
        },
{
    match parsed {
        Some(t) => Ok(seconds_until(t, now)),
        None => Err(ParseError::InvalidReference),
    }
}

/// The number of seconds from the time of day `now` (seconds after midnight) until the next
/// time of day that an absolute reference names: a bare hour ("16") or a clock time
/// ("16:30", "16:30:15"), tomorrow when it has passed today. A bare number is always read as
/// an hour of the day, never as a number of seconds.
pub fn parse_absolute(text: &str, now: u32) -> (r: Result<u64, ParseError>)
    requires
        now < 86400,
    ensures
        r == absolute_seconds(text@, now as nat),
        r matches Ok(v) ==> v < 86400,
{
    let cs = chars_of(text);
    let colons = count_colons(&cs);
    if colons == 0 {
        let e = digit_run_end(&cs, 0);
        if e == 0 || e != cs.len() {
            proof {
                if e != cs.len() {
                    assert(!is_digit(cs@[e as int]));
                }
            }
            return Err(ParseError::InvalidReference);
        }
        assert(cs@.subrange(0, e as int) =~= cs@);
        match digits_number(&cs, 0, e) {
            Some(hour) => {
                if hour < 24 {
                    Ok(seconds_until(hour as u32 * 3600, now))
                } else {
                    Err(ParseError::InvalidReference)
                }
            },
            None => Err(ParseError::InvalidReference),
        }
    } else if colons <= 2 {
        clock_time_wait(parse_clock_time(text), now)
    } else {
        Err(ParseError::Unsupported)
    }
}

/// The number of seconds to wait that `reference` stands for in `mode`, at the time of day
/// `now` (seconds after midnight).
pub fn resolve(mode: Mode, reference: &str, now: u32) -> (r: Result<u64, ParseError>)
    requires
        now < 86400,
    ensures
        r == reference_seconds(mode, reference@, now as nat),
        mode == Mode::At && r is Ok ==> r->Ok_0 < 86400,
{
    match mode {
        Mode::At => parse_absolute(reference, now),
        Mode::In => parse_relative(reference),
    }
}


/// A clock time with one or two colons that has already passed at the time of day `now`
/// resolves to the wait until that time tomorrow: the target plus one day, minus `now`,
/// which is positive and less than a day.
pub proof fn lemma_passed_time_is_tomorrow(s: Seq<char>, now: nat)
    requires
        now < 86400,
        1 <= colon_count(s) <= 2,
        clock_time_of(s) matches Some(t) && t < now,
    ensures
        absolute_seconds(s, now) == Ok::<u64, ParseError>((clock_time_of(s)->0 + 86400 - now) as u64),
        0 < clock_time_of(s)->0 + 86400 - now < 86400,
{
}

/// The text of an optional field: its digits followed by `unit`, or nothing.
pub open spec fn field_text(f: Option<Seq<char>>, unit: char) -> Seq<char> {
    match f {
        Some(ds) => ds.push(unit),
        None => seq![],
    }
}

/// One space, or nothing.
pub open spec fn space_text(present: bool) -> Seq<char> {
    if present {
        seq![' ']
    } else {
        seq![]
    }
}

/// Whether a field, if present, is one or more digits.
pub open spec fn valid_field(f: Option<Seq<char>>) -> bool {
    f matches Some(ds) ==> all_digits(ds)
}

/// The relative reference made of the given fields and optional spaces, in grammar order.
pub open spec fn relative_text(
    h: Option<Seq<char>>,
    sp1: bool,
    m: Option<Seq<char>>,
    sp2: bool,
    x: Option<Seq<char>>,
) -> Seq<char> {
    field_text(h, 'h') + space_text(sp1) + field_text(m, 'm') + space_text(sp2) + field_text(x, 's')
}

proof fn lemma_run_end(s: Seq<char>, i: int, e: int)
    requires
        0 <= i <= e <= s.len(),
        forall|k: int| i <= k < e ==> is_digit(#[trigger] s[k]),
        e < s.len() ==> !is_digit(s[e]),
    ensures
        run_end(s, i) == e,
    decreases e - i,
{
    if i < e {
        lemma_run_end(s, i + 1, e);
    }
}

/// What stands at `p` in `s`: the field `f` with `unit`, then `rest`.
proof fn lemma_field_here(s: Seq<char>, p: int, f: Option<Seq<char>>, unit: char, other: char)
    requires
        0 <= p <= s.len(),
        valid_field(f),
        f is Some ==> p + f->0.len() < s.len() && s.subrange(p, p + f->0.len() + 1) == f->0.push(unit),
        !is_digit(unit),
        other != unit,
    ensures
        f is Some ==> field_at(s, p, unit) == f && field_at(s, p, other) is None,
{
    if let Some(ds) = f {
        let e = p + ds.len();
        assert forall|k: int| p <= k < e implies is_digit(#[trigger] s[k]) by {
            assert(s[k] == s.subrange(p, e + 1)[k - p]);
        }
        assert(s[e] == s.subrange(p, e + 1)[ds.len() as int]);
        lemma_run_end(s, p, e);
        assert(s.subrange(p, e) =~= ds);
    }
}

proof fn lemma_no_field_at_space_or_end(s: Seq<char>, p: int, unit: char)
    requires
        0 <= p <= s.len(),
        p < s.len() ==> !is_digit(s[p]),
    ensures
        field_at(s, p, unit) is None,
{
    lemma_run_end(s, p, p);
}

#[verifier::rlimit(60)]
proof fn lemma_relative_fields_normal(
    h: Option<Seq<char>>,
    sp1: bool,
    m: Option<Seq<char>>,
    sp2: bool,
    x: Option<Seq<char>>,
)
    requires
        valid_field(h),
        valid_field(m),
        valid_field(x),
        sp1 || m is Some || !sp2,
    ensures
        relative_fields(relative_text(h, sp1, m, sp2, x)) == Some((h, m, x)),
{
    let s = relative_text(h, sp1, m, sp2, x);
    let a = field_text(h, 'h');
    let b = space_text(sp1);
    let c = field_text(m, 'm');
    let d = space_text(sp2);
    let e = field_text(x, 's');
    let p1 = a.len() as int;
    let p2 = p1 + b.len();
    let p3 = p2 + c.len();
    let p4 = p3 + d.len();
    assert(s.len() == p4 + e.len());
    assert(s.subrange(0, p1) =~= a);
    assert(s.subrange(p1, p2) =~= b);
    assert(s.subrange(p2, p3) =~= c);
    assert(s.subrange(p3, p4) =~= d);
    assert(s.subrange(p4, s.len() as int) =~= e);
    assert(b.len() > 0 ==> s[p1] == ' ') by {
        if b.len() > 0 {
            assert(s[p1] == s.subrange(p1, p2)[0]);
        }
    }
    assert(d.len() > 0 ==> s[p3] == ' ') by {
        if d.len() > 0 {
            assert(s[p3] == s.subrange(p3, p4)[0]);
        }
    }
    // the field with seconds, and what stands where it would start
    if let Some(ds) = x {
        assert(s[p4] == e[0]);
        assert(is_digit(ds[0]));
    }
    lemma_field_here(s, p4, x, 's', 'm');
    if x is None {
        lemma_no_field_at_space_or_end(s, p4, 's');
    }
    // the field with minutes
    if let Some(ds) = m {
        assert(s[p2] == c[0]);
        assert(is_digit(ds[0]));
    }
    lemma_field_here(s, p2, m, 'm', 'h');
    if m is None {
        if sp2 {
            lemma_no_field_at_space_or_end(s, p2, 'm');
        } else {
            lemma_field_here(s, p2, x, 's', 'm');
            if x is None {
                lemma_no_field_at_space_or_end(s, p2, 'm');
            }
        }
    }
    // the field with hours
    lemma_field_here(s, 0, h, 'h', 'm');
    if h is None {
        if sp1 {
            lemma_no_field_at_space_or_end(s, 0, 'h');
        } else if m is Some {
            lemma_field_here(s, 0, m, 'm', 'h');
        } else {
            lemma_field_here(s, 0, x, 's', 'h');
            if x is None {
                lemma_no_field_at_space_or_end(s, 0, 'h');
            }
        }
    }
    // no space where the grammar has none
    if let Some(ds) = m {
        assert(s[p2] == c[0]);
    }
    if let Some(ds) = x {
        assert(s[p4] == e[0]);
    }
}

/// Every reference of the relative grammar, `[Nh][ ][Nm][ ][Ns]`, stands for its hours times
/// 3600 plus its minutes times 60 plus its seconds, an absent field counting as zero, as long
/// as the numbers and the sum fit in `MAX_NUMBER`.
pub proof fn lemma_relative_sum(
    h: Option<Seq<char>>,
    sp1: bool,
    m: Option<Seq<char>>,
    sp2: bool,
    x: Option<Seq<char>>,
)
    requires
        valid_field(h),
        valid_field(m),
        valid_field(x),
        field_value(h) <= MAX_NUMBER,
        field_value(m) <= MAX_NUMBER,
        field_value(x) <= MAX_NUMBER,
        field_value(h) * 3600 + field_value(m) * 60 + field_value(x) <= MAX_NUMBER,
    ensures
        relative_seconds(relative_text(h, sp1, m, sp2, x)) == Ok::<u64, ParseError>(
            (field_value(h) * 3600 + field_value(m) * 60 + field_value(x)) as u64,
        ),
{
    if !sp1 && m is None && sp2 {
        assert(relative_text(h, sp1, m, sp2, x) =~= relative_text(h, true, m, false, x));
        lemma_relative_fields_normal(h, true, m, false, x);
    } else {
        lemma_relative_fields_normal(h, sp1, m, sp2, x);
    }
}


/// The field of `v` units: its decimal digits, or no field when `v` is zero.
pub open spec fn field_of(v: nat) -> Option<Seq<char>> {
    if v > 0 {
        Some(decimal(v))
    } else {
        None
    }
}

/// A relative reference written the way durations are formatted (the non-zero hours, minutes
/// and seconds, separated by single spaces) stands for its hours times 3600 plus its minutes
/// times 60 plus its seconds, and formatting that duration gives the same text back.
pub proof fn lemma_relative_format_round_trip(h: nat, m: nat, x: nat)
    requires
        h < 24,
        m < 60,
        x < 60,
    ensures
        relative_seconds(join_words(unit_word(h, 'h') + unit_word(m, 'm') + unit_word(x, 's')))
            == Ok::<u64, ParseError>((h * 3600 + m * 60 + x) as u64),
        duration_text((h * 3600 + m * 60 + x) as int) == join_words(
            unit_word(h, 'h') + unit_word(m, 'm') + unit_word(x, 's'),
        ),
{
    let ws = unit_word(h, 'h') + unit_word(m, 'm') + unit_word(x, 's');
    let sp1 = h > 0 && (m > 0 || x > 0);
    let sp2 = m > 0 && x > 0;
    lemma_decimal_digits(h);
    lemma_decimal_digits(m);
    lemma_decimal_digits(x);
    reveal_with_fuel(join_words, 4);
    assert(join_words(ws) =~= relative_text(field_of(h), sp1, field_of(m), sp2, field_of(x)));
    lemma_relative_sum(field_of(h), sp1, field_of(m), sp2, field_of(x));
    lemma_format_components(0, h as int, m as int, x as int);
    assert(unit_word(0, 'd') + unit_word(h, 'h') + unit_word(m, 'm') + unit_word(x, 's') =~= ws);
}

} // verus!
