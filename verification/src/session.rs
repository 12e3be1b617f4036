//! Naming and framing of session logs.
//!
//! A session log is named after the moment it was started:
//! `session_YYYY-MM-DDTHH-MM-SS.jsonl`, with the date of the proleptic
//! Gregorian calendar in UTC. The date of a day is stated through the number
//! of days that lie before it. Each record of the log is one line.

use vstd::prelude::*;
use crate::decimal::{nat_digits, push_nat};
use crate::text::{extend_chars, to_chars, to_text};

verus! {

/// The ordinal of 1970-01-01, counting 0001-01-01 as day 1.
pub const EPOCH_ORDINAL: i64 = 719_163;

/// Seconds in a day.
pub const SECONDS_PER_DAY: u64 = 86_400;

pub open spec fn is_leap(y: int) -> bool {
    y % 4 == 0 && (y % 100 != 0 || y % 400 == 0)
}

pub open spec fn year_len(y: int) -> int {
    if is_leap(y) {
        366
    } else {
        365
    }
}

pub open spec fn month_len(y: int, m: int) -> int {
    if m == 2 {
        if is_leap(y) {
            29
        } else {
            28
        }
    } else if m == 4 || m == 6 || m == 9 || m == 11 {
        30
    } else {
        31
    }
}

/// The days from 1970-01-01 up to the first day of the year `y`.
pub open spec fn days_before_year(y: int) -> int
    decreases y - 1970,
{
    if y <= 1970 {
        0
    } else {
        days_before_year(y - 1) + year_len(y - 1)
    }
}

/// The days of the year `y` that lie before its month `m`.
pub open spec fn days_before_month(y: int, m: int) -> int
    decreases m,
{
    if m <= 1 {
        0
    } else {
        days_before_month(y, m - 1) + month_len(y, m - 1)
    }
}

/// Whether year, month and day name a date from 1970 on.
pub open spec fn is_date(y: int, m: int, d: int) -> bool {
    y >= 1970 && 1 <= m <= 12 && 1 <= d <= month_len(y, m)
}

/// The number of days from 1970-01-01 to the date.
pub open spec fn day_number(y: int, m: int, d: int) -> int {
    days_before_year(y) + days_before_month(y, m) + d - 1
}

proof fn lemma_years_in_order(a: int, b: int)
    requires
        1970 <= a <= b,
    ensures
        days_before_year(a) <= days_before_year(b),
    decreases b - a,
{
    if a < b {
        lemma_years_in_order(a, b - 1);
    }
}

proof fn lemma_months_in_order(y: int, a: int, b: int)
    requires
        1 <= a <= b,
    ensures
        days_before_month(y, a) <= days_before_month(y, b),
    decreases b - a,
{
    if a < b {
        lemma_months_in_order(y, a, b - 1);
    }
}

proof fn lemma_day_within_year(y: int, m: int, d: int)
    requires
        is_date(y, m, d),
    ensures
        0 <= days_before_month(y, m) + d - 1 < year_len(y),
{
    lemma_months_in_order(y, 1, m);
    lemma_months_in_order(y, m + 1, 13);
    lemma_year_has_twelve_months(y);
}

/// No two dates have the same day number: the number of a day names its date.
pub proof fn lemma_date_unique(y1: int, m1: int, d1: int, y2: int, m2: int, d2: int)
    requires
        is_date(y1, m1, d1),
        is_date(y2, m2, d2),
        day_number(y1, m1, d1) == day_number(y2, m2, d2),
    ensures
        y1 == y2,
        m1 == m2,
        d1 == d2,
{
    lemma_day_within_year(y1, m1, d1);
    lemma_day_within_year(y2, m2, d2);
    if y1 < y2 {
        lemma_years_in_order(y1 + 1, y2);
    }
    if y2 < y1 {
        lemma_years_in_order(y2 + 1, y1);
    }
    if m1 < m2 {
        lemma_months_in_order(y1, m1 + 1, m2);
    }
    if m2 < m1 {
        lemma_months_in_order(y1, m2 + 1, m1);
    }
}

fn year_days(y: i64) -> (n: i64)
    requires
        0 <= y <= 100_000_000,
    ensures
        n == year_len(y as int),
{
    if y % 4 == 0 && (y % 100 != 0 || y % 400 == 0) {
        366
    } else {
        365
    }
}

fn month_days(y: i64, m: i64) -> (n: i64)
    requires
        0 <= y <= 100_000_000,
    ensures
        n == month_len(y as int, m as int),
{
    if m == 2 {
        if year_days(y) == 366 {
            29
        } else {
            28
        }
    } else if m == 4 || m == 6 || m == 9 || m == 11 {
        30
    } else {
        31
    }
}

proof fn lemma_year_has_twelve_months(y: int)
    ensures
        days_before_month(y, 13) == year_len(y),
{
    reveal_with_fuel(days_before_month, 14);
}

/// The date of the day with ordinal `n`, for days from 1970-01-01 on.
pub fn date_from_ordinal(n: i64) -> (r: (i32, i32, i32))
    requires
        EPOCH_ORDINAL <= n <= EPOCH_ORDINAL + u32::MAX,
    ensures
        is_date(r.0 as int, r.1 as int, r.2 as int),
        day_number(r.0 as int, r.1 as int, r.2 as int) == n - EPOCH_ORDINAL,
{
    let days: i64 = n - EPOCH_ORDINAL;
    let mut y: i64 = 1970;
    let mut rest: i64 = days;
    while rest >= year_days(y)
        invariant
            1970 <= y,
            0 <= rest <= days <= u32::MAX,
            days_before_year(y as int) + rest == days,
            365 * (y - 1970) <= days_before_year(y as int),
        decreases rest,
    {
        rest = rest - year_days(y);
        y = y + 1;
    }
    let mut m: i64 = 1;
    proof {
        lemma_year_has_twelve_months(y as int);
    }
    while rest >= month_days(y, m)
        invariant
            1970 <= y <= 100_000_000,
            1 <= m <= 12,
            0 <= rest,
            days_before_year(y as int) + days_before_month(y as int, m as int) + rest == days,
            days_before_month(y as int, m as int) + rest < year_len(y as int),
            days_before_month(y as int, 13) == year_len(y as int),
        decreases 12 - m,
    {
        proof {
            if m == 12 {
                assert(days_before_month(y as int, 13) == days_before_month(y as int, 12)
                    + month_len(y as int, 12));
            }
        }
        rest = rest - month_days(y, m);
        m = m + 1;
    }
    (y as i32, m as i32, (rest + 1) as i32)
}

/// The date of the day `days` after 1970-01-01.
pub fn unix_days_to_ymd(days: i64) -> (r: (i32, i32, i32))
    requires
        0 <= days <= u32::MAX,
    ensures
        is_date(r.0 as int, r.1 as int, r.2 as int),
        day_number(r.0 as int, r.1 as int, r.2 as int) == days,
{
    date_from_ordinal(days + EPOCH_ORDINAL)
}

/// Converts days since the Unix epoch to year, month and day.
pub fn days_to_year_month_day(days: u32) -> (r: (u32, (u32, u32)))
    ensures
        is_date(r.0 as int, r.1.0 as int, r.1.1 as int),
        day_number(r.0 as int, r.1.0 as int, r.1.1 as int) == days,
{
    let (y, m, d) = unix_days_to_ymd(days as i64);
    (y as u32, (m as u32, d as u32))
}

/// `count` zeros.
pub open spec fn zeros(count: int) -> Seq<char> {
    Seq::new(
        if count > 0 {
            count as nat
        } else {
            0
        },
        |i: int| '0',
    )
}

/// The digits of `n`, with zeros in front up to `width` characters.
pub open spec fn zero_padded(n: nat, width: int) -> Seq<char> {
    zeros(width - nat_digits(n).len()) + nat_digits(n)
}

fn push_padded(out: &mut Vec<char>, n: u64, width: usize)
    ensures
        final(out)@ == old(out)@ + zero_padded(n as nat, width as int),
{
    let mut digits: Vec<char> = Vec::new();
    push_nat(&mut digits, n as u128);
    proof {
        assert(digits@ =~= nat_digits(n as nat));
    }
    let mut k: usize = digits.len();
    let ghost base = out@;
    while k < width
        invariant
            digits.len() <= k,
            k <= width || k == digits.len(),
            out@ == base + zeros(k - digits.len()),
        decreases width - k,
    {
        out.push('0');
        proof {
            assert(out@ =~= base + zeros(k + 1 - digits.len()));
        }
        k += 1;
    }
    proof {
        assert(base + zeros(0) =~= base);
        assert(zeros(k - digits.len()) =~= zeros(width - digits.len()));
    }
    extend_chars(out, &digits);
    proof {
        assert(out@ =~= base + zero_padded(n as nat, width as int));
    }
}

/// The day, counted from 1970-01-01, in which the second `secs` lies, as a
/// number of 32 bits: higher bits are dropped.
pub open spec fn day_of(secs: u64) -> u32 {
    ((secs / SECONDS_PER_DAY) % 0x1_0000_0000) as u32
}

/// The name of the session log started at `secs` seconds after the epoch.
pub open spec fn session_name(secs: u64, y: int, m: int, d: int) -> Seq<char> {
    "session_"@ + zero_padded(y as nat, 4) + seq!['-'] + zero_padded(m as nat, 2) + seq!['-']
        + zero_padded(d as nat, 2) + seq!['T'] + zero_padded((secs / 3600 % 24) as nat, 2)
        + seq!['-'] + zero_padded((secs / 60 % 60) as nat, 2) + seq!['-'] + zero_padded(
        (secs % 60) as nat,
        2,
    ) + ".jsonl"@
}

/// The file name of the session log started `secs` seconds after the Unix
/// epoch: `session_YYYY-MM-DDTHH-MM-SS.jsonl` for the date and time, in UTC,
/// of that second.
pub fn session_file_name(secs: u64) -> (name: String)
    ensures
        exists|y: int, m: int, d: int|
            {
                &&& is_date(y, m, d)
                &&& day_number(y, m, d) == day_of(secs)
                &&& name@ == #[trigger] session_name(secs, y, m, d)
            },
{
    let days: u32 = ((secs / SECONDS_PER_DAY) % 0x1_0000_0000) as u32;
    let (y, md) = days_to_year_month_day(days);
    let mut out = to_chars("session_");
    push_padded(&mut out, y as u64, 4);
    out.push('-');
    push_padded(&mut out, md.0 as u64, 2);
    out.push('-');
    push_padded(&mut out, md.1 as u64, 2);
    out.push('T');
    push_padded(&mut out, secs / 3600 % 24, 2);
    out.push('-');
    push_padded(&mut out, secs / 60 % 60, 2);
    out.push('-');
    push_padded(&mut out, secs % 60, 2);
    extend_chars(&mut out, &to_chars(".jsonl"));
    proof {
        assert(out@ =~= session_name(secs, y as int, md.0 as int, md.1 as int));
    }
    to_text(&out)
}

/// Whether `c` occurs in `s`.
pub open spec fn has_char(s: Seq<char>, c: char) -> bool {
    exists|i: int| 0 <= i < s.len() && s[i] == c
}

/// One record of a session log: the encoded object followed by a newline.
/// An encoding that holds a line break is refused, so that a record is
/// always exactly one line.
pub fn record_line(json: &str) -> (r: Option<String>)
    ensures
        match r {
            Some(line) => !has_char(json@, '\n') && line@ == json@.push('\n'),
            None => has_char(json@, '\n'),
        },
{
    let mut v = to_chars(json);
    let n = v.len();
    let mut i: usize = 0;
    while i < n
        invariant
            i <= n == v.len(),
            v@ == json@,
            forall|j: int| 0 <= j < i ==> v@[j] != '\n',
        decreases n - i,
    {
        if v[i] == '\n' {
            return None;
        }
        i += 1;
    }
    v.push('\n');
    Some(to_text(&v))
}

/// A record is one line: its only line break is its last character.
pub proof fn lemma_record_is_one_line(json: Seq<char>)
    requires
        !has_char(json, '\n'),
    ensures
        json.push('\n').last() == '\n',
        forall|i: int| 0 <= i < json.len() ==> json.push('\n')[i] != '\n',
{
    assert forall|i: int| 0 <= i < json.len() implies json.push('\n')[i] != '\n' by {
        assert(json.push('\n')[i] == json[i]);
    }
}

} // verus!
