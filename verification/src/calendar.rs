//! Dates.
use vstd::prelude::*;
use crate::text::push_dec;
#[allow(unused_imports)]
use crate::text::{dec, repeated, zero_padded};

verus! {

/// The year has a leap day.
pub open spec fn is_leap(year: int) -> bool {
    year % 4 == 0 && (year % 100 != 0 || year % 400 == 0)
}

/// The days of a year.
pub open spec fn year_days(year: int) -> int {
    if is_leap(year) { 366 } else { 365 }
}

/// The days of a month of a year, counted from one.
pub open spec fn month_days(year: int, month: int) -> int {
    if month == 2 {
        if is_leap(year) { 29 } else { 28 }
    } else if month == 4 || month == 6 || month == 9 || month == 11 {
        30
    } else {
        31
    }
}

/// The days before a year, counted from 1970.
pub open spec fn days_before_year(year: int) -> int
    decreases year - 1970,
{
    if year <= 1970 { 0 } else { days_before_year(year - 1) + year_days(year - 1) }
}

/// The days before a month of a year.
pub open spec fn days_before_month(year: int, month: int) -> int
    decreases month,
{
    if month <= 1 { 0 } else { days_before_month(year, month - 1) + month_days(year, month - 1) }
}

/// A day.
#[derive(Clone, Copy, Debug, PartialEq, Eq, Structural)]
pub struct Date {
    pub year: u64,
    pub month: u64,
    pub day: u64,
}

/// The date is the one that comes `days` days after the first of January 1970.
pub open spec fn is_date(days: int, d: Date) -> bool {
    d.year >= 1970 && 1 <= d.month <= 12 && 1 <= d.day <= month_days(d.year as int, d.month as int) && days
        == days_before_year(d.year as int) + days_before_month(d.year as int, d.month as int) + d.day - 1
}

proof fn lemma_month_days(year: int)
    ensures
        days_before_month(year, 13) == year_days(year),
{
    reveal_with_fuel(days_before_month, 13);
}

proof fn lemma_months_grow(year: int, a: int, b: int)
    requires
        1 <= a <= b,
    ensures
        days_before_month(year, a) <= days_before_month(year, b),
        a < b ==> days_before_month(year, a) + month_days(year, a) <= days_before_month(year, b),
    decreases b - a,
{
    if a < b {
        lemma_months_grow(year, a, b - 1);
    }
}

proof fn lemma_years_grow(a: int, b: int)
    requires
        1970 <= a <= b,
    ensures
        days_before_year(a) + 365 * (b - a) <= days_before_year(b),
        a < b ==> days_before_year(a) + year_days(a) <= days_before_year(b),
    decreases b - a,
{
    if a < b {
        lemma_years_grow(a, b - 1);
    }
}

/// Every number of days gives one date only.
pub proof fn lemma_date_unique(days: int, a: Date, b: Date)
    requires
        is_date(days, a),
        is_date(days, b),
    ensures
        a == b,
{
    lemma_month_days(a.year as int);
    lemma_month_days(b.year as int);
    lemma_months_grow(a.year as int, a.month as int, 13);
    lemma_months_grow(b.year as int, b.month as int, 13);
    lemma_months_grow(a.year as int, 1, a.month as int);
    lemma_months_grow(b.year as int, 1, b.month as int);
    if a.year < b.year {
        lemma_years_grow(a.year as int, b.year as int);
    } else if b.year < a.year {
        lemma_years_grow(b.year as int, a.year as int);
    } else if a.month < b.month {
        lemma_months_grow(a.year as int, a.month as int, b.month as int);
    } else if b.month < a.month {
        lemma_months_grow(a.year as int, b.month as int, a.month as int);
    }
}

fn leap(year: u64) -> (r: bool)
    ensures
        r == is_leap(year as int),
{
    year % 4 == 0 && (year % 100 != 0 || year % 400 == 0)
}

fn year_length(year: u64) -> (n: u64)
    ensures
        n == year_days(year as int),
{
    if leap(year) {
        366
    } else {
        365
    }
}

/// The date that comes `days` days after the first of January 1970.
pub fn date_of(days: u64) -> (d: Date)
    requires
        days <= 0x1_0000_0000_0000,
    ensures
        is_date(days as int, d),
{
    let mut year: u64 = 1970;
    let mut left: u64 = days;
    while left >= year_length(year)
        invariant
            year >= 1970,
            days <= 0x1_0000_0000_0000,
            year - 1970 <= days - left,
            left <= days,
            days == days_before_year(year as int) + left,
        decreases left,
    {
        left = left - year_length(year);
        year += 1;
    }
    let mut month: u64 = 1;
    proof {
        lemma_month_days(year as int);
    }
    let ghost rest = left as int;
    while month < 12 && left >= month_length(year, month)
        invariant
            1 <= month <= 12,
            rest == days_before_month(year as int, month as int) + left,
            rest < year_days(year as int),
            days_before_month(year as int, 13) == year_days(year as int),
        decreases 12 - month,
    {
        left = left - month_length(year, month);
        month += 1;
    }
    assert(left < month_days(year as int, month as int)) by {
        if month == 12 {
            assert(days_before_month(year as int, 13) == days_before_month(year as int, 12) + month_days(year as int, 12));
        }
    }
    Date { year, month, day: left + 1 }
}

fn month_length(year: u64, month: u64) -> (n: u64)
    ensures
        n == month_days(year as int, month as int),
{
    if month == 2 {
        if leap(year) {
            29
        } else {
            28
        }
    } else if month == 4 || month == 6 || month == 9 || month == 11 {
        30
    } else {
        31
    }
}

/// Two digits, or more where the number has more.
pub open spec fn digits(n: int, width: nat) -> Seq<char> {
    zero_padded(dec(n as nat), width)
}

fn push_digits(s: &mut String, n: u64, width: usize)
    ensures
        final(s)@ == old(s)@ + digits(n as int, width as nat),
{
    let mut t = String::new();
    push_dec(&mut t, n);
    assert(t@ =~= dec(n as nat));
    let have: usize = t.as_str().unicode_len();
    let mut i: usize = have;
    while i < width
        invariant
            have <= i,
            i <= width || i == have,
            have == dec(n as nat).len(),
            s@ == old(s)@ + repeated('0', i - have),
        decreases width - i,
    {
        s.push('0');
        assert(s@ =~= old(s)@ + repeated('0', i + 1 - have));
        i += 1;
    }
    s.append(t.as_str());
    assert(s@ =~= old(s)@ + digits(n as int, width as nat));
}

/// A time: year, month and day, then hours, minutes and seconds.
pub open spec fn timestamp_text(d: Date, seconds: int) -> Seq<char> {
    digits(d.year as int, 4) + "-"@ + digits(d.month as int, 2) + "-"@ + digits(d.day as int, 2) + "T"@ + digits(
        seconds / 3600,
        2,
    ) + ":"@ + digits((seconds % 3600) / 60, 2) + ":"@ + digits(seconds % 60, 2) + "Z"@
}

/// The time that comes `secs` seconds after the beginning of 1970, such as `1970-01-01T00:00:00Z`.
pub fn chrono_lite_timestamp(secs: u64) -> (r: String)
    ensures
        exists|d: Date|
            is_date(secs as int / 86400, d) && r@ == #[trigger] timestamp_text(d, secs as int % 86400),
{
    let d = date_of(secs / 86400);
    let time: u64 = secs % 86400;
    let mut s = String::new();
    push_digits(&mut s, d.year, 4);
    s.append("-");
    push_digits(&mut s, d.month, 2);
    s.append("-");
    push_digits(&mut s, d.day, 2);
    s.append("T");
    push_digits(&mut s, time / 3600, 2);
    s.append(":");
    push_digits(&mut s, (time % 3600) / 60, 2);
    s.append(":");
    push_digits(&mut s, time % 60, 2);
    s.append("Z");
    assert(s@ =~= timestamp_text(d, secs as int % 86400));
    s
}

} // verus!
