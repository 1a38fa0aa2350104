//! Dates, wall-clock times and combined instants.
//!
//! Raw text is validated by strict lexical and calendar rules before it is
//! combined into an [`Instant`], so a malformed date never silently parses
//! into a nonsensical instant. Instants carry no timezone and no sub-minute
//! resolution; they are ordered by `(year, month, day, hour, minute)`.

use vstd::prelude::*;

use crate::errors::ValidationError;
use vstd::arithmetic::div_mod::lemma_div_is_ordered;
use vstd::arithmetic::div_mod::lemma_div_is_ordered_by_denominator;
use vstd::arithmetic::div_mod::lemma_div_pos_is_pos;
use vstd::arithmetic::div_mod::lemma_fundamental_div_mod;
use vstd::arithmetic::div_mod::lemma_fundamental_div_mod_converse_div;
use vstd::arithmetic::div_mod::lemma_fundamental_div_mod_converse_mod;
use vstd::arithmetic::div_mod::lemma_mod_division_less_than_divisor;

verus! {

/// A Gregorian calendar date.
#[derive(Clone, Copy, Debug, PartialEq, Eq, PartialOrd, Ord, Structural)]
pub struct Date {
    pub year: u32,
    pub month: u32,
    pub day: u32,
}

/// A 24-hour wall-clock time with minute resolution.
#[derive(Clone, Copy, Debug, PartialEq, Eq, PartialOrd, Ord, Structural)]
pub struct Time {
    pub hour: u32,
    pub minute: u32,
}

/// A calendar date combined with a wall-clock time; the comparable point
/// every appointment is boxed by.
#[derive(Clone, Copy, Debug, PartialEq, Eq, PartialOrd, Ord, Structural)]
pub struct Instant {
    pub date: Date,
    pub time: Time,
}

/// The Gregorian leap-year rule: divisible by 4, and not by 100 unless also
/// by 400.
pub open spec fn is_leap_year(year: int) -> bool {
    year % 4 == 0 && (year % 100 != 0 || year % 400 == 0)
}

/// How many days the given month of the given year has.
pub open spec fn days_in_month(year: int, month: int) -> int {
    if month == 2 {
        if is_leap_year(year) {
            29
        } else {
            28
        }
    } else if month == 4 || month == 6 || month == 9 || month == 11 {
        30
    } else {
        31
    }
}

/// A real calendar date with a four-digit year.
pub open spec fn date_valid(d: Date) -> bool {
    &&& d.year <= 9999
    &&& 1 <= d.month <= 12
    &&& 1 <= d.day <= days_in_month(d.year as int, d.month as int)
}

/// A real 24-hour clock time.
pub open spec fn time_valid(t: Time) -> bool {
    t.hour <= 23 && t.minute <= 59
}

/// Both halves of the instant are valid.
pub open spec fn instant_valid(i: Instant) -> bool {
    date_valid(i.date) && time_valid(i.time)
}

/// Strict ordering of dates by `(year, month, day)`.
pub open spec fn date_lt(a: Date, b: Date) -> bool {
    ||| a.year < b.year
    ||| (a.year == b.year && a.month < b.month)
    ||| (a.year == b.year && a.month == b.month && a.day < b.day)
}

/// Strict ordering of times by `(hour, minute)`.
pub open spec fn time_lt(a: Time, b: Time) -> bool {
    a.hour < b.hour || (a.hour == b.hour && a.minute < b.minute)
}

/// Strict ordering of instants by `(year, month, day, hour, minute)`.
pub open spec fn instant_lt(a: Instant, b: Instant) -> bool {
    date_lt(a.date, b.date) || (a.date == b.date && time_lt(a.time, b.time))
}

/// Non-strict instant ordering.
pub open spec fn instant_le(a: Instant, b: Instant) -> bool {
    instant_lt(a, b) || a == b
}

/// An ASCII decimal digit.
pub open spec fn is_digit(c: char) -> bool {
    48 <= c as int <= 57
}

/// The numeric value of an ASCII decimal digit.
pub open spec fn digit_val(c: char) -> int {
    c as int - 48
}

/// The date named by a `mm/dd/yyyy` string, read off position by position.
pub open spec fn spec_date_of(s: Seq<char>) -> Date {
    Date {
        month: (digit_val(s[0]) * 10 + digit_val(s[1])) as u32,
        day: (digit_val(s[3]) * 10 + digit_val(s[4])) as u32,
        year: (digit_val(s[6]) * 1000 + digit_val(s[7]) * 100 + digit_val(s[8]) * 10 + digit_val(
            s[9],
        )) as u32,
    }
}

/// The text is exactly `mm/dd/yyyy` with decimal digits in every numeric
/// position, and the date it names is a real calendar date.
pub open spec fn date_text_valid(s: Seq<char>) -> bool {
    &&& s.len() == 10
    &&& is_digit(s[0]) && is_digit(s[1])
    &&& s[2] == '/'
    &&& is_digit(s[3]) && is_digit(s[4])
    &&& s[5] == '/'
    &&& is_digit(s[6]) && is_digit(s[7]) && is_digit(s[8]) && is_digit(s[9])
    &&& date_valid(spec_date_of(s))
}

/// The time named by an `hh:mm` string.
pub open spec fn spec_time_of(s: Seq<char>) -> Time {
    Time {
        hour: (digit_val(s[0]) * 10 + digit_val(s[1])) as u32,
        minute: (digit_val(s[3]) * 10 + digit_val(s[4])) as u32,
    }
}

/// The text is exactly `hh:mm` with decimal digits in every numeric position,
/// and the time it names is a real 24-hour clock time.
pub open spec fn time_text_valid(s: Seq<char>) -> bool {
    &&& s.len() == 5
    &&& is_digit(s[0]) && is_digit(s[1])
    &&& s[2] == ':'
    &&& is_digit(s[3]) && is_digit(s[4])
    &&& time_valid(spec_time_of(s))
}

/// Reads a digit character as its numeric value.
pub(crate) fn read_digit(c: char) -> (r: Option<u32>)
    ensures
        r is Some <==> is_digit(c),
        r is Some ==> r->0 == digit_val(c) && r->0 <= 9,
{
    let v = c as u32;
    if 48 <= v && v <= 57 {
        Some(v - 48)
    } else {
        None
    }
}

/// Parses strict `mm/dd/yyyy` text into a validated calendar date.
///
/// Succeeds exactly on text of that lexical shape naming a real Gregorian
/// date: two-digit month `01`–`12`, two-digit day bounded by the month's
/// length (February 29 only in leap years), four-digit year.
pub fn parse_date(text: &str) -> (r: Result<Date, ValidationError>)
    ensures
        r is Ok <==> date_text_valid(text@),
        r is Ok ==> r->Ok_0 == spec_date_of(text@) && date_valid(r->Ok_0),
        r is Err ==> r->Err_0 == ValidationError::InvalidDate,
{
    if text.unicode_len() != 10 {
        return Err(ValidationError::InvalidDate);
    }
    if text.get_char(2) != '/' || text.get_char(5) != '/' {
        return Err(ValidationError::InvalidDate);
    }
    let m1 = match read_digit(text.get_char(0)) {
        Some(v) => v,
        None => {
            return Err(ValidationError::InvalidDate);
        },
    };
    let m2 = match read_digit(text.get_char(1)) {
        Some(v) => v,
        None => {
            return Err(ValidationError::InvalidDate);
        },
    };
    let d1 = match read_digit(text.get_char(3)) {
        Some(v) => v,
        None => {
            return Err(ValidationError::InvalidDate);
        },
    };
    let d2 = match read_digit(text.get_char(4)) {
        Some(v) => v,
        None => {
            return Err(ValidationError::InvalidDate);
        },
    };
    let y1 = match read_digit(text.get_char(6)) {
        Some(v) => v,
        None => {
            return Err(ValidationError::InvalidDate);
        },
    };
    let y2 = match read_digit(text.get_char(7)) {
        Some(v) => v,
        None => {
            return Err(ValidationError::InvalidDate);
        },
    };
    let y3 = match read_digit(text.get_char(8)) {
        Some(v) => v,
        None => {
            return Err(ValidationError::InvalidDate);
        },
    };
    let y4 = match read_digit(text.get_char(9)) {
        Some(v) => v,
        None => {
            return Err(ValidationError::InvalidDate);
        },
    };
    let d = Date {
        month: m1 * 10 + m2,
        day: d1 * 10 + d2,
        year: y1 * 1000 + y2 * 100 + y3 * 10 + y4,
    };
    if d.month < 1 || d.month > 12 {
        return Err(ValidationError::InvalidDate);
    }
    if d.day < 1 || d.day > days_in_month_of(d.year, d.month) {
        return Err(ValidationError::InvalidDate);
    }
    Ok(d)
}

/// Parses strict `hh:mm` text into a validated 24-hour clock time.
///
/// Succeeds exactly on text of that lexical shape with hour `00`–`23` and
/// minute `00`–`59`.
pub fn parse_time(text: &str) -> (r: Result<Time, ValidationError>)
    ensures
        r is Ok <==> time_text_valid(text@),
        r is Ok ==> r->Ok_0 == spec_time_of(text@) && time_valid(r->Ok_0),
        r is Err ==> r->Err_0 == ValidationError::InvalidTime,
{
    if text.unicode_len() != 5 {
        return Err(ValidationError::InvalidTime);
    }
    if text.get_char(2) != ':' {
        return Err(ValidationError::InvalidTime);
    }
    let h1 = match read_digit(text.get_char(0)) {
        Some(v) => v,
        None => {
            return Err(ValidationError::InvalidTime);
        },
    };
    let h2 = match read_digit(text.get_char(1)) {
        Some(v) => v,
        None => {
            return Err(ValidationError::InvalidTime);
        },
    };
    let n1 = match read_digit(text.get_char(3)) {
        Some(v) => v,
        None => {
            return Err(ValidationError::InvalidTime);
        },
    };
    let n2 = match read_digit(text.get_char(4)) {
        Some(v) => v,
        None => {
            return Err(ValidationError::InvalidTime);
        },
    };
    let t = Time { hour: h1 * 10 + h2, minute: n1 * 10 + n2 };
    if t.hour > 23 || t.minute > 59 {
        return Err(ValidationError::InvalidTime);
    }
    Ok(t)
}

/// How many days the given month of the given year has.
pub fn days_in_month_of(year: u32, month: u32) -> (r: u32)
    requires
        1 <= month <= 12,
    ensures
        r == days_in_month(year as int, month as int),
{
    if month == 2 {
        if year % 4 == 0 && (year % 100 != 0 || year % 400 == 0) {
            29
        } else {
            28
        }
    } else if month == 4 || month == 6 || month == 9 || month == 11 {
        30
    } else {
        31
    }
}

/// Whether the date is a real calendar date.
pub fn date_valid_check(d: &Date) -> (r: bool)
    ensures
        r == date_valid(*d),
{
    d.year <= 9999 && 1 <= d.month && d.month <= 12 && 1 <= d.day && d.day <= days_in_month_of(
        d.year,
        d.month,
    )
}

/// Whether the time is a real 24-hour clock time.
pub fn time_valid_check(t: &Time) -> (r: bool)
    ensures
        r == time_valid(*t),
{
    t.hour <= 23 && t.minute <= 59
}

/// Whether both halves of the instant are valid.
pub fn instant_valid_check(i: &Instant) -> (r: bool)
    ensures
        r == instant_valid(*i),
{
    date_valid_check(&i.date) && time_valid_check(&i.time)
}

/// Combines a validated date and time into a single comparable instant.
pub fn combine(date: Date, time: Time) -> (r: Instant)
    ensures
        r.date == date && r.time == time,
{
    Instant { date, time }
}

impl Instant {
    /// Whether this instant falls strictly before another.
    pub fn before(&self, other: &Instant) -> (r: bool)
        ensures
            r == instant_lt(*self, *other),
    {
        if self.date.year != other.date.year {
            self.date.year < other.date.year
        } else if self.date.month != other.date.month {
            self.date.month < other.date.month
        } else if self.date.day != other.date.day {
            self.date.day < other.date.day
        } else if self.time.hour != other.time.hour {
            self.time.hour < other.time.hour
        } else {
            self.time.minute < other.time.minute
        }
    }
}

/// The character for a single decimal digit.
pub open spec fn digit_char(n: int) -> char {
    if n == 0 {
        '0'
    } else if n == 1 {
        '1'
    } else if n == 2 {
        '2'
    } else if n == 3 {
        '3'
    } else if n == 4 {
        '4'
    } else if n == 5 {
        '5'
    } else if n == 6 {
        '6'
    } else if n == 7 {
        '7'
    } else if n == 8 {
        '8'
    } else {
        '9'
    }
}

/// A number rendered as exactly two decimal digits.
pub open spec fn two_digits(n: int) -> Seq<char> {
    seq![digit_char(n / 10), digit_char(n % 10)]
}

/// A number rendered as exactly four decimal digits.
pub open spec fn four_digits(n: int) -> Seq<char> {
    seq![digit_char(n / 1000), digit_char((n / 100) % 10), digit_char((n / 10) % 10), digit_char(n % 10)]
}

/// A date rendered as `mm/dd/yyyy`.
pub open spec fn date_text(d: Date) -> Seq<char> {
    two_digits(d.month as int) + seq!['/'] + two_digits(d.day as int) + seq!['/'] + four_digits(
        d.year as int,
    )
}

/// A time rendered as `hh:mm`.
pub open spec fn time_text(t: Time) -> Seq<char> {
    two_digits(t.hour as int) + seq![':'] + two_digits(t.minute as int)
}

/// An instant rendered as `mm/dd/yyyy hh:mm`.
pub open spec fn instant_text(i: Instant) -> Seq<char> {
    date_text(i.date) + seq![' '] + time_text(i.time)
}

/// Appends one decimal digit character.
pub(crate) fn push_digit(out: &mut String, d: u32)
    requires
        d <= 9,
    ensures
        final(out)@ == old(out)@ + seq![digit_char(d as int)],
{
    let ghost start: Seq<char> = out@;
    match d {
        0 => {
            proof {
                reveal_strlit("0");
            }
            out.append("0");
        },
        1 => {
            proof {
                reveal_strlit("1");
            }
            out.append("1");
        },
        2 => {
            proof {
                reveal_strlit("2");
            }
            out.append("2");
        },
        3 => {
            proof {
                reveal_strlit("3");
            }
            out.append("3");
        },
        4 => {
            proof {
                reveal_strlit("4");
            }
            out.append("4");
        },
        5 => {
            proof {
                reveal_strlit("5");
            }
            out.append("5");
        },
        6 => {
            proof {
                reveal_strlit("6");
            }
            out.append("6");
        },
        7 => {
            proof {
                reveal_strlit("7");
            }
            out.append("7");
        },
        8 => {
            proof {
                reveal_strlit("8");
            }
            out.append("8");
        },
        _ => {
            proof {
                reveal_strlit("9");
            }
            out.append("9");
        },
    }
    proof {
        assert(out@ =~= start + seq![digit_char(d as int)]);
    }
}

/// Appends a number as exactly two decimal digits.
pub(crate) fn push_two_digits(out: &mut String, n: u32)
    requires
        n <= 99,
    ensures
        final(out)@ == old(out)@ + two_digits(n as int),
{
    let ghost start: Seq<char> = out@;
    push_digit(out, n / 10);
    push_digit(out, n % 10);
    proof {
        assert(out@ =~= start + two_digits(n as int));
    }
}

/// Appends a number as exactly four decimal digits.
pub(crate) fn push_four_digits(out: &mut String, n: u32)
    requires
        n <= 9999,
    ensures
        final(out)@ == old(out)@ + four_digits(n as int),
{
    let ghost start: Seq<char> = out@;
    push_digit(out, n / 1000);
    push_digit(out, (n / 100) % 10);
    push_digit(out, (n / 10) % 10);
    push_digit(out, n % 10);
    proof {
        assert(out@ =~= start + four_digits(n as int));
    }
}

impl Date {
    /// Renders the date as `mm/dd/yyyy`.
    pub fn display(&self) -> (r: String)
        requires
            date_valid(*self),
        ensures
            r@ == date_text(*self),
    {
        let mut out = String::new();
        push_two_digits(&mut out, self.month);
        proof {
            reveal_strlit("/");
        }
        out.append("/");
        push_two_digits(&mut out, self.day);
        out.append("/");
        push_four_digits(&mut out, self.year);
        proof {
            assert(out@ =~= date_text(*self));
        }
        out
    }
}

impl Time {
    /// Renders the time as `hh:mm`.
    pub fn display(&self) -> (r: String)
        requires
            time_valid(*self),
        ensures
            r@ == time_text(*self),
    {
        let mut out = String::new();
        push_two_digits(&mut out, self.hour);
        proof {
            reveal_strlit(":");
        }
        out.append(":");
        push_two_digits(&mut out, self.minute);
        proof {
            assert(out@ =~= time_text(*self));
        }
        out
    }
}

impl Instant {
    /// Renders the instant as `mm/dd/yyyy hh:mm`.
    pub fn display(&self) -> (r: String)
        requires
            instant_valid(*self),
        ensures
            r@ == instant_text(*self),
    {
        let mut out = self.date.display();
        proof {
            reveal_strlit(" ");
        }
        out.append(" ");
        let tail = self.time.display();
        out.append(tail.as_str());
        proof {
            assert(out@ =~= instant_text(*self));
        }
        out
    }
}

/// How many of the years in `[0, year)` are leap years.
pub open spec fn leap_years_before(year: int) -> int {
    if year <= 0 {
        0
    } else {
        1 + (year - 1) / 4 - (year - 1) / 100 + (year - 1) / 400
    }
}

/// How many days of the year fall strictly before the given month.
pub open spec fn days_before_month(year: int, month: int) -> int
    decreases month,
{
    if month <= 1 {
        0
    } else {
        days_before_month(year, month - 1) + days_in_month(year, month - 1)
    }
}

/// The date's distance in days from January 1 of year 0.
pub open spec fn day_number(d: Date) -> int {
    365 * d.year + leap_years_before(d.year as int) + days_before_month(
        d.year as int,
        d.month as int,
    ) + d.day - 1
}

/// The instant's distance in minutes from January 1 of year 0, midnight.
pub open spec fn total_minutes(i: Instant) -> int {
    day_number(i.date) * 1440 + i.time.hour * 60 + i.time.minute
}

/// Counts the leap years before the given year.
fn leap_years_before_of(year: u32) -> (r: u32)
    requires
        year <= 9999,
    ensures
        r == leap_years_before(year as int),
        r <= 2500,
{
    if year == 0 {
        0
    } else {
        let y = year - 1;
        let a = y / 4;
        let b = y / 100;
        let c = y / 400;
        proof {
            lemma_div_is_ordered_by_denominator(y as int, 4, 100);
            lemma_div_is_ordered(y as int, 9998, 4);
        }
        1 + a - b + c
    }
}

/// Counts the days of the year strictly before the given month.
fn days_before_month_of(year: u32, month: u32) -> (r: u32)
    requires
        1 <= month <= 12,
    ensures
        r == days_before_month(year as int, month as int),
        r <= 341,
{
    let mut acc: u32 = 0;
    let mut m: u32 = 1;
    while m < month
        invariant
            1 <= m <= month <= 12,
            acc == days_before_month(year as int, m as int),
            acc <= 31 * (m - 1),
        decreases month - m,
    {
        acc = acc + days_in_month_of(year, m);
        m = m + 1;
    }
    acc
}

/// Computes the date's day number.
fn day_number_of(d: Date) -> (r: u32)
    requires
        date_valid(d),
    ensures
        r == day_number(d),
        r <= 3_660_000,
{
    let leaps = leap_years_before_of(d.year);
    let dbm = days_before_month_of(d.year, d.month);
    365 * d.year + leaps + dbm + d.day - 1
}

/// Computes the instant's total minutes.
fn total_minutes_of(i: Instant) -> (r: u64)
    requires
        instant_valid(i),
    ensures
        r == total_minutes(i),
{
    let dn = day_number_of(i.date) as u64;
    dn * 1440 + (i.time.hour as u64) * 60 + (i.time.minute as u64)
}

/// One more unit of the numerator raises a flooring quotient exactly when the
/// new numerator is a multiple of the divisor.
proof fn lemma_div_step(x: int, d: int)
    requires
        x >= 1,
        d >= 1,
    ensures
        x / d == (x - 1) / d + if x % d == 0 {
            1int
        } else {
            0int
        },
{
    let q: int = (x - 1) / d;
    let r: int = (x - 1) % d;
    lemma_fundamental_div_mod(x - 1, d);
    lemma_mod_division_less_than_divisor(x - 1, d);
    if r == d - 1 {
        assert(x == (q + 1) * d + 0) by (nonlinear_arith)
            requires
                x - 1 == d * q + r,
                r == d - 1,
        ;
        lemma_fundamental_div_mod_converse_mod(x, d, q + 1, 0);
        lemma_fundamental_div_mod_converse_div(x, d, q + 1, 0);
    } else {
        assert(x == q * d + (r + 1)) by (nonlinear_arith)
            requires
                x - 1 == d * q + r,
        ;
        lemma_fundamental_div_mod_converse_mod(x, d, q, r + 1);
        lemma_fundamental_div_mod_converse_div(x, d, q, r + 1);
    }
}

/// A multiple of `big` is also a multiple of a factor `small` of `big`.
proof fn lemma_mod_zero_factor(y: int, big: int, small: int, f: int)
    requires
        big == f * small,
        small >= 1,
        f >= 1,
        y >= 0,
        y % big == 0,
    ensures
        y % small == 0,
{
    assert(big >= 1) by (nonlinear_arith)
        requires
            big == f * small,
            f >= 1,
            small >= 1,
    ;
    let k: int = y / big;
    lemma_fundamental_div_mod(y, big);
    lemma_div_pos_is_pos(y, big);
    assert(y == (f * k) * small + 0) by (nonlinear_arith)
        requires
            y == big * k,
            big == f * small,
    ;
    lemma_fundamental_div_mod_converse_mod(y, small, f * k, 0);
}

/// Extending the range of years by one adds one exactly for a leap year.
proof fn lemma_leap_step(y: int)
    requires
        y >= 0,
    ensures
        leap_years_before(y + 1) == leap_years_before(y) + if is_leap_year(y) {
            1int
        } else {
            0int
        },
{
    if y == 0 {
    } else {
        lemma_div_step(y, 4);
        lemma_div_step(y, 100);
        lemma_div_step(y, 400);
        if y % 400 == 0 {
            lemma_mod_zero_factor(y, 400, 100, 4);
            lemma_mod_zero_factor(y, 400, 4, 100);
        }
        if y % 100 == 0 {
            lemma_mod_zero_factor(y, 100, 4, 25);
        }
    }
}

/// Days before a later month are never fewer.
proof fn lemma_days_before_month_monotone(year: int, m1: int, m2: int)
    requires
        1 <= m1 <= m2 <= 13,
    ensures
        days_before_month(year, m1) <= days_before_month(year, m2),
    decreases m2,
{
    if m1 < m2 {
        lemma_days_before_month_monotone(year, m1, m2 - 1);
    }
}

/// A year holds 365 days, or 366 in a leap year.
proof fn lemma_days_in_year(year: int)
    ensures
        days_before_month(year, 13) == 365 + if is_leap_year(year) {
            1int
        } else {
            0int
        },
{
    let ghost leap_day: int = if is_leap_year(year) {
        1int
    } else {
        0int
    };
    assert(days_before_month(year, 1) == 0);
    assert(days_before_month(year, 2) == 31);
    assert(days_before_month(year, 3) == 59 + leap_day);
    assert(days_before_month(year, 4) == 90 + leap_day);
    assert(days_before_month(year, 5) == 120 + leap_day);
    assert(days_before_month(year, 6) == 151 + leap_day);
    assert(days_before_month(year, 7) == 181 + leap_day);
    assert(days_before_month(year, 8) == 212 + leap_day);
    assert(days_before_month(year, 9) == 243 + leap_day);
    assert(days_before_month(year, 10) == 273 + leap_day);
    assert(days_before_month(year, 11) == 304 + leap_day);
    assert(days_before_month(year, 12) == 334 + leap_day);
    assert(days_before_month(year, 13) == 365 + leap_day);
}

/// January 1 of the next year comes right after December 31.
proof fn lemma_day_number_next_year(y: int)
    requires
        y >= 0,
    ensures
        365 * (y + 1) + leap_years_before(y + 1) == 365 * y + leap_years_before(y)
            + days_before_month(y, 13),
{
    lemma_leap_step(y);
    lemma_days_in_year(y);
}

/// The base day number of a year never decreases with the year.
proof fn lemma_year_base_monotone(y1: int, y2: int)
    requires
        0 <= y1 <= y2,
    ensures
        365 * y1 + leap_years_before(y1) <= 365 * y2 + leap_years_before(y2),
    decreases y2 - y1,
{
    if y1 < y2 {
        lemma_year_base_monotone(y1, y2 - 1);
        lemma_leap_step(y2 - 1);
    }
}

/// Day numbers respect the calendar order of dates.
proof fn lemma_day_number_monotone(a: Date, b: Date)
    requires
        date_valid(a),
        date_valid(b),
        date_lt(a, b),
    ensures
        day_number(a) < day_number(b),
{
    if a.year == b.year {
        if a.month == b.month {
        } else {
            lemma_days_before_month_monotone(a.year as int, a.month + 1, b.month as int);
        }
    } else {
        lemma_days_before_month_monotone(a.year as int, a.month + 1, 13);
        lemma_day_number_next_year(a.year as int);
        lemma_year_base_monotone(a.year + 1, b.year as int);
        lemma_days_before_month_monotone(b.year as int, 1, b.month as int);
    }
}

/// Total minutes respect the order of instants.
proof fn lemma_total_minutes_monotone(a: Instant, b: Instant)
    requires
        instant_valid(a),
        instant_valid(b),
        instant_le(a, b),
    ensures
        total_minutes(a) <= total_minutes(b),
{
    if a.date == b.date {
    } else if date_lt(a.date, b.date) {
        lemma_day_number_monotone(a.date, b.date);
    }
}

/// The length of the span between two ordered instants, in whole minutes.
pub fn duration_minutes(start: Instant, end: Instant) -> (r: u64)
    requires
        instant_valid(start),
        instant_valid(end),
        instant_le(start, end),
    ensures
        r == total_minutes(end) - total_minutes(start),
{
    let s = total_minutes_of(start);
    let e = total_minutes_of(end);
    proof {
        lemma_total_minutes_monotone(start, end);
    }
    e - s
}

/// Checks that an appointment's end does not fall before its start.
///
/// Fails exactly when `end` is strictly before `start`; equal instants are
/// permitted, so zero-duration appointments are legal.
pub fn validate_range(start: Instant, end: Instant) -> (r: Result<(), ValidationError>)
    ensures
        r is Ok <==> instant_le(start, end),
        r is Err ==> r->Err_0 == ValidationError::EndBeforeStart,
{
    if end.before(&start) {
        Err(ValidationError::EndBeforeStart)
    } else {
        Ok(())
    }
}

} // verus!
