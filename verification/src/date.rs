//! Calendar-day model: proleptic Gregorian dates in the years 0..=9999,
//! addressed either as year/month/day or as a day index counted from
//! 0000-01-01 (day 0).

use vstd::prelude::*;

use crate::digits::dec_chars;
use crate::digits::digit_val;
use crate::digits::is_digit;
use crate::digits::u64_to_string;

verus! {

/// Day index of the last supported day, 9999-12-31.
pub open spec fn max_day_index() -> int {
    days_before_year(10000) - 1
}

/// Gregorian leap-year rule.
pub open spec fn is_leap_year(y: int) -> bool {
    (y % 4 == 0 && y % 100 != 0) || y % 400 == 0
}

/// Number of days in month `m` (1-based) of year `y`.
pub open spec fn days_in_month(y: int, m: int) -> int {
    if m == 2 {
        if is_leap_year(y) {
            29
        } else {
            28
        }
    } else if m == 4 || m == 6 || m == 9 || m == 11 {
        30
    } else {
        31
    }
}

pub open spec fn days_in_year(y: int) -> int {
    if is_leap_year(y) {
        366
    } else {
        365
    }
}

/// Days from 0000-01-01 to the first day of year `y`.
pub open spec fn days_before_year(y: int) -> int
    decreases y,
{
    if y <= 0 {
        0
    } else {
        days_before_year(y - 1) + days_in_year(y - 1)
    }
}

/// Days from the first day of year `y` to the first day of its month `m`.
pub open spec fn days_before_month(y: int, m: int) -> int
    decreases m,
{
    if m <= 1 {
        0
    } else {
        days_before_month(y, m - 1) + days_in_month(y, m - 1)
    }
}

/// The index of the calendar day `y-m-d`, counted from 0000-01-01 as day 0.
pub open spec fn day_index(y: int, m: int, d: int) -> int {
    days_before_year(y) + days_before_month(y, m) + (d - 1)
}

/// A well-formed calendar date within the supported span.
pub open spec fn valid_ymd(y: int, m: int, d: int) -> bool {
    0 <= y <= 9999 && 1 <= m <= 12 && 1 <= d <= days_in_month(y, m)
}

/// A calendar day, with no time-of-day component.
#[derive(Clone, Copy, Debug, PartialEq, Eq, Structural)]
pub struct Date {
    pub year: i64,
    pub month: u8,
    pub day: u8,
}

impl Date {
    pub open spec fn wf(self) -> bool {
        valid_ymd(self.year as int, self.month as int, self.day as int)
    }

    /// The date's day index from 0000-01-01.
    pub open spec fn index(self) -> int {
        day_index(self.year as int, self.month as int, self.day as int)
    }
}

pub proof fn lemma_days_before_year_bounds(y: int)
    requires
        0 <= y,
    ensures
        365 * y <= days_before_year(y) <= 366 * y,
    decreases y,
{
    if y > 0 {
        lemma_days_before_year_bounds(y - 1);
    }
}

pub proof fn lemma_days_before_year_mono(y1: int, y2: int)
    requires
        0 <= y1 <= y2,
    ensures
        days_before_year(y1) + 365 * (y2 - y1) <= days_before_year(y2),
    decreases y2 - y1,
{
    if y1 < y2 {
        lemma_days_before_year_mono(y1, y2 - 1);
    }
}

pub proof fn lemma_days_before_month_mono(y: int, m1: int, m2: int)
    requires
        1 <= m1 <= m2 <= 13,
    ensures
        days_before_month(y, m1) + 28 * (m2 - m1) <= days_before_month(y, m2),
    decreases m2 - m1,
{
    if m1 < m2 {
        lemma_days_before_month_mono(y, m1, m2 - 1);
    }
}

/// A year's days are exactly the days of its twelve months.
pub proof fn lemma_year_is_twelve_months(y: int)
    ensures
        days_before_month(y, 13) == days_in_year(y),
{
    reveal_with_fuel(days_before_month, 13);
}

/// Exec mirror of `is_leap_year`.
pub fn leap_year(y: i64) -> (r: bool)
    requires
        0 <= y,
    ensures
        r == is_leap_year(y as int),
{
    (y % 4 == 0 && y % 100 != 0) || y % 400 == 0
}

/// Exec mirror of `days_in_month`.
pub fn month_length(y: i64, m: u8) -> (r: u8)
    requires
        0 <= y,
    ensures
        r == days_in_month(y as int, m as int),
{
    if m == 2 {
        if leap_year(y) {
            29
        } else {
            28
        }
    } else if m == 4 || m == 6 || m == 9 || m == 11 {
        30
    } else {
        31
    }
}

/// Builds a `Date` from its parts, exactly when they form a supported
/// calendar date.
pub fn date_from_ymd(y: i64, m: i64, d: i64) -> (r: Option<Date>)
    ensures
        r is Some <==> valid_ymd(y as int, m as int, d as int),
        r matches Some(dt) ==> dt == (Date { year: y, month: m as u8, day: d as u8 }) && dt.wf(),
{
    if 0 <= y && y <= 9999 && 1 <= m && m <= 12 && 1 <= d && d <= month_length(y, m as u8) as i64 {
        Some(Date { year: y, month: m as u8, day: d as u8 })
    } else {
        None
    }
}

/// Exec mirror of `days_before_year`.
fn year_start_index(y: i64) -> (r: i64)
    requires
        0 <= y <= 10000,
    ensures
        r == days_before_year(y as int),
{
    let mut acc: i64 = 0;
    let mut i: i64 = 0;
    while i < y
        invariant
            0 <= i <= y <= 10000,
            acc == days_before_year(i as int),
        decreases y - i,
    {
        proof {
            lemma_days_before_year_bounds(i as int);
        }
        acc = acc + if leap_year(i) { 366 } else { 365 };
        i = i + 1;
    }
    acc
}

/// Exec mirror of `days_before_month`.
fn month_start_index(y: i64, m: u8) -> (r: i64)
    requires
        0 <= y,
        1 <= m <= 13,
    ensures
        r == days_before_month(y as int, m as int),
{
    let mut acc: i64 = 0;
    let mut i: u8 = 1;
    while i < m
        invariant
            1 <= i <= m <= 13,
            0 <= y,
            acc == days_before_month(y as int, i as int),
        decreases m - i,
    {
        proof {
            lemma_days_before_month_mono(y as int, 1, i as int);
            lemma_days_before_month_mono(y as int, i as int, 13 as int);
            assert(days_before_month(y as int, 13) <= 366) by {
                lemma_year_is_twelve_months(y as int);
            }
        }
        acc = acc + month_length(y, i) as i64;
        i = i + 1;
    }
    acc
}

impl Date {
    /// Exec mirror of `wf`.
    pub fn is_valid(&self) -> (b: bool)
        ensures
            b == self.wf(),
    {
        0 <= self.year && self.year <= 9999 && 1 <= self.month && self.month <= 12 && 1 <= self.day
            && self.day <= month_length(self.year, self.month)
    }

    /// The date's day index, as a machine integer.
    pub fn day_number(&self) -> (n: i64)
        requires
            self.wf(),
        ensures
            n == self.index(),
            0 <= n <= max_day_index(),
    {
        proof {
            lemma_index_range(*self);
            lemma_days_before_year_bounds(self.year as int);
            lemma_days_before_month_mono(self.year as int, 1, self.month as int);
            lemma_days_before_month_mono(self.year as int, self.month as int, 13);
            lemma_year_is_twelve_months(self.year as int);
        }
        year_start_index(self.year) + month_start_index(self.year, self.month)
            + (self.day as i64 - 1)
    }
}

/// Every supported date's index lies between day 0 and the last supported
/// day's index.
pub proof fn lemma_index_range(dt: Date)
    requires
        dt.wf(),
    ensures
        0 <= dt.index() <= max_day_index(),
{
    let y = dt.year as int;
    let m = dt.month as int;
    let d = dt.day as int;
    lemma_days_before_year_bounds(y);
    lemma_days_before_year_bounds(10000);
    lemma_days_before_month_mono(y, 1, m);
    lemma_days_before_month_mono(y, m + 1, 13);
    lemma_year_is_twelve_months(y);
    assert(days_before_month(y, m + 1) == days_before_month(y, m) + days_in_month(y, m));
    assert(days_before_year(y + 1) == days_before_year(y) + days_in_year(y));
    lemma_days_before_year_mono(y + 1, 10000);
}

/// Largest supported day index, as a machine integer.
pub fn max_day_number() -> (n: i64)
    ensures
        n == max_day_index(),
{
    proof {
        lemma_days_before_year_bounds(10000);
    }
    year_start_index(10000) - 1
}

/// Earlier calendar dates have strictly smaller day indexes.
pub proof fn lemma_day_index_lt(y1: int, m1: int, d1: int, y2: int, m2: int, d2: int)
    requires
        valid_ymd(y1, m1, d1),
        valid_ymd(y2, m2, d2),
        y1 < y2 || (y1 == y2 && m1 < m2) || (y1 == y2 && m1 == m2 && d1 < d2),
    ensures
        day_index(y1, m1, d1) < day_index(y2, m2, d2),
{
    if y1 == y2 && m1 == m2 {
    } else if y1 == y2 {
        assert(days_before_month(y1, m1 + 1) == days_before_month(y1, m1) + days_in_month(
            y1,
            m1,
        ));
        lemma_days_before_month_mono(y1, m1 + 1, m2);
    } else {
        assert(days_before_month(y1, m1 + 1) == days_before_month(y1, m1) + days_in_month(
            y1,
            m1,
        ));
        lemma_days_before_month_mono(y1, m1 + 1, 13);
        lemma_year_is_twelve_months(y1);
        assert(days_before_year(y1 + 1) == days_before_year(y1) + days_in_year(y1));
        lemma_days_before_year_mono(y1 + 1, y2);
        lemma_days_before_month_mono(y2, 1, m2);
    }
}

/// A day index names at most one calendar date.
pub proof fn lemma_day_index_injective(d1: Date, d2: Date)
    requires
        d1.wf(),
        d2.wf(),
        d1.index() == d2.index(),
    ensures
        d1 == d2,
{
    let (y1, m1, dd1) = (d1.year as int, d1.month as int, d1.day as int);
    let (y2, m2, dd2) = (d2.year as int, d2.month as int, d2.day as int);
    if y1 < y2 || (y1 == y2 && m1 < m2) || (y1 == y2 && m1 == m2 && dd1 < dd2) {
        lemma_day_index_lt(y1, m1, dd1, y2, m2, dd2);
    } else if y2 < y1 || (y2 == y1 && m2 < m1) || (y2 == y1 && m2 == m1 && dd2 < dd1) {
        lemma_day_index_lt(y2, m2, dd2, y1, m1, dd1);
    }
}

/// The unique date carrying a given day index.
pub open spec fn date_of_index(n: int) -> Date {
    choose|d: Date| d.wf() && d.index() == n
}

/// Computes the date with the given day index.
pub fn from_day_number(n: i64) -> (r: Date)
    requires
        0 <= n <= max_day_index(),
    ensures
        r.wf(),
        r.index() == n,
        r == date_of_index(n as int),
{
    let mut y: i64 = 0;
    let mut rem: i64 = n;
    let mut ylen: i64 = if leap_year(0) {
        366
    } else {
        365
    };
    while rem >= ylen
        invariant
            0 <= y <= 9999,
            0 <= rem,
            days_before_year(y as int) + rem == n,
            n <= max_day_index(),
            ylen == days_in_year(y as int),
        decreases 10000 - y,
    {
        proof {
            assert(days_before_year(y as int + 1) == days_before_year(y as int) + days_in_year(
                y as int,
            ));
            if y == 9999 {
                assert(days_before_year(10000) <= n);
                assert(false);
            }
        }
        rem = rem - ylen;
        y = y + 1;
        ylen = if leap_year(y) {
            366
        } else {
            365
        };
    }
    let ghost yy = y as int;
    proof {
        lemma_year_is_twelve_months(yy);
    }
    let mut m: u8 = 1;
    let mut mlen: u8 = month_length(y, 1);
    while rem >= mlen as i64
        invariant
            1 <= m <= 12,
            0 <= y <= 9999,
            yy == y as int,
            0 <= rem,
            days_before_year(yy) + days_before_month(yy, m as int) + rem == n,
            days_before_month(yy, m as int) + rem < days_in_year(yy),
            mlen == days_in_month(yy, m as int),
        decreases 12 - m,
    {
        proof {
            assert(days_before_month(yy, m as int + 1) == days_before_month(yy, m as int)
                + days_in_month(yy, m as int));
            if m == 12 {
                lemma_year_is_twelve_months(yy);
                assert(false);
            }
        }
        rem = rem - mlen as i64;
        m = m + 1;
        mlen = month_length(y, m);
    }
    let r = Date { year: y, month: m, day: (rem + 1) as u8 };
    proof {
        assert(r.wf());
        assert(r.index() == n);
        assert(exists|d: Date| d.wf() && d.index() == n as int) by {
            assert(r.wf() && r.index() == n as int);
        }
        let w = date_of_index(n as int);
        assert(w.wf() && w.index() == n);
        lemma_day_index_injective(r, w);
    }
    r
}

/// A well-shaped date token: exactly `YYYY-MM-DD`, all digits in place.
pub open spec fn date_token_ok(s: Seq<u8>) -> bool {
    &&& s.len() == 10
    &&& is_digit(s[0])
    &&& is_digit(s[1])
    &&& is_digit(s[2])
    &&& is_digit(s[3])
    &&& s[4] == 45
    &&& is_digit(s[5])
    &&& is_digit(s[6])
    &&& s[7] == 45
    &&& is_digit(s[8])
    &&& is_digit(s[9])
}

pub open spec fn token_year(s: Seq<u8>) -> int {
    1000 * digit_val(s[0]) + 100 * digit_val(s[1]) + 10 * digit_val(s[2]) + digit_val(s[3])
}

pub open spec fn token_month(s: Seq<u8>) -> int {
    10 * digit_val(s[5]) + digit_val(s[6])
}

pub open spec fn token_day(s: Seq<u8>) -> int {
    10 * digit_val(s[8]) + digit_val(s[9])
}

/// What a fixed-format date read of the token yields: the named calendar
/// day when the token is well shaped and names a real one, otherwise
/// nothing.
pub open spec fn parse_date_spec(s: Seq<u8>) -> Option<Date> {
    if date_token_ok(s) && valid_ymd(token_year(s), token_month(s), token_day(s)) {
        Some(
            Date {
                year: token_year(s) as i64,
                month: token_month(s) as u8,
                day: token_day(s) as u8,
            },
        )
    } else {
        None
    }
}

/// Reads a `YYYY-MM-DD` date token.
pub fn parse_date(s: &Vec<u8>) -> (r: Option<Date>)
    ensures
        r == parse_date_spec(s@),
        r matches Some(d) ==> d.wf(),
{
    if s.len() != 10 {
        return None;
    }
    let b0 = s[0];
    let b1 = s[1];
    let b2 = s[2];
    let b3 = s[3];
    let b5 = s[5];
    let b6 = s[6];
    let b8 = s[8];
    let b9 = s[9];
    if !(48 <= b0 && b0 <= 57 && 48 <= b1 && b1 <= 57 && 48 <= b2 && b2 <= 57 && 48 <= b3 && b3
        <= 57) {
        return None;
    }
    if s[4] != 45 || s[7] != 45 {
        return None;
    }
    if !(48 <= b5 && b5 <= 57 && 48 <= b6 && b6 <= 57 && 48 <= b8 && b8 <= 57 && 48 <= b9 && b9
        <= 57) {
        return None;
    }
    let y = 1000 * (b0 - 48) as i64 + 100 * (b1 - 48) as i64 + 10 * (b2 - 48) as i64 + (b3
        - 48) as i64;
    let m = 10 * (b5 - 48) as i64 + (b6 - 48) as i64;
    let d = 10 * (b8 - 48) as i64 + (b9 - 48) as i64;
    date_from_ymd(y, m, d)
}

/// Relies on `time::OffsetDateTime::now_utc` and its accessors `year`,
/// `month` and `day`: a `time` date is a valid proleptic-Gregorian calendar
/// date whose year lies in -9999..=9999.
#[verifier::external_body]
fn now_ymd() -> (r: (i64, i64, i64))
    ensures
        -9999 <= r.0 <= 9999,
        1 <= r.1 <= 12,
        1 <= r.2 <= days_in_month(r.0 as int, r.1 as int),
{
    let t = time::OffsetDateTime::now_utc();
    (t.year() as i64, u8::from(t.month()) as i64, t.day() as i64)
}

/// The calendar day the system clock shows now, in UTC; nothing when the
/// clock lies before year 0.
pub fn today() -> (r: Option<Date>)
    ensures
        r matches Some(d) ==> d.wf(),
{
    let (y, m, d) = now_ymd();
    date_from_ymd(y, m, d)
}

/// Two-digit zero-padded decimal rendering.
pub open spec fn pad2(n: int) -> Seq<char> {
    if n >= 10 {
        dec_chars(n)
    } else {
        seq!['0'] + dec_chars(n)
    }
}

/// Four-digit zero-padded decimal rendering.
pub open spec fn pad4(n: int) -> Seq<char> {
    if n >= 1000 {
        dec_chars(n)
    } else if n >= 100 {
        seq!['0'] + dec_chars(n)
    } else if n >= 10 {
        seq!['0', '0'] + dec_chars(n)
    } else {
        seq!['0', '0', '0'] + dec_chars(n)
    }
}

/// The `YYYY-MM-DD` rendering of a date.
pub open spec fn date_chars(y: int, m: int, d: int) -> Seq<char> {
    pad4(y) + seq!['-'] + pad2(m) + seq!['-'] + pad2(d)
}

fn pad2_string(n: u64) -> (r: String)
    ensures
        r@ == pad2(n as int),
{
    proof {
        reveal_strlit("0");
        reveal_strlit("");
    }
    let mut r = String::new();
    if n < 10 {
        r.append("0");
    }
    let digits = u64_to_string(n);
    r.append(digits.as_str());
    proof {
        assert(r@ =~= pad2(n as int));
    }
    r
}

fn pad4_string(n: u64) -> (r: String)
    ensures
        r@ == pad4(n as int),
{
    proof {
        reveal_strlit("0");
        reveal_strlit("00");
        reveal_strlit("000");
        reveal_strlit("");
    }
    let mut r = String::new();
    if n < 10 {
        r.append("000");
    } else if n < 100 {
        r.append("00");
    } else if n < 1000 {
        r.append("0");
    }
    let digits = u64_to_string(n);
    r.append(digits.as_str());
    proof {
        assert(r@ =~= pad4(n as int));
    }
    r
}

impl Date {
    /// Renders the date as `YYYY-MM-DD`.
    pub fn format_ymd(&self) -> (r: String)
        requires
            self.wf(),
        ensures
            r@ == date_chars(self.year as int, self.month as int, self.day as int),
    {
        proof {
            reveal_strlit("-");
        }
        let mut r = pad4_string(self.year as u64);
        r.append("-");
        let mm = pad2_string(self.month as u64);
        r.append(mm.as_str());
        r.append("-");
        let dd = pad2_string(self.day as u64);
        r.append(dd.as_str());
        proof {
            assert(r@ =~= date_chars(self.year as int, self.month as int, self.day as int));
        }
        r
    }
}

} // verus!
