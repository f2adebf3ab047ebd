//! Calendar dates of the proleptic Gregorian calendar, as chrono's
//! `NaiveDate` represents them, held as plain year, month and day.

use chrono::Datelike;
use vstd::prelude::*;

use crate::text::{
    chars_le, decimal, digit_char, lemma_chars_le_common_prefix, lemma_chars_le_prefix_decides,
};

verus! {

/// The earliest year `chrono::NaiveDate` represents.
pub const MIN_YEAR: i32 = -262143;

/// The latest year `chrono::NaiveDate` represents.
pub const MAX_YEAR: i32 = 262142;

/// Gregorian leap years (`%` is Euclidean here, as `rem_euclid` is).
pub open spec fn is_leap_year(y: int) -> bool {
    (y % 4 == 0 && y % 100 != 0) || y % 400 == 0
}

/// The number of days of month `m` of year `y`.
pub open spec fn days_in_month(y: int, m: int) -> int {
    if m == 2 {
        if is_leap_year(y) {
            29
        } else {
            28
        }
    } else if m == 4 || m == 6 || m == 9 || m == 11 {
        30
    } else {
        31
    }
}

/// A calendar date in chrono's range, as (year, month, day).
pub open spec fn is_valid_ymd(d: (int, int, int)) -> bool {
    &&& MIN_YEAR <= d.0 <= MAX_YEAR
    &&& 1 <= d.1 <= 12
    &&& 1 <= d.2 <= days_in_month(d.0, d.1)
}

/// The calendar day before `d`; `None` for the first day chrono represents.
pub open spec fn day_before(d: (int, int, int)) -> Option<(int, int, int)> {
    if d.2 > 1 {
        Some((d.0, d.1, d.2 - 1))
    } else if d.1 > 1 {
        Some((d.0, d.1 - 1, days_in_month(d.0, d.1 - 1)))
    } else if d.0 > MIN_YEAR {
        Some((d.0 - 1, 12, 31))
    } else {
        None
    }
}

/// The calendar day after `d`; `None` for the last day chrono represents.
pub open spec fn day_after(d: (int, int, int)) -> Option<(int, int, int)> {
    if d.2 < days_in_month(d.0, d.1) {
        Some((d.0, d.1, d.2 + 1))
    } else if d.1 < 12 {
        Some((d.0, d.1 + 1, 1))
    } else if d.0 < MAX_YEAR {
        Some((d.0 + 1, 1, 1))
    } else {
        None
    }
}

/// The decimal rendering of `n`, with zeros in front up to `width` digits.
pub open spec fn zero_padded(n: nat, width: nat) -> Seq<char> {
    let digits = decimal(n);
    if digits.len() < width {
        Seq::new((width - digits.len()) as nat, |i: int| '0') + digits
    } else {
        digits
    }
}

/// chrono's `%Y`: the year zero-padded to four digits, with a sign in front
/// for years before 0 or after 9999.
pub open spec fn year_text(y: int) -> Seq<char> {
    if 0 <= y <= 9999 {
        zero_padded(y as nat, 4)
    } else if y < 0 {
        seq!['-'] + zero_padded((-y) as nat, 4)
    } else {
        seq!['+'] + zero_padded(y as nat, 4)
    }
}

/// chrono's `%Y-%m-%d` rendering of a date.
pub open spec fn ymd_text(d: (int, int, int)) -> Seq<char> {
    year_text(d.0) + seq!['-'] + zero_padded(d.1 as nat, 2) + seq!['-'] + zero_padded(
        d.2 as nat,
        2,
    )
}

/// Calls `chrono::NaiveDate::from_ymd_opt` and reports whether it gives a
/// date. By chrono's source it does exactly for the days of the proleptic
/// Gregorian calendar in years `MIN_YEAR..=MAX_YEAR`.
#[verifier::external_body]
fn chrono_date_exists(year: i32, month: u32, day: u32) -> (r: bool)
    ensures
        r == is_valid_ymd((year as int, month as int, day as int)),
{
    chrono::NaiveDate::from_ymd_opt(year, month, day).is_some()
}

/// Calls `chrono::NaiveDate::pred_opt` on the given date: the previous
/// calendar day, or `None` on the first representable date.
#[verifier::external_body]
fn chrono_pred(year: i32, month: u32, day: u32) -> (r: Option<(i32, u32, u32)>)
    requires
        is_valid_ymd((year as int, month as int, day as int)),
    ensures
        match r {
            Some(t) => day_before((year as int, month as int, day as int)) == Some(
                (t.0 as int, t.1 as int, t.2 as int),
            ),
            None => day_before((year as int, month as int, day as int)) is None,
        },
{
    match chrono::NaiveDate::from_ymd_opt(year, month, day).unwrap().pred_opt() {
        Some(p) => Some((p.year(), p.month(), p.day())),
        None => None,
    }
}

/// Calls `chrono::NaiveDate::succ_opt` on the given date: the next calendar
/// day, or `None` on the last representable date.
#[verifier::external_body]
fn chrono_succ(year: i32, month: u32, day: u32) -> (r: Option<(i32, u32, u32)>)
    requires
        is_valid_ymd((year as int, month as int, day as int)),
    ensures
        match r {
            Some(t) => day_after((year as int, month as int, day as int)) == Some(
                (t.0 as int, t.1 as int, t.2 as int),
            ),
            None => day_after((year as int, month as int, day as int)) is None,
        },
{
    match chrono::NaiveDate::from_ymd_opt(year, month, day).unwrap().succ_opt() {
        Some(p) => Some((p.year(), p.month(), p.day())),
        None => None,
    }
}

/// Calls chrono's `format("%Y-%m-%d")` on the given date and renders it.
/// chrono writes the year zero-padded to four digits (signed outside
/// `0..=9999`), then the month and the day as two digits each.
#[verifier::external_body]
fn chrono_ymd_text(year: i32, month: u32, day: u32) -> (r: String)
    requires
        is_valid_ymd((year as int, month as int, day as int)),
    ensures
        r@ == ymd_text((year as int, month as int, day as int)),
{
    chrono::NaiveDate::from_ymd_opt(year, month, day).unwrap().format("%Y-%m-%d").to_string()
}

/// A calendar date (what the library knows of a `chrono::NaiveDate`).
///
/// Every `Date` is valid: every method, the getters included, states
/// `is_valid_ymd` of it, which is how callers learn it for the laws on dates
/// (a lemma over a ghost `Date` could not say it: only run-time values keep
/// the invariant).
#[derive(Debug, Clone, Copy, PartialEq, Eq)]
pub struct Date {
    year: i32,
    month: u32,
    day: u32,
}

impl View for Date {
    type V = (int, int, int);

    closed spec fn view(&self) -> (int, int, int) {
        (self.year as int, self.month as int, self.day as int)
    }
}

impl Date {
    #[verifier::type_invariant]
    closed spec fn well_formed(self) -> bool {
        is_valid_ymd(self@)
    }

    /// The date of the given year, month and day, if there is one in
    /// chrono's range.
    pub fn from_ymd_opt(year: i32, month: u32, day: u32) -> (r: Option<Date>)
        ensures
            r is Some <==> is_valid_ymd((year as int, month as int, day as int)),
            r matches Some(d) ==> d@ == (year as int, month as int, day as int),
    {
        if chrono_date_exists(year, month, day) {
            Some(Date { year, month, day })
        } else {
            None
        }
    }

    /// The year.
    pub fn year(&self) -> (r: i32)
        ensures
            r as int == self@.0,
            is_valid_ymd(self@),
    {
        proof {
            use_type_invariant(self);
        }
        self.year
    }

    /// The month, `1..=12`.
    pub fn month(&self) -> (r: u32)
        ensures
            r as int == self@.1,
            is_valid_ymd(self@),
    {
        proof {
            use_type_invariant(self);
        }
        self.month
    }

    /// The day of the month.
    pub fn day(&self) -> (r: u32)
        ensures
            r as int == self@.2,
            is_valid_ymd(self@),
    {
        proof {
            use_type_invariant(self);
        }
        self.day
    }

    /// The previous calendar day, if chrono represents it.
    pub fn pred_opt(&self) -> (r: Option<Date>)
        ensures
            is_valid_ymd(self@),
            match r {
                Some(p) => day_before(self@) == Some(p@),
                None => day_before(self@) is None,
            },
    {
        proof {
            use_type_invariant(self);
        }
        match chrono_pred(self.year, self.month, self.day) {
            Some((y, m, d)) => {
                proof {
                    lemma_neighbours_valid(self@);
                }
                Some(Date { year: y, month: m, day: d })
            },
            None => None,
        }
    }

    /// The next calendar day, if chrono represents it.
    pub fn succ_opt(&self) -> (r: Option<Date>)
        ensures
            is_valid_ymd(self@),
            match r {
                Some(p) => day_after(self@) == Some(p@),
                None => day_after(self@) is None,
            },
    {
        proof {
            use_type_invariant(self);
        }
        match chrono_succ(self.year, self.month, self.day) {
            Some((y, m, d)) => {
                proof {
                    lemma_neighbours_valid(self@);
                }
                Some(Date { year: y, month: m, day: d })
            },
            None => None,
        }
    }

    /// The date as `YYYY-MM-DD` (chrono's `%Y-%m-%d`).
    pub fn format_ymd(&self) -> (r: String)
        ensures
            r@ == ymd_text(self@),
            is_valid_ymd(self@),
    {
        proof {
            use_type_invariant(self);
        }
        chrono_ymd_text(self.year, self.month, self.day)
    }
}

/// The neighbours of a valid date are valid dates.
pub proof fn lemma_neighbours_valid(d: (int, int, int))
    requires
        is_valid_ymd(d),
    ensures
        day_before(d) matches Some(p) ==> is_valid_ymd(p),
        day_after(d) matches Some(n) ==> is_valid_ymd(n),
{
}


/// Days of the years `0..y` (for `y >= 0`).
pub open spec fn days_before_year(y: int) -> int {
    365 * y + (y + 3) / 4 - (y + 99) / 100 + (y + 399) / 400
}

/// Days of the months before month `m` of year `y`.
pub open spec fn days_before_month(y: int, m: int) -> int
    decreases m,
{
    if m <= 1 {
        0
    } else {
        days_before_month(y, m - 1) + days_in_month(y, m - 1)
    }
}

/// The number of days from 0000-01-01 to the date `d`.
pub open spec fn day_index(d: (int, int, int)) -> int {
    days_before_year(d.0) + days_before_month(d.0, d.1) + d.2 - 1
}

/// Calendar order of dates: `a` comes before `b`.
pub open spec fn date_before(a: (int, int, int), b: (int, int, int)) -> bool {
    a.0 < b.0 || (a.0 == b.0 && (a.1 < b.1 || (a.1 == b.1 && a.2 < b.2)))
}

/// Thirty days have September, April, June and November; February has 29
/// in years divisible by 4 but not by 100, or by 400, else 28; the other
/// months have 31.
pub proof fn law_month_lengths(y: int)
    ensures
        days_in_month(y, 1) == 31,
        days_in_month(y, 2) == (if (y % 4 == 0 && y % 100 != 0) || y % 400 == 0 {
            29int
        } else {
            28int
        }),
        days_in_month(y, 3) == 31,
        days_in_month(y, 4) == 30,
        days_in_month(y, 5) == 31,
        days_in_month(y, 6) == 30,
        days_in_month(y, 7) == 31,
        days_in_month(y, 8) == 31,
        days_in_month(y, 9) == 30,
        days_in_month(y, 10) == 31,
        days_in_month(y, 11) == 30,
        days_in_month(y, 12) == 31,
{
}

/// A year has 366 days if it is a leap year, else 365.
pub proof fn lemma_year_length(y: int)
    ensures
        days_before_year(y + 1) == days_before_year(y) + (if is_leap_year(y) {
            366int
        } else {
            365int
        }),
{
    let q4 = y / 4;
    let q100 = y / 100;
    let q400 = y / 400;
    assert((y + 4) / 4 - (y + 3) / 4 == (if y % 4 == 0 { 1int } else { 0int }));
    assert((y + 100) / 100 - (y + 99) / 100 == (if y % 100 == 0 { 1int } else { 0int }));
    assert((y + 400) / 400 - (y + 399) / 400 == (if y % 400 == 0 { 1int } else { 0int }));
}

/// The months before December and December itself fill the year; the days
/// before a month are not negative and grow with the month.
pub proof fn lemma_months_fill_year(y: int, m: int)
    requires
        1 <= m <= 12,
    ensures
        0 <= days_before_month(y, m),
        days_before_month(y, m) + days_in_month(y, m) <= days_before_month(y, 12) + 31,
        days_before_month(y, 12) + 31 == (if is_leap_year(y) {
            366int
        } else {
            365int
        }),
    decreases 12 - m,
{
    reveal_with_fuel(days_before_month, 12);
    if m < 12 {
        lemma_months_fill_year(y, m + 1);
    }
    if m > 1 {
        lemma_months_nonnegative(y, m);
    }
}

/// The days before a month are not negative.
proof fn lemma_months_nonnegative(y: int, m: int)
    ensures
        0 <= days_before_month(y, m),
    decreases m,
{
    if m > 1 {
        lemma_months_nonnegative(y, m - 1);
    }
}

/// Earlier months start earlier.
proof fn lemma_months_increase(y: int, m1: int, m2: int)
    requires
        1 <= m1 < m2 <= 12,
    ensures
        days_before_month(y, m1) + days_in_month(y, m1) <= days_before_month(y, m2),
    decreases m2 - m1,
{
    if m2 > m1 + 1 {
        lemma_months_increase(y, m1, m2 - 1);
    }
}

/// Later years start later.
pub proof fn lemma_years_increase(a: int, b: int)
    requires
        0 <= a <= b,
    ensures
        days_before_year(a) <= days_before_year(b),
    decreases b - a,
{
    if a < b {
        lemma_years_increase(a, b - 1);
        lemma_year_length(b - 1);
    }
}

/// The next day of a date is one day further from 0000-01-01.
pub proof fn lemma_day_after_index(d: (int, int, int))
    requires
        is_valid_ymd(d),
        day_after(d) is Some,
    ensures
        is_valid_ymd(day_after(d)->0),
        day_index(day_after(d)->0) == day_index(d) + 1,
{
    lemma_neighbours_valid(d);
    lemma_months_fill_year(d.0, d.1);
    if d.2 == days_in_month(d.0, d.1) && d.1 == 12 {
        lemma_year_length(d.0);
    }
}

/// Dates in calendar order lie in that order from 0000-01-01.
pub proof fn lemma_index_follows_calendar(a: (int, int, int), b: (int, int, int))
    requires
        is_valid_ymd(a),
        is_valid_ymd(b),
        a.0 >= 0,
        date_before(a, b),
    ensures
        day_index(a) < day_index(b),
{
    lemma_months_fill_year(a.0, a.1);
    lemma_months_nonnegative(b.0, b.1);
    if a.0 < b.0 {
        lemma_year_length(a.0);
        lemma_years_increase(a.0 + 1, b.0);
    } else if a.1 < b.1 {
        lemma_months_increase(a.0, a.1, b.1);
    }
}


/// Two zero-padded digits of a number below 100.
pub proof fn lemma_two_digits(n: int)
    requires
        0 <= n < 100,
    ensures
        zero_padded(n as nat, 2) == seq![digit_char((n / 10) as nat), digit_char((n % 10) as nat)],
{
    reveal_with_fuel(decimal, 3);
    if n < 10 {
        assert(zero_padded(n as nat, 2) =~= seq!['0', digit_char(n as nat)]);
    } else {
        assert(decimal(n as nat) =~= seq![digit_char((n / 10) as nat), digit_char((n % 10) as nat)]);
    }
}

/// Four zero-padded digits of a number below 10000.
pub proof fn lemma_four_digits(n: int)
    requires
        0 <= n < 10000,
    ensures
        zero_padded(n as nat, 4) == seq![
            digit_char((n / 1000) as nat),
            digit_char(((n / 100) % 10) as nat),
            digit_char(((n / 10) % 10) as nat),
            digit_char((n % 10) as nat),
        ],
{
    reveal_with_fuel(decimal, 5);
    let d0 = digit_char((n / 1000) as nat);
    let d1 = digit_char(((n / 100) % 10) as nat);
    let d2 = digit_char(((n / 10) % 10) as nat);
    let d3 = digit_char((n % 10) as nat);
    if n < 10 {
        assert(decimal(n as nat) =~= seq![d3]);
        assert(zero_padded(n as nat, 4) =~= seq![d0, d1, d2, d3]);
    } else if n < 100 {
        assert(decimal(n as nat) =~= seq![d2, d3]);
        assert(zero_padded(n as nat, 4) =~= seq![d0, d1, d2, d3]);
    } else if n < 1000 {
        assert(decimal((n / 10) as nat) =~= seq![d1, d2]);
        assert(decimal(n as nat) =~= seq![d1, d2, d3]);
        assert(zero_padded(n as nat, 4) =~= seq![d0, d1, d2, d3]);
    } else {
        assert(decimal((n / 100) as nat) =~= seq![d0, d1]);
        assert(decimal((n / 10) as nat) =~= seq![d0, d1, d2]);
        assert(decimal(n as nat) =~= seq![d0, d1, d2, d3]);
    }
}


/// Two-digit blocks sort as their numbers do.
pub proof fn lemma_two_digits_order(a: int, b: int)
    requires
        0 <= a <= b < 100,
    ensures
        chars_le(zero_padded(a as nat, 2), zero_padded(b as nat, 2)),
        a != b ==> zero_padded(a as nat, 2) != zero_padded(b as nat, 2),
        zero_padded(a as nat, 2).len() == 2,
        zero_padded(b as nat, 2).len() == 2,
{
    lemma_two_digits(a);
    lemma_two_digits(b);
    reveal_with_fuel(chars_le, 3);
    let za = zero_padded(a as nat, 2);
    let zb = zero_padded(b as nat, 2);
    assert(za.skip(1) =~= seq![za[1]]);
    assert(zb.skip(1) =~= seq![zb[1]]);
    assert(za.skip(1).skip(1) =~= Seq::<char>::empty());
    if a != b {
        if a / 10 == b / 10 {
            assert(za[1] != zb[1]);
        } else {
            assert(za[0] != zb[0]);
        }
    }
}

/// Four-digit blocks sort as their numbers do.
pub proof fn lemma_four_digits_order(a: int, b: int)
    requires
        0 <= a <= b < 10000,
    ensures
        chars_le(zero_padded(a as nat, 4), zero_padded(b as nat, 4)),
        a != b ==> zero_padded(a as nat, 4) != zero_padded(b as nat, 4),
        zero_padded(a as nat, 4).len() == 4,
        zero_padded(b as nat, 4).len() == 4,
{
    lemma_four_digits_split(a);
    lemma_four_digits_split(b);
    let (ha, la, hb, lb) = (a / 100, a % 100, b / 100, b % 100);
    lemma_two_digits_order(ha, hb);
    lemma_two_digits(la);
    lemma_two_digits(lb);
    if ha == hb {
        lemma_two_digits_order(la, lb);
        lemma_chars_le_common_prefix(
            zero_padded(ha as nat, 2),
            zero_padded(la as nat, 2),
            zero_padded(lb as nat, 2),
        );
        if a != b {
            let za = zero_padded(a as nat, 4);
            let zb = zero_padded(b as nat, 4);
            assert(za.skip(2) =~= zero_padded(la as nat, 2));
            assert(zb.skip(2) =~= zero_padded(lb as nat, 2));
        }
    } else {
        lemma_chars_le_prefix_decides(
            zero_padded(ha as nat, 2),
            zero_padded(hb as nat, 2),
            zero_padded(la as nat, 2),
            zero_padded(lb as nat, 2),
        );
        let za = zero_padded(a as nat, 4);
        let zb = zero_padded(b as nat, 4);
        assert(za.take(2) =~= zero_padded(ha as nat, 2));
        assert(zb.take(2) =~= zero_padded(hb as nat, 2));
    }
}

/// Four zero-padded digits are the two digits of the hundreds, then those of
/// the rest.
proof fn lemma_four_digits_split(n: int)
    requires
        0 <= n < 10000,
    ensures
        zero_padded(n as nat, 4) == zero_padded((n / 100) as nat, 2) + zero_padded(
            (n % 100) as nat,
            2,
        ),
{
    lemma_four_digits(n);
    lemma_two_digits(n / 100);
    lemma_two_digits(n % 100);
    assert((n / 100) / 10 == n / 1000);
    assert((n % 100) / 10 == (n / 10) % 10);
    assert(zero_padded(n as nat, 4) =~= zero_padded((n / 100) as nat, 2) + zero_padded(
        (n % 100) as nat,
        2,
    ));
}


/// The previous day of a date is a valid date one day nearer to 0000-01-01,
/// and the day after it is the date again.
pub proof fn lemma_day_before_index(d: (int, int, int))
    requires
        is_valid_ymd(d),
        day_before(d) is Some,
    ensures
        is_valid_ymd(day_before(d)->0),
        day_after(day_before(d)->0) == Some(d),
        day_index(day_before(d)->0) + 1 == day_index(d),
{
    lemma_neighbours_valid(d);
    let p = day_before(d)->0;
    assert(day_after(p) == Some(d));
    lemma_day_after_index(p);
}

} // verus!
