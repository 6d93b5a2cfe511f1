//! Proleptic Gregorian calendar dates and their `YYYYMMDD` numbers.
use vstd::prelude::*;
use chrono::{Datelike, NaiveDate, TimeDelta};

verus! {

/// Smallest year that `chrono::NaiveDate` represents.
pub const MIN_YEAR: i32 = -262143;

/// Largest year that `chrono::NaiveDate` represents.
pub const MAX_YEAR: i32 = 262142;

/// A date as (year, month, day).
pub type Ymd = (int, int, int);

pub open spec fn is_leap_year(y: int) -> bool {
    y % 4 == 0 && (y % 100 != 0 || y % 400 == 0)
}

pub open spec fn days_in_month(y: int, m: int) -> int {
    if m == 2 {
        if is_leap_year(y) { 29 } else { 28 }
    } else if m == 4 || m == 6 || m == 9 || m == 11 {
        30
    } else {
        31
    }
}

/// The date exists in the proleptic Gregorian calendar and lies in chrono's range.
pub open spec fn is_valid_ymd(a: Ymd) -> bool {
    &&& MIN_YEAR <= a.0 <= MAX_YEAR
    &&& 1 <= a.1 <= 12
    &&& 1 <= a.2 <= days_in_month(a.0, a.1)
}

/// The last date that chrono represents.
pub open spec fn is_last_date(a: Ymd) -> bool {
    a.0 == MAX_YEAR && a.1 == 12 && a.2 == 31
}

/// The calendar day after `a`.
pub open spec fn successor(a: Ymd) -> Ymd {
    if a.2 < days_in_month(a.0, a.1) {
        (a.0, a.1, a.2 + 1)
    } else if a.1 < 12 {
        (a.0, a.1 + 1, 1)
    } else {
        (a.0 + 1, 1, 1)
    }
}

/// Chronological order: `a` comes strictly before `b`.
pub open spec fn ymd_lt(a: Ymd, b: Ymd) -> bool {
    ||| a.0 < b.0
    ||| a.0 == b.0 && a.1 < b.1
    ||| a.0 == b.0 && a.1 == b.1 && a.2 < b.2
}

pub open spec fn ymd_le(a: Ymd, b: Ymd) -> bool {
    ymd_lt(a, b) || a == b
}

/// The number `YYYYMMDD` written with the digits of the date.
pub open spec fn datenum_of(a: Ymd) -> int {
    a.0 * 10000 + a.1 * 100 + a.2
}

/// `chrono::NaiveDate::from_ymd_opt`: it returns a date exactly when the
/// year, month and day name a day of the proleptic Gregorian calendar whose
/// year lies in chrono's range (`MIN_YEAR..=MAX_YEAR`).
#[verifier::external_body]
fn chrono_date_exists(year: i32, month: u32, day: u32) -> (exists: bool)
    ensures
        exists == is_valid_ymd((year as int, month as int, day as int)),
{
    NaiveDate::from_ymd_opt(year, month, day).is_some()
}

/// `chrono::NaiveDate::checked_add_signed` by `TimeDelta::days(1)`: the
/// following calendar day, or `None` on chrono's last representable date.
#[verifier::external_body]
fn chrono_add_one_day(year: i32, month: u32, day: u32) -> (next: Option<(i32, u32, u32)>)
    requires
        is_valid_ymd((year as int, month as int, day as int)),
    ensures
        match next {
            Some(n) => !is_last_date((year as int, month as int, day as int)) && (
            n.0 as int, n.1 as int, n.2 as int) == successor((year as int, month as int, day as int)),
            None => is_last_date((year as int, month as int, day as int)),
        },
{
    match NaiveDate::from_ymd_opt(year, month, day) {
        Some(date) => match date.checked_add_signed(TimeDelta::days(1)) {
            Some(n) => Some((n.year(), n.month(), n.day())),
            None => None,
        },
        None => None,
    }
}

/// A calendar date that chrono can represent.
#[derive(Clone, Copy, Debug)]
pub struct Date {
    year: i32,
    month: u32,
    day: u32,
}

impl View for Date {
    type V = Ymd;

    closed spec fn view(&self) -> Ymd {
        (self.year as int, self.month as int, self.day as int)
    }
}

impl Date {
    #[verifier::type_invariant]
    pub open spec fn is_valid(self) -> bool {
        is_valid_ymd(self@)
    }

    /// The date with the given year, month and day, if it exists.
    pub fn from_ymd_opt(year: i32, month: u32, day: u32) -> (res: Option<Date>)
        ensures
            res is Some <==> is_valid_ymd((year as int, month as int, day as int)),
            res matches Some(d) ==> d@ == (year as int, month as int, day as int),
    {
        if chrono_date_exists(year, month, day) {
            Some(Date { year, month, day })
        } else {
            None
        }
    }

    pub fn year(&self) -> (y: i32)
        ensures
            y == self@.0,
            is_valid_ymd(self@),
    {
        proof { use_type_invariant(self); }
        self.year
    }

    pub fn month(&self) -> (m: u32)
        ensures
            m == self@.1,
            is_valid_ymd(self@),
    {
        proof { use_type_invariant(self); }
        self.month
    }

    pub fn day(&self) -> (d: u32)
        ensures
            d == self@.2,
            is_valid_ymd(self@),
    {
        proof { use_type_invariant(self); }
        self.day
    }

    /// Whether `self` comes strictly after `other`.
    pub fn is_after(&self, other: &Date) -> (b: bool)
        ensures
            b == ymd_lt(other@, self@),
    {
        self.year > other.year || (self.year == other.year && (self.month > other.month || (
        self.month == other.month && self.day > other.day)))
    }
}

/// The number `YYYYMMDD` of a date in year 0 or later.
pub fn datenum(date: Date) -> (n: u32)
    requires
        date@.0 >= 0,
    ensures
        n == datenum_of(date@),
{
    proof { use_type_invariant(&date); }
    (date.year as u32) * 10000 + date.month * 100 + date.day
}

/// The day after `date`; chrono's last date has none.
pub fn next_day(date: Date) -> (next: Date)
    requires
        !is_last_date(date@),
    ensures
        next@ == successor(date@),
{
    proof { use_type_invariant(&date); }
    match chrono_add_one_day(date.year, date.month, date.day) {
        Some((year, month, day)) => {
            proof { lemma_successor_is_next_date(date@); }
            Date { year, month, day }
        },
        None => {
            proof { assert(false); }
            date
        },
    }
}

/// The calendar successor of a date is a valid date, comes after it, and no
/// valid date lies strictly between the two.
pub proof fn lemma_successor_is_next_date(a: Ymd)
    requires
        is_valid_ymd(a),
        !is_last_date(a),
    ensures
        is_valid_ymd(successor(a)),
        ymd_lt(a, successor(a)),
        forall|c: Ymd| is_valid_ymd(c) && ymd_lt(a, c) ==> ymd_le(successor(a), c),
{
}

/// Chronological order and the order of `YYYYMMDD` numbers agree.
pub proof fn lemma_datenum_strictly_monotone(a: Ymd, b: Ymd)
    requires
        is_valid_ymd(a),
        is_valid_ymd(b),
    ensures
        ymd_lt(a, b) <==> datenum_of(a) < datenum_of(b),
{
}

} // verus!
