//! Plain Gregorian calendar dates: validity, ordering, day-by-day backward
//! stepping, parsing from `YYYY-MM-DD` text and rendering back to it.

use vstd::prelude::*;
use crate::digits::{is_digit, digit_val, padded_digits};

verus! {

/// A proleptic Gregorian calendar date, no time component.
#[derive(Clone, Copy, Debug, PartialEq, Eq, Structural)]
pub struct Date {
    pub year: i32,
    pub month: u8,
    pub day: u8,
}

pub open spec fn is_leap_year(y: int) -> bool {
    y % 4 == 0 && (y % 100 != 0 || y % 400 == 0)
}

pub open spec fn days_in_month(y: int, m: int) -> int {
    if m == 2 {
        if is_leap_year(y) {
            29
        } else {
            28
        }
    } else if m == 4 || m == 6 || m == 9 || m == 11 {
        30
    } else {
        31
    }
}

/// Strict calendar order.
pub open spec fn date_lt(a: Date, b: Date) -> bool {
    ||| a.year < b.year
    ||| (a.year == b.year && a.month < b.month)
    ||| (a.year == b.year && a.month == b.month && a.day < b.day)
}

pub open spec fn date_le(a: Date, b: Date) -> bool {
    a == b || date_lt(a, b)
}

impl Date {
    /// The fields form an existing calendar day.
    pub open spec fn valid(self) -> bool {
        &&& 1 <= self.month <= 12
        &&& 1 <= self.day <= days_in_month(self.year as int, self.month as int)
    }

    /// The calendar day immediately before `self`.
    pub open spec fn prev_spec(self) -> Date {
        if self.day > 1 {
            Date { year: self.year, month: self.month, day: (self.day - 1) as u8 }
        } else if self.month > 1 {
            Date {
                year: self.year,
                month: (self.month - 1) as u8,
                day: days_in_month(self.year as int, self.month as int - 1) as u8,
            }
        } else {
            Date { year: (self.year - 1) as i32, month: 12, day: 31 }
        }
    }

    /// The calendar day `n` days before `self`.
    pub open spec fn minus_days_spec(self, n: nat) -> Date
        decreases n,
    {
        if n == 0 {
            self
        } else {
            self.minus_days_spec((n - 1) as nat).prev_spec()
        }
    }
}

/// Stepping one day back yields an earlier valid date and lowers the year by
/// at most one.
pub proof fn lemma_prev_props(d: Date)
    requires
        d.valid(),
        d.year > i32::MIN,
    ensures
        d.prev_spec().valid(),
        date_lt(d.prev_spec(), d),
        d.prev_spec().year >= d.year - 1,
{
}

/// Stepping `n` days back yields a valid date no later than the start and
/// lowers the year by at most `n`.
pub proof fn lemma_minus_days_props(d: Date, n: nat)
    requires
        d.valid(),
        d.year - n >= i32::MIN,
    ensures
        d.minus_days_spec(n).valid(),
        date_le(d.minus_days_spec(n), d),
        d.minus_days_spec(n).year >= d.year - n,
        n > 0 ==> date_lt(d.minus_days_spec(n), d),
    decreases n,
{
    if n > 0 {
        lemma_minus_days_props(d, (n - 1) as nat);
        lemma_prev_props(d.minus_days_spec((n - 1) as nat));
    }
}

/// Whether `y` is a leap year.
pub fn leap_year(y: i32) -> (r: bool)
    ensures
        r == is_leap_year(y as int),
{
    let z: i64 = (y as i64) + 2_000_000_000_000;
    proof {
        vstd::arithmetic::div_mod::lemma_mod_multiples_vanish(500_000_000_000, y as int, 4);
        vstd::arithmetic::div_mod::lemma_mod_multiples_vanish(20_000_000_000, y as int, 100);
        vstd::arithmetic::div_mod::lemma_mod_multiples_vanish(5_000_000_000, y as int, 400);
    }
    z % 4 == 0 && (z % 100 != 0 || z % 400 == 0)
}

/// Number of days in month `m` of year `y`.
pub fn month_length(y: i32, m: u8) -> (r: u8)
    requires
        1 <= m <= 12,
    ensures
        r == days_in_month(y as int, m as int),
{
    if m == 2 {
        if leap_year(y) {
            29
        } else {
            28
        }
    } else if m == 4 || m == 6 || m == 9 || m == 11 {
        30
    } else {
        31
    }
}

impl Date {
    /// The calendar day immediately before `self`.
    pub fn prev_day(self) -> (r: Date)
        requires
            self.valid(),
            self.year > i32::MIN,
        ensures
            r == self.prev_spec(),
            r.valid(),
            date_lt(r, self),
            r.year >= self.year - 1,
    {
        proof {
            lemma_prev_props(self);
        }
        if self.day > 1 {
            Date { year: self.year, month: self.month, day: self.day - 1 }
        } else if self.month > 1 {
            Date { year: self.year, month: self.month - 1, day: month_length(self.year, self.month - 1) }
        } else {
            Date { year: self.year - 1, month: 12, day: 31 }
        }
    }

    /// The calendar day `n` days before `self`.
    pub fn minus_days(self, n: u64) -> (r: Date)
        requires
            self.valid(),
            self.year - n >= i32::MIN,
        ensures
            r == self.minus_days_spec(n as nat),
            r.valid(),
            date_le(r, self),
    {
        proof {
            lemma_minus_days_props(self, n as nat);
        }
        let mut cur = self;
        let mut i: u64 = 0;
        while i < n
            invariant
                i <= n,
                self.valid(),
                self.year - n >= i32::MIN,
                cur == self.minus_days_spec(i as nat),
                cur.valid(),
                cur.year >= self.year - i,
            decreases n - i,
        {
            proof {
                lemma_minus_days_props(self, (i + 1) as nat);
            }
            cur = cur.prev_day();
            i = i + 1;
        }
        cur
    }

    /// Whether the fields form an existing calendar day.
    pub fn is_valid(self) -> (r: bool)
        ensures
            r == self.valid(),
    {
        1 <= self.month && self.month <= 12 && 1 <= self.day && self.day <= month_length(
            self.year,
            self.month,
        )
    }

    /// Whether `self` is on or before `other` in calendar order.
    pub fn on_or_before(self, other: Date) -> (r: bool)
        ensures
            r == date_le(self, other),
    {
        if self.year != other.year {
            self.year < other.year
        } else if self.month != other.month {
            self.month < other.month
        } else {
            self.day <= other.day
        }
    }
}

/// `YYYY-MM-DD` digit layout at position `j` of `s`: four year digits, a
/// dash, two month digits, a dash, two day digits.
pub open spec fn date_pattern_at(s: Seq<u8>, j: int) -> bool {
    &&& 0 <= j
    &&& j + 10 <= s.len()
    &&& is_digit(s[j]) && is_digit(s[j + 1]) && is_digit(s[j + 2]) && is_digit(s[j + 3])
    &&& s[j + 4] == 45u8
    &&& is_digit(s[j + 5]) && is_digit(s[j + 6])
    &&& s[j + 7] == 45u8
    &&& is_digit(s[j + 8]) && is_digit(s[j + 9])
}

/// The date whose digits stand at position `j` of `s`.
pub open spec fn date_value_at(s: Seq<u8>, j: int) -> Date {
    Date {
        year: (digit_val(s[j]) * 1000 + digit_val(s[j + 1]) * 100 + digit_val(s[j + 2]) * 10
            + digit_val(s[j + 3])) as i32,
        month: (digit_val(s[j + 5]) * 10 + digit_val(s[j + 6])) as u8,
        day: (digit_val(s[j + 8]) * 10 + digit_val(s[j + 9])) as u8,
    }
}

/// What a date string means: a ten-character `YYYY-MM-DD` text naming an
/// existing calendar day, and nothing else, parses.
pub open spec fn parse_date_spec(s: Seq<u8>) -> Option<Date> {
    if s.len() == 10 && date_pattern_at(s, 0) && date_value_at(s, 0).valid() {
        Some(date_value_at(s, 0))
    } else {
        None
    }
}

/// Reads one ASCII digit.
fn digit_at(s: &Vec<u8>, k: usize) -> (r: Option<u8>)
    requires
        k < s.len(),
    ensures
        r is Some <==> is_digit(s@[k as int]),
        r is Some ==> r->0 == digit_val(s@[k as int]),
{
    let b = s[k];
    if 48 <= b && b <= 57 {
        Some(b - 48)
    } else {
        None
    }
}

/// Parses a `YYYY-MM-DD` date string.
pub fn parse_date(s: &Vec<u8>) -> (r: Option<Date>)
    ensures
        r == parse_date_spec(s@),
{
    if s.len() != 10 {
        return None;
    }
    let (y0, y1, y2, y3) = match (digit_at(s, 0), digit_at(s, 1), digit_at(s, 2), digit_at(s, 3)) {
        (Some(a), Some(b), Some(c), Some(d)) => (a, b, c, d),
        _ => { return None; },
    };
    if s[4] != 45 || s[7] != 45 {
        return None;
    }
    let (m0, m1) = match (digit_at(s, 5), digit_at(s, 6)) {
        (Some(a), Some(b)) => (a, b),
        _ => { return None; },
    };
    let (d0, d1) = match (digit_at(s, 8), digit_at(s, 9)) {
        (Some(a), Some(b)) => (a, b),
        _ => { return None; },
    };
    let year: i32 = (y0 as i32) * 1000 + (y1 as i32) * 100 + (y2 as i32) * 10 + (y3 as i32);
    let month: u8 = m0 * 10 + m1;
    let day: u8 = d0 * 10 + d1;
    let date = Date { year, month, day };
    if month < 1 || month > 12 {
        return None;
    }
    if day < 1 || day > month_length(year, month) {
        return None;
    }
    Some(date)
}

/// `YYYY-MM-DD` rendering of `d`; a negative year carries a sign and its
/// magnitude is zero-padded to four digits.
pub open spec fn date_render(d: Date) -> Seq<u8> {
    let year_part = if d.year < 0 {
        seq![45u8] + padded_digits((-(d.year as int)) as nat, 4)
    } else {
        padded_digits(d.year as nat, 4)
    };
    year_part + seq![45u8] + padded_digits(d.month as nat, 2) + seq![45u8] + padded_digits(
        d.day as nat,
        2,
    )
}

/// Appends the `YYYY-MM-DD` rendering of `d` to `out`.
pub fn push_date(out: &mut Vec<u8>, d: Date)
    requires
        -9999 <= d.year <= 9999,
    ensures
        final(out)@ == old(out)@ + date_render(d),
{
    if d.year < 0 {
        out.push(45);
        crate::digits::push_padded_digits(out, (-(d.year as i64)) as u128, 4);
    } else {
        crate::digits::push_padded_digits(out, d.year as u128, 4);
    }
    out.push(45);
    crate::digits::push_padded_digits(out, d.month as u128, 2);
    out.push(45);
    crate::digits::push_padded_digits(out, d.day as u128, 2);
    proof {
        assert(final(out)@ =~= old(out)@ + date_render(d));
    }
}

} // verus!
