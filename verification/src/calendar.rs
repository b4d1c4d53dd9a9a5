//! Calendar dates and wall-clock times of the timesheet format.

use vstd::prelude::*;
use vstd::string::*;

use crate::error::{ErrorModel, ParseError};
use crate::text::{
    chars_of, find_in, padded, parse_unsigned, parse_unsigned_in, push_padded, split_on,
    split_ranges,
};

verus! {

/// Minutes in one day.
pub const MINUTES_PER_DAY: u32 = 1440;

// ---------------------------------------------------------------------------
// Dates
// ---------------------------------------------------------------------------

/// A calendar date, `YYYY-MM-DD`.
#[derive(Debug, Clone, Copy, PartialEq, Eq, Structural, PartialOrd, Ord)]
pub struct Date {
    pub year: u16,
    pub month: u8,
    pub day: u8,
}

/// Gregorian leap years: every fourth year, but not centuries, except every
/// fourth century.
pub open spec fn is_leap(year: int) -> bool {
    (year % 4 == 0 && year % 100 != 0) || year % 400 == 0
}

/// Days in `month` of `year`; zero for a month number outside `1..=12`.
pub open spec fn month_length(year: int, month: int) -> int {
    if month == 1 || month == 3 || month == 5 || month == 7 || month == 8 || month == 10 || month
        == 12 {
        31
    } else if month == 4 || month == 6 || month == 9 || month == 11 {
        30
    } else if month == 2 {
        if is_leap(year) {
            29
        } else {
            28
        }
    } else {
        0
    }
}

pub fn is_leap_year(year: u16) -> (b: bool)
    ensures
        b == is_leap(year as int),
{
    (year % 4 == 0 && year % 100 != 0) || year % 400 == 0
}

pub fn days_in_month(year: u16, month: u8) -> (n: u8)
    ensures
        n == month_length(year as int, month as int),
{
    if month == 1 || month == 3 || month == 5 || month == 7 || month == 8 || month == 10 || month
        == 12 {
        31
    } else if month == 4 || month == 6 || month == 9 || month == 11 {
        30
    } else if month == 2 {
        if is_leap_year(year) {
            29
        } else {
            28
        }
    } else {
        0
    }
}

impl Date {
    /// A day that exists on the calendar.
    pub open spec fn is_valid(self) -> bool {
        1 <= self.month <= 12 && 1 <= self.day <= month_length(self.year as int, self.month as int)
    }

    /// `self` strictly before `other`.
    pub open spec fn before(self, other: Date) -> bool {
        ||| self.year < other.year
        ||| self.year == other.year && self.month < other.month
        ||| self.year == other.year && self.month == other.month && self.day < other.day
    }

    /// `self` on or before `other`.
    pub open spec fn on_or_before(self, other: Date) -> bool {
        self == other || self.before(other)
    }

    pub fn is_on_or_before(&self, other: &Date) -> (b: bool)
        ensures
            b == self.on_or_before(*other),
    {
        if self.year != other.year {
            self.year < other.year
        } else if self.month != other.month {
            self.month < other.month
        } else {
            self.day <= other.day
        }
    }

    pub fn is_before(&self, other: &Date) -> (b: bool)
        ensures
            b == self.before(*other),
    {
        if self.year != other.year {
            self.year < other.year
        } else if self.month != other.month {
            self.month < other.month
        } else {
            self.day < other.day
        }
    }

    /// `YYYY-MM-DD` as written by [`Date::to_string`].
    pub open spec fn text(self) -> Seq<char> {
        padded(self.year as nat, 4) + seq!['-'] + padded(self.month as nat, 2) + seq!['-']
            + padded(self.day as nat, 2)
    }

    /// The date, zero-padded: four digits of year, two of month and day.
    pub fn to_string(&self) -> (r: String)
        ensures
            r@ == self.text(),
    {
        let mut r = String::new();
        push_padded(&mut r, self.year as u32, 4);
        proof {
            reveal_strlit("-");
        }
        r.append("-");
        push_padded(&mut r, self.month as u32, 2);
        r.append("-");
        push_padded(&mut r, self.day as u32, 2);
        r
    }

    /// Reads `YYYY-MM-DD`: three numbers joined by `-`, a real date.
    pub fn parse(s: &str) -> (r: Result<Date, ParseError>)
        ensures
            match r {
                Ok(d) => spec_parse_date(s@) == Some(d),
                Err(e) => spec_parse_date(s@) is None && e@ == ErrorModel::BadDate(s@),
            },
    {
        let chars = chars_of(s);
        let n = chars.len();
        assert(chars@.subrange(0, n as int) =~= s@);
        let parts = split_ranges(&chars, 0, n, '-');
        if parts.len() != 3 {
            return Err(ParseError::BadDate(String::from_str(s)));
        }
        let ghost pieces = split_on(s@, '-');
        let year = parse_unsigned_in(&chars, parts[0].0, parts[0].1, 0xffff);
        let month = parse_unsigned_in(&chars, parts[1].0, parts[1].1, 0xff);
        let day = parse_unsigned_in(&chars, parts[2].0, parts[2].1, 0xff);
        assert(chars@.subrange(parts@[0].0 as int, parts@[0].1 as int) == pieces[0]);
        assert(chars@.subrange(parts@[1].0 as int, parts@[1].1 as int) == pieces[1]);
        assert(chars@.subrange(parts@[2].0 as int, parts@[2].1 as int) == pieces[2]);
        match (year, month, day) {
            (Some(y), Some(m), Some(d)) => {
                let year = y as u16;
                let month = m as u8;
                let day = d as u8;
                if month == 0 || month > 12 {
                    return Err(ParseError::BadDate(String::from_str(s)));
                }
                if day == 0 || day > days_in_month(year, month) {
                    return Err(ParseError::BadDate(String::from_str(s)));
                }
                Ok(Date { year, month, day })
            },
            _ => Err(ParseError::BadDate(String::from_str(s))),
        }
    }
}

/// The date that `s` writes, if it writes one: `str::split` on `-` gives
/// exactly three pieces, which read as a `u16` year and `u8` month and day
/// (see [`parse_unsigned`]) that form a real date.
pub open spec fn spec_parse_date(s: Seq<char>) -> Option<Date> {
    let parts = split_on(s, '-');
    if parts.len() != 3 {
        None
    } else {
        match (
            parse_unsigned(parts[0], 0xffff),
            parse_unsigned(parts[1], 0xff),
            parse_unsigned(parts[2], 0xff),
        ) {
            (Some(y), Some(m), Some(d)) => {
                let date = Date { year: y as u16, month: m as u8, day: d as u8 };
                if date.is_valid() {
                    Some(date)
                } else {
                    None
                }
            },
            _ => None,
        }
    }
}

// ---------------------------------------------------------------------------
// Times of day
// ---------------------------------------------------------------------------

/// A time of day, `HH:MM` on a 24-hour clock.
#[derive(Debug, Clone, Copy, PartialEq, Eq, Structural, PartialOrd, Ord)]
pub struct Time {
    pub hour: u8,
    pub minute: u8,
}

impl Time {
    /// Minutes since midnight that this time stands for.
    pub open spec fn minutes(self) -> int {
        self.hour * 60 + self.minute
    }

    /// A time that a 24-hour clock shows.
    pub open spec fn is_valid(self) -> bool {
        self.hour <= 23 && self.minute <= 59
    }

    pub fn minutes_since_midnight(&self) -> (m: u32)
        ensures
            m == self.minutes(),
    {
        self.hour as u32 * 60 + self.minute as u32
    }

    /// `HH:MM` as written by [`Time::to_string`].
    pub open spec fn text(self) -> Seq<char> {
        padded(self.hour as nat, 2) + seq![':'] + padded(self.minute as nat, 2)
    }

    /// The time, with two digits of hour and of minute.
    pub fn to_string(&self) -> (r: String)
        ensures
            r@ == self.text(),
    {
        let mut r = String::new();
        push_padded(&mut r, self.hour as u32, 2);
        proof {
            reveal_strlit(":");
        }
        r.append(":");
        push_padded(&mut r, self.minute as u32, 2);
        r
    }

    /// Reads `HH:MM`: hour, then minute, split at the first `:`.
    pub fn parse(s: &str) -> (r: Result<Time, ParseError>)
        ensures
            match r {
                Ok(t) => spec_parse_time(s@) == Some(t),
                Err(e) => spec_parse_time(s@) is None && e@ == ErrorModel::BadTime(s@),
            },
    {
        let chars = chars_of(s);
        let n = chars.len();
        assert(chars@.subrange(0, n as int) =~= s@);
        match find_in(&chars, 0, n, ':') {
            None => Err(ParseError::BadTime(String::from_str(s))),
            Some(k) => {
                assert(chars@.subrange(0, k as int) =~= s@.take(k as int));
                assert(chars@.subrange(k + 1, n as int) =~= s@.skip(k + 1));
                let hour = parse_unsigned_in(&chars, 0, k, 0xff);
                let minute = parse_unsigned_in(&chars, k + 1, n, 0xff);
                match (hour, minute) {
                    (Some(h), Some(m)) => {
                        if h > 23 || m > 59 {
                            return Err(ParseError::BadTime(String::from_str(s)));
                        }
                        Ok(Time { hour: h as u8, minute: m as u8 })
                    },
                    _ => Err(ParseError::BadTime(String::from_str(s))),
                }
            },
        }
    }
}

/// The time that `s` writes, if it writes one: the text before the first `:`
/// and the text after it read as `u8` numbers (see [`parse_unsigned`]), an
/// hour of at most 23 and a minute of at most 59.
pub open spec fn spec_parse_time(s: Seq<char>) -> Option<Time> {
    match s.index_of_first(':') {
        None => None,
        Some(k) => match (parse_unsigned(s.take(k), 0xff), parse_unsigned(s.skip(k + 1), 0xff)) {
            (Some(h), Some(m)) => if h <= 23 && m <= 59 {
                Some(Time { hour: h as u8, minute: m as u8 })
            } else {
                None
            },
            _ => None,
        },
    }
}

} // verus!
