//! Dates and times of nginx access logs, and their parsing.

use vstd::prelude::*;
use crate::text::{
    all_ascii, is_ascii_char, is_digit, lemma_ascii_bytes, lemma_ascii_prefix_bytes, lemma_digit_ascii, lemma_utf8_len_at_least,
    digit_char, lemma_decimal_chars_value, lemma_find_from_concat, lemma_padded2_value,
    decimal_chars, padded2, push_decimal, push_padded2,
    and_then, byte_range, find_char, find_from, byte_slice, chars_of, chars_eq, parse_u16, parse_u8, parsed_u16,
    parsed_u8, fault_u8, fault_u16, IntFault, utf8_len, utf8_len_at_least, Outcome,
};

verus! {

/// Why a date or a time could not be read.
#[derive(Debug)]
pub enum ParseDateTimeError {
    UnexpectedEnd,
    InvalidDay(u8),
    AmbiguousDate(String),
    InvalidMonth(u8),
    UnrecognizedMonth(String),
    InvalidHour(u8),
    InvalidMinute(u8),
    InvalidSecond(u8),
    IntExpected(std::num::ParseIntError, IntFault),
    IntExpectedInternal,
}

/// A `ParseDateTimeError` as a plain value: the variant and the payload that
/// the contracts speak of (the integer error itself is opaque; its kind is
/// kept beside it).
pub enum DateFault {
    UnexpectedEnd,
    InvalidDay(u8),
    AmbiguousDate(Seq<char>),
    InvalidMonth(u8),
    UnrecognizedMonth(Seq<char>),
    InvalidHour(u8),
    InvalidMinute(u8),
    InvalidSecond(u8),
    IntExpected(IntFault),
    IntExpectedInternal,
}

impl View for ParseDateTimeError {
    type V = DateFault;

    open spec fn view(&self) -> DateFault {
        match self {
            ParseDateTimeError::UnexpectedEnd => DateFault::UnexpectedEnd,
            ParseDateTimeError::InvalidDay(d) => DateFault::InvalidDay(*d),
            ParseDateTimeError::AmbiguousDate(s) => DateFault::AmbiguousDate(s@),
            ParseDateTimeError::InvalidMonth(m) => DateFault::InvalidMonth(*m),
            ParseDateTimeError::UnrecognizedMonth(s) => DateFault::UnrecognizedMonth(s@),
            ParseDateTimeError::InvalidHour(h) => DateFault::InvalidHour(*h),
            ParseDateTimeError::InvalidMinute(m) => DateFault::InvalidMinute(*m),
            ParseDateTimeError::InvalidSecond(s) => DateFault::InvalidSecond(*s),
            ParseDateTimeError::IntExpected(_, k) => DateFault::IntExpected(*k),
            ParseDateTimeError::IntExpectedInternal => DateFault::IntExpectedInternal,
        }
    }
}

/// `r` is what the outcome `o` describes, with `None` for a panic.
pub open spec fn outcome_is<T>(r: Option<Result<T, ParseDateTimeError>>, o: Outcome<T, DateFault>) -> bool {
    match o {
        Outcome::Done(Ok(v)) => r == Some(Ok::<T, ParseDateTimeError>(v)),
        Outcome::Done(Err(f)) => r matches Some(Err(e)) && e@ == f,
        Outcome::Panics => r is None,
    }
}

/// `r` is the result that the outcome `o` describes (which is no panic).
pub open spec fn result_is<T>(r: Result<T, ParseDateTimeError>, o: Outcome<T, DateFault>) -> bool {
    match o {
        Outcome::Done(Ok(v)) => r == Ok::<T, ParseDateTimeError>(v),
        Outcome::Done(Err(f)) => r matches Err(e) && e@ == f,
        Outcome::Panics => false,
    }
}

/// A date: year, month in 1..=12, day in 1..=31, in the time zone of the logs.
#[derive(Debug, Clone, Copy, PartialEq, Eq, Structural, PartialOrd, Ord)]
pub struct Date {
    pub year: u16,
    pub month: u8,
    pub day: u8,
}

/// A time of day: hour in 0..=23, minute and second in 0..=59.
#[derive(Debug, Clone, Copy, PartialEq, Eq, Structural, PartialOrd, Ord)]
pub struct Time {
    pub hour: u8,
    pub minute: u8,
    pub second: u8,
}

/// A date with a time, in the time zone of the log files.
#[derive(Debug, Clone, Copy, PartialEq, Eq, Structural, PartialOrd, Ord)]
pub struct DateTime {
    pub date: Date,
    pub time: Time,
}

// ---------------------------------------------------------------- validation

/// What `Date::new` gives: the day is checked first, then the month.
pub open spec fn date_checked(year: u16, month: u8, day: u8) -> Result<Date, DateFault> {
    if day < 1 || day > 31 {
        Err(DateFault::InvalidDay(day))
    } else if month < 1 || month > 12 {
        Err(DateFault::InvalidMonth(month))
    } else {
        Ok(Date { year, month, day })
    }
}

/// What `Time::new` gives: the second is checked first, then the minute, then the hour.
pub open spec fn time_checked(hour: u8, minute: u8, second: u8) -> Result<Time, DateFault> {
    if second > 59 {
        Err(DateFault::InvalidSecond(second))
    } else if minute > 59 {
        Err(DateFault::InvalidMinute(minute))
    } else if hour > 23 {
        Err(DateFault::InvalidHour(hour))
    } else {
        Ok(Time { hour, minute, second })
    }
}

/// What `DateTime::new` gives: the date is checked before the time.
pub open spec fn date_time_checked(
    year: u16,
    month: u8,
    day: u8,
    hour: u8,
    minute: u8,
    second: u8,
) -> Result<DateTime, DateFault> {
    match date_checked(year, month, day) {
        Err(e) => Err(e),
        Ok(date) => match time_checked(hour, minute, second) {
            Err(e) => Err(e),
            Ok(time) => Ok(DateTime { date, time }),
        },
    }
}

impl Date {
    pub open spec fn valid(self) -> bool {
        1 <= self.day <= 31 && 1 <= self.month <= 12
    }

    pub fn new(year: u16, month: u8, day: u8) -> (r: Result<Self, ParseDateTimeError>)
        ensures
            result_is(r, Outcome::Done(date_checked(year, month, day))),
    {
        if day < 1 || day > 31 {
            return Err(ParseDateTimeError::InvalidDay(day));
        }
        if month < 1 || month > 12 {
            return Err(ParseDateTimeError::InvalidMonth(month));
        }
        Ok(Self { year, month, day })
    }
}

impl Time {
    pub open spec fn valid(self) -> bool {
        self.hour <= 23 && self.minute <= 59 && self.second <= 59
    }

    pub fn new(hour: u8, minute: u8, second: u8) -> (r: Result<Self, ParseDateTimeError>)
        ensures
            result_is(r, Outcome::Done(time_checked(hour, minute, second))),
    {
        if second > 59 {
            return Err(ParseDateTimeError::InvalidSecond(second));
        }
        if minute > 59 {
            return Err(ParseDateTimeError::InvalidMinute(minute));
        }
        if hour > 23 {
            return Err(ParseDateTimeError::InvalidHour(hour));
        }
        Ok(Self { hour, minute, second })
    }
}

impl DateTime {
    pub fn new(year: u16, month: u8, day: u8, hour: u8, minute: u8, second: u8) -> (r: Result<
        Self,
        ParseDateTimeError,
    >)
        ensures
            result_is(r, Outcome::Done(date_time_checked(year, month, day, hour, minute, second))),
    {
        let date = match Date::new(year, month, day) {
            Ok(d) => d,
            Err(e) => return Err(e),
        };
        let time = match Time::new(hour, minute, second) {
            Ok(t) => t,
            Err(e) => return Err(e),
        };
        Ok(Self { date, time })
    }

    /// The date at `time`, or at the last second of the day where no time is given.
    pub fn round_up(date: Date, time: Option<Time>) -> (r: Self)
        ensures
            r.date == date,
            r.time == match time {
                Some(t) => t,
                None => Time { hour: 23, minute: 59, second: 59 },
            },
    {
        Self {
            date,
            time: match time {
                Some(t) => t,
                None => Time { hour: 23, minute: 59, second: 59 },
            },
        }
    }

    /// The date at `time`, or at midnight where no time is given.
    pub fn round_down(date: Date, time: Option<Time>) -> (r: Self)
        ensures
            r.date == date,
            r.time == match time {
                Some(t) => t,
                None => Time { hour: 0, minute: 0, second: 0 },
            },
    {
        Self {
            date,
            time: match time {
                Some(t) => t,
                None => Time { hour: 0, minute: 0, second: 0 },
            },
        }
    }
}

// ---------------------------------------------------------------- months

/// The English three-letter name of month `i + 1`.
pub open spec fn month_name(i: int) -> Seq<char> {
    if i == 0 {
        "Jan"@
    } else if i == 1 {
        "Feb"@
    } else if i == 2 {
        "Mar"@
    } else if i == 3 {
        "Apr"@
    } else if i == 4 {
        "May"@
    } else if i == 5 {
        "Jun"@
    } else if i == 6 {
        "Jul"@
    } else if i == 7 {
        "Aug"@
    } else if i == 8 {
        "Sep"@
    } else if i == 9 {
        "Oct"@
    } else if i == 10 {
        "Nov"@
    } else {
        "Dec"@
    }
}

/// The first month, from index `i` on, whose three-letter name is `m`.
pub open spec fn month_index_from(m: Seq<char>, i: int) -> Option<int>
    decreases 12 - i,
{
    if i < 0 || i >= 12 {
        None
    } else if month_name(i) == m {
        Some(i)
    } else {
        month_index_from(m, i + 1)
    }
}

/// The index (0 for January) of the month whose three-letter name is `m`.
pub open spec fn month_index(m: Seq<char>) -> Option<int> {
    month_index_from(m, 0)
}

/// The three-letter name of month `i + 1` ("Jan" for 0).
pub fn month_abbreviation(i: usize) -> (r: &'static str)
    requires
        i < 12,
    ensures
        r@ == month_name(i as int),
{
    if i == 0 {
        "Jan"
    } else if i == 1 {
        "Feb"
    } else if i == 2 {
        "Mar"
    } else if i == 3 {
        "Apr"
    } else if i == 4 {
        "May"
    } else if i == 5 {
        "Jun"
    } else if i == 6 {
        "Jul"
    } else if i == 7 {
        "Aug"
    } else if i == 8 {
        "Sep"
    } else if i == 9 {
        "Oct"
    } else if i == 10 {
        "Nov"
    } else {
        "Dec"
    }
}

fn find_month(m: &str) -> (r: Option<usize>)
    ensures
        match r {
            Some(i) => month_index(m@) == Some(i as int),
            None => month_index(m@) is None,
        },
        r matches Some(i) ==> i < 12,
{
    let mc = chars_of(m);
    let mut i: usize = 0;
    while i < 12
        invariant
            i <= 12,
            mc@ == m@,
            month_index(m@) == month_index_from(m@, i as int),
        decreases 12 - i,
    {
        let name = chars_of(month_abbreviation(i));
        if chars_eq(&name, &mc) {
            return Some(i);
        }
        i = i + 1;
    }
    None
}

// ---------------------------------------------------------------- fields

/// The `u8` written between byte offsets `a` and `c` of `cs`.
pub open spec fn field_u8(cs: Seq<char>, a: int, c: int) -> Outcome<u8, DateFault> {
    match byte_slice(cs, a, c) {
        None => Outcome::Panics,
        Some(t) => match parsed_u8(t) {
            Some(v) => Outcome::Done(Ok(v)),
            None => Outcome::Done(Err(DateFault::IntExpected(fault_u8(t)))),
        },
    }
}

/// The `u16` written between byte offsets `a` and `c` of `cs`.
pub open spec fn field_u16(cs: Seq<char>, a: int, c: int) -> Outcome<u16, DateFault> {
    match byte_slice(cs, a, c) {
        None => Outcome::Panics,
        Some(t) => match parsed_u16(t) {
            Some(v) => Outcome::Done(Ok(v)),
            None => Outcome::Done(Err(DateFault::IntExpected(fault_u16(t)))),
        },
    }
}

/// The month number written as a three-letter name at bytes 3..6 of `cs`.
pub open spec fn field_month(cs: Seq<char>) -> Outcome<u8, DateFault> {
    match byte_slice(cs, 3, 6) {
        None => Outcome::Panics,
        Some(t) => match month_index(t) {
            Some(i) => Outcome::Done(Ok((i + 1) as u8)),
            None => Outcome::Done(Err(DateFault::UnrecognizedMonth(cs))),
        },
    }
}

fn read_u8(s: &str, cs: &Vec<char>, a: usize, c: usize) -> (r: Option<Result<u8, ParseDateTimeError>>)
    requires
        cs@ == s@,
        a <= 100,
        c <= 100,
    ensures
        outcome_is(r, field_u8(s@, a as int, c as int)),
{
    match byte_range(s, cs, a, c) {
        None => None,
        Some(t) => match parse_u8(t) {
            Ok(v) => Some(Ok(v)),
            Err((e, k)) => Some(Err(ParseDateTimeError::IntExpected(e, k))),
        },
    }
}

fn read_u16(s: &str, cs: &Vec<char>, a: usize, c: usize) -> (r: Option<Result<u16, ParseDateTimeError>>)
    requires
        cs@ == s@,
        a <= 100,
        c <= 100,
    ensures
        outcome_is(r, field_u16(s@, a as int, c as int)),
{
    match byte_range(s, cs, a, c) {
        None => None,
        Some(t) => match parse_u16(t) {
            Ok(v) => Some(Ok(v)),
            Err((e, k)) => Some(Err(ParseDateTimeError::IntExpected(e, k))),
        },
    }
}

fn read_month(s: &str, cs: &Vec<char>) -> (r: Option<Result<u8, ParseDateTimeError>>)
    requires
        cs@ == s@,
    ensures
        outcome_is(r, field_month(s@)),
{
    match byte_range(s, cs, 3, 6) {
        None => None,
        Some(t) => match find_month(t) {
            Some(i) => Some(Ok((i + 1) as u8)),
            None => Some(Err(ParseDateTimeError::UnrecognizedMonth(s.to_owned()))),
        },
    }
}

// ---------------------------------------------------------------- nginx date times

/// The date and time of the ISO 8601 form `1977-04-22T01:00:00...` whose year is `year`.
pub open spec fn iso_date_time(cs: Seq<char>, year: u16) -> Outcome<DateTime, DateFault> {
    and_then(
        field_u8(cs, 5, 7),
        |month: u8|
            and_then(
                field_u8(cs, 8, 10),
                |day: u8|
                    and_then(
                        field_u8(cs, 11, 13),
                        |hour: u8|
                            and_then(
                                field_u8(cs, 14, 16),
                                |minute: u8|
                                    and_then(
                                        field_u8(cs, 17, 19),
                                        |second: u8|
                                            Outcome::Done(
                                                date_time_checked(year, month, day, hour, minute, second),
                                            ),
                                    ),
                            ),
                    ),
            ),
    )
}

/// The date and time of the common log form `10/Jan/2021:10:27:01 ...`.
pub open spec fn common_date_time(cs: Seq<char>) -> Outcome<DateTime, DateFault> {
    and_then(
        field_u8(cs, 0, 2),
        |day: u8|
            and_then(
                field_month(cs),
                |month: u8|
                    and_then(
                        field_u16(cs, 7, 11),
                        |year: u16|
                            and_then(
                                field_u8(cs, 12, 14),
                                |hour: u8|
                                    and_then(
                                        field_u8(cs, 15, 17),
                                        |minute: u8|
                                            and_then(
                                                field_u8(cs, 18, 20),
                                                |second: u8|
                                                    Outcome::Done(
                                                        date_time_checked(
                                                            year,
                                                            month,
                                                            day,
                                                            hour,
                                                            minute,
                                                            second,
                                                        ),
                                                    ),
                                            ),
                                    ),
                            ),
                    ),
            ),
    )
}

/// What `DateTime::from_nginx` makes of `cs`: under 20 bytes is an unexpected
/// end; where the first four bytes spell a year the form is ISO 8601, else the
/// common log format.
pub open spec fn nginx_date_time(cs: Seq<char>) -> Outcome<DateTime, DateFault> {
    if utf8_len(cs) < 20 {
        Outcome::Done(Err(DateFault::UnexpectedEnd))
    } else {
        match byte_slice(cs, 0, 4) {
            None => Outcome::Panics,
            Some(ys) => match parsed_u16(ys) {
                Some(year) => iso_date_time(cs, year),
                None => common_date_time(cs),
            },
        }
    }
}

/// What `Date::from_nginx` makes of `cs`, as `nginx_date_time` with the date part only.
pub open spec fn nginx_date(cs: Seq<char>) -> Outcome<Date, DateFault> {
    if utf8_len(cs) < 11 {
        Outcome::Done(Err(DateFault::UnexpectedEnd))
    } else {
        match byte_slice(cs, 0, 4) {
            None => Outcome::Panics,
            Some(ys) => match parsed_u16(ys) {
                Some(year) => and_then(
                    field_u8(cs, 5, 7),
                    |month: u8|
                        and_then(
                            field_u8(cs, 8, 10),
                            |day: u8| Outcome::Done(date_checked(year, month, day)),
                        ),
                ),
                None => and_then(
                    field_u8(cs, 0, 2),
                    |day: u8|
                        and_then(
                            field_month(cs),
                            |month: u8|
                                and_then(
                                    field_u16(cs, 7, 11),
                                    |year: u16| Outcome::Done(date_checked(year, month, day)),
                                ),
                        ),
                ),
            },
        }
    }
}

impl DateTime {
    /// Parses the date-time part of an nginx log line, in the common log
    /// format (`10/Jan/2021:10:27:01 +0000`) or in ISO 8601
    /// (`1977-04-22T01:00:00-05:00`); `None` where the byte offsets it reads
    /// fall inside a character.
    pub fn try_from_nginx(s: &str) -> (r: Option<Result<Self, ParseDateTimeError>>)
        ensures
            outcome_is(r, nginx_date_time(s@)),
    {
        let cs = chars_of(s);
        if !utf8_len_at_least(&cs, 20) {
            return Some(Err(ParseDateTimeError::UnexpectedEnd));
        }
        let ys = match byte_range(s, &cs, 0, 4) {
            Some(t) => t,
            None => return None,
        };
        match parse_u16(ys) {
            Ok(year) => {
                let month = match read_u8(s, &cs, 5, 7) {
                    Some(Ok(v)) => v,
                    Some(Err(e)) => return Some(Err(e)),
                    None => return None,
                };
                let day = match read_u8(s, &cs, 8, 10) {
                    Some(Ok(v)) => v,
                    Some(Err(e)) => return Some(Err(e)),
                    None => return None,
                };
                let hour = match read_u8(s, &cs, 11, 13) {
                    Some(Ok(v)) => v,
                    Some(Err(e)) => return Some(Err(e)),
                    None => return None,
                };
                let minute = match read_u8(s, &cs, 14, 16) {
                    Some(Ok(v)) => v,
                    Some(Err(e)) => return Some(Err(e)),
                    None => return None,
                };
                let second = match read_u8(s, &cs, 17, 19) {
                    Some(Ok(v)) => v,
                    Some(Err(e)) => return Some(Err(e)),
                    None => return None,
                };
                Some(Self::new(year, month, day, hour, minute, second))
            },
            Err(_) => {
                let day = match read_u8(s, &cs, 0, 2) {
                    Some(Ok(v)) => v,
                    Some(Err(e)) => return Some(Err(e)),
                    None => return None,
                };
                let month = match read_month(s, &cs) {
                    Some(Ok(v)) => v,
                    Some(Err(e)) => return Some(Err(e)),
                    None => return None,
                };
                let year = match read_u16(s, &cs, 7, 11) {
                    Some(Ok(v)) => v,
                    Some(Err(e)) => return Some(Err(e)),
                    None => return None,
                };
                let hour = match read_u8(s, &cs, 12, 14) {
                    Some(Ok(v)) => v,
                    Some(Err(e)) => return Some(Err(e)),
                    None => return None,
                };
                let minute = match read_u8(s, &cs, 15, 17) {
                    Some(Ok(v)) => v,
                    Some(Err(e)) => return Some(Err(e)),
                    None => return None,
                };
                let second = match read_u8(s, &cs, 18, 20) {
                    Some(Ok(v)) => v,
                    Some(Err(e)) => return Some(Err(e)),
                    None => return None,
                };
                Some(Self::new(year, month, day, hour, minute, second))
            },
        }
    }

    /// Parses the date-time part of an nginx log line (see `try_from_nginx`).
    pub fn from_nginx(s: &str) -> (r: Result<Self, ParseDateTimeError>)
        requires
            !(nginx_date_time(s@) is Panics),
        ensures
            result_is(r, nginx_date_time(s@)),
    {
        match Self::try_from_nginx(s) {
            Some(r) => r,
            None => vstd::pervasive::unreached(),
        }
    }
}

impl Date {
    /// Parses the date part of an nginx date-time, in the common log format or
    /// in ISO 8601; `None` where the byte offsets it reads fall inside a character.
    pub fn try_from_nginx(s: &str) -> (r: Option<Result<Self, ParseDateTimeError>>)
        ensures
            outcome_is(r, nginx_date(s@)),
    {
        let cs = chars_of(s);
        if !utf8_len_at_least(&cs, 11) {
            return Some(Err(ParseDateTimeError::UnexpectedEnd));
        }
        let ys = match byte_range(s, &cs, 0, 4) {
            Some(t) => t,
            None => return None,
        };
        match parse_u16(ys) {
            Ok(year) => {
                let month = match read_u8(s, &cs, 5, 7) {
                    Some(Ok(v)) => v,
                    Some(Err(e)) => return Some(Err(e)),
                    None => return None,
                };
                let day = match read_u8(s, &cs, 8, 10) {
                    Some(Ok(v)) => v,
                    Some(Err(e)) => return Some(Err(e)),
                    None => return None,
                };
                Some(Self::new(year, month, day))
            },
            Err(_) => {
                let day = match read_u8(s, &cs, 0, 2) {
                    Some(Ok(v)) => v,
                    Some(Err(e)) => return Some(Err(e)),
                    None => return None,
                };
                let month = match read_month(s, &cs) {
                    Some(Ok(v)) => v,
                    Some(Err(e)) => return Some(Err(e)),
                    None => return None,
                };
                let year = match read_u16(s, &cs, 7, 11) {
                    Some(Ok(v)) => v,
                    Some(Err(e)) => return Some(Err(e)),
                    None => return None,
                };
                Some(Self::new(year, month, day))
            },
        }
    }

    /// Parses the date part of an nginx date-time (see `try_from_nginx`).
    pub fn from_nginx(s: &str) -> (r: Result<Self, ParseDateTimeError>)
        requires
            !(nginx_date(s@) is Panics),
        ensures
            result_is(r, nginx_date(s@)),
    {
        match Self::try_from_nginx(s) {
            Some(r) => r,
            None => vstd::pervasive::unreached(),
        }
    }

    /// Parses a numeric date `year/month/day`, `month/day` or `day`, taking the
    /// parts left out from `default_year` and `default_month`.
    pub fn with_implicit(s: &str, default_year: Option<u16>, default_month: Option<u8>) -> (r:
        Result<Self, ParseDateTimeError>)
        ensures
            result_is(r, Outcome::Done(date_with_implicit(s@, default_year, default_month))),
    {
        let cs = chars_of(s);
        let n = cs.len();
        let i1 = find_char(&cs, '/', 0);
        let p0 = s.substring_char(0, i1);
        if i1 < n {
            let i2 = find_char(&cs, '/', i1 + 1);
            let p1 = s.substring_char(i1 + 1, i2);
            if i2 < n {
                let i3 = find_char(&cs, '/', i2 + 1);
                let p2 = s.substring_char(i2 + 1, i3);
                let year = match parse_u16(p0) {
                    Ok(v) => v,
                    Err((e, k)) => return Err(ParseDateTimeError::IntExpected(e, k)),
                };
                let month = match parse_u8(p1) {
                    Ok(v) => v,
                    Err((e, k)) => return Err(ParseDateTimeError::IntExpected(e, k)),
                };
                let day = match parse_u8(p2) {
                    Ok(v) => v,
                    Err((e, k)) => return Err(ParseDateTimeError::IntExpected(e, k)),
                };
                Date::new(year, month, day)
            } else {
                match default_year {
                    Some(year) => {
                        let month = match parse_u8(p0) {
                            Ok(v) => v,
                            Err((e, k)) => return Err(ParseDateTimeError::IntExpected(e, k)),
                        };
                        let day = match parse_u8(p1) {
                            Ok(v) => v,
                            Err((e, k)) => return Err(ParseDateTimeError::IntExpected(e, k)),
                        };
                        Date::new(year, month, day)
                    },
                    None => Err(ParseDateTimeError::AmbiguousDate(s.to_owned())),
                }
            }
        } else {
            match (default_year, default_month) {
                (Some(year), Some(month)) => {
                    let day = match parse_u8(p0) {
                        Ok(v) => v,
                        Err((e, k)) => return Err(ParseDateTimeError::IntExpected(e, k)),
                    };
                    Date::new(year, month, day)
                },
                _ => Err(ParseDateTimeError::AmbiguousDate(s.to_owned())),
            }
        }
    }
}

/// What `Date::with_implicit` makes of `cs`: three parts are year, month and
/// day; two are month and day, in the default year; one is the day, in the
/// default year and month; a missing default makes the date ambiguous. Each
/// part is read in turn, and the first that is no integer fails.
pub open spec fn date_with_implicit(cs: Seq<char>, default_year: Option<u16>, default_month: Option<u8>) -> Result<Date, DateFault> {
    let i1 = find_from(cs, '/', 0);
    let p0 = cs.subrange(0, i1);
    if i1 < cs.len() {
        let i2 = find_from(cs, '/', i1 + 1);
        let p1 = cs.subrange(i1 + 1, i2);
        if i2 < cs.len() {
            let i3 = find_from(cs, '/', i2 + 1);
            let p2 = cs.subrange(i2 + 1, i3);
            match (parsed_u16(p0), parsed_u8(p1), parsed_u8(p2)) {
                (None, _, _) => Err(DateFault::IntExpected(fault_u16(p0))),
                (Some(_), None, _) => Err(DateFault::IntExpected(fault_u8(p1))),
                (Some(_), Some(_), None) => Err(DateFault::IntExpected(fault_u8(p2))),
                (Some(y), Some(m), Some(d)) => date_checked(y, m, d),
            }
        } else {
            match default_year {
                None => Err(DateFault::AmbiguousDate(cs)),
                Some(y) => match (parsed_u8(p0), parsed_u8(p1)) {
                    (None, _) => Err(DateFault::IntExpected(fault_u8(p0))),
                    (Some(_), None) => Err(DateFault::IntExpected(fault_u8(p1))),
                    (Some(m), Some(d)) => date_checked(y, m, d),
                },
            }
        }
    } else {
        match (default_year, default_month) {
            (Some(y), Some(m)) => match parsed_u8(p0) {
                None => Err(DateFault::IntExpected(fault_u8(p0))),
                Some(d) => date_checked(y, m, d),
            },
            _ => Err(DateFault::AmbiguousDate(cs)),
        }
    }
}

/// The year the two dates share, and the month too where they share it.
pub fn unique_year_month(start_date: Date, end_date: Date) -> (r: (Option<u16>, Option<u8>))
    ensures
        r == if start_date.year != end_date.year {
            (None::<u16>, None::<u8>)
        } else if start_date.month != end_date.month {
            (Some(start_date.year), None::<u8>)
        } else {
            (Some(start_date.year), Some(start_date.month))
        },
{
    let y1 = start_date.year;
    let y2 = end_date.year;
    if y1 == y2 {
        let m1 = start_date.month;
        let m2 = end_date.month;
        if m1 == m2 {
            (Some(y1), Some(m1))
        } else {
            (Some(y1), None)
        }
    } else {
        (None, None)
    }
}

/// What `Time::from_str` makes of `cs`: the hour from bytes 0..2, the minute
/// from bytes 3..5 where the string is longer than 4 bytes, and the second
/// from byte 6 alone where it is longer than 6 bytes; missing parts are 0.
pub open spec fn time_from_str(cs: Seq<char>) -> Outcome<Time, DateFault> {
    if utf8_len(cs) < 2 {
        Outcome::Done(Err(DateFault::UnexpectedEnd))
    } else {
        and_then(
            field_u8(cs, 0, 2),
            |hour: u8|
                if utf8_len(cs) > 4 {
                    and_then(
                        field_u8(cs, 3, 5),
                        |minute: u8|
                            if utf8_len(cs) > 6 {
                                and_then(
                                    field_u8(cs, 6, 7),
                                    |second: u8| Outcome::Done(time_checked(hour, minute, second)),
                                )
                            } else {
                                Outcome::Done(time_checked(hour, minute, 0))
                            },
                    )
                } else {
                    Outcome::Done(time_checked(hour, 0, 0))
                },
        )
    }
}

impl Time {
    /// Parses `HH`, `HH:MM` or `HH:MM:S...`; `None` where the byte offsets it
    /// reads fall inside a character.
    pub fn try_from_str(s: &str) -> (r: Option<Result<Self, ParseDateTimeError>>)
        ensures
            outcome_is(r, time_from_str(s@)),
    {
        let cs = chars_of(s);
        if !utf8_len_at_least(&cs, 2) {
            return Some(Err(ParseDateTimeError::UnexpectedEnd));
        }
        let hour = match read_u8(s, &cs, 0, 2) {
            Some(Ok(v)) => v,
            Some(Err(e)) => return Some(Err(e)),
            None => return None,
        };
        let mut minute: u8 = 0;
        let mut second: u8 = 0;
        if utf8_len_at_least(&cs, 5) {
            minute = match read_u8(s, &cs, 3, 5) {
                Some(Ok(v)) => v,
                Some(Err(e)) => return Some(Err(e)),
                None => return None,
            };
            if utf8_len_at_least(&cs, 7) {
                second = match read_u8(s, &cs, 6, 7) {
                    Some(Ok(v)) => v,
                    Some(Err(e)) => return Some(Err(e)),
                    None => return None,
                };
            }
        }
        Some(Time::new(hour, minute, second))
    }

    /// Parses `HH`, `HH:MM` or `HH:MM:S...` (see `try_from_str`).
    pub fn from_str(s: &str) -> (r: Result<Self, ParseDateTimeError>)
        requires
            !(time_from_str(s@) is Panics),
        ensures
            result_is(r, time_from_str(s@)),
    {
        match Self::try_from_str(s) {
            Some(r) => r,
            None => vstd::pervasive::unreached(),
        }
    }
}

/// `2021/01/22`: the year, then the month and the day on two digits.
pub open spec fn date_text(d: Date) -> Seq<char> {
    decimal_chars(d.year as nat) + seq!['/'] + padded2(d.month as nat) + seq!['/'] + padded2(
        d.day as nat,
    )
}

/// `02:49:30`: hour, minute and second on two digits each.
pub open spec fn time_text(t: Time) -> Seq<char> {
    padded2(t.hour as nat) + seq![':'] + padded2(t.minute as nat) + seq![':'] + padded2(
        t.second as nat,
    )
}

/// `2021/01/22T02:49:30`.
pub open spec fn date_time_text(dt: DateTime) -> Seq<char> {
    date_text(dt.date) + seq!['T'] + time_text(dt.time)
}

fn push_date(out: &mut String, d: Date)
    ensures
        final(out)@ == old(out)@ + date_text(d),
{
    proof {
        reveal_strlit("/");
    }
    push_decimal(out, d.year as u64);
    out.append("/");
    push_padded2(out, d.month as u64);
    out.append("/");
    push_padded2(out, d.day as u64);
    assert(out@ =~= old(out)@ + date_text(d));
}

fn push_time(out: &mut String, t: Time)
    ensures
        final(out)@ == old(out)@ + time_text(t),
{
    proof {
        reveal_strlit(":");
    }
    push_padded2(out, t.hour as u64);
    out.append(":");
    push_padded2(out, t.minute as u64);
    out.append(":");
    push_padded2(out, t.second as u64);
    assert(out@ =~= old(out)@ + time_text(t));
}

impl Date {
    /// The date as `year/MM/DD`.
    pub fn to_string(&self) -> (r: String)
        ensures
            r@ == date_text(*self),
    {
        let mut out = String::new();
        push_date(&mut out, *self);
        assert(out@ =~= date_text(*self));
        out
    }
}

impl Time {
    /// The time as `HH:MM:SS`.
    pub fn to_string(&self) -> (r: String)
        ensures
            r@ == time_text(*self),
    {
        let mut out = String::new();
        push_time(&mut out, *self);
        assert(out@ =~= time_text(*self));
        out
    }
}

impl DateTime {
    /// The date-time as `year/MM/DDTHH:MM:SS`.
    pub fn to_string(&self) -> (r: String)
        ensures
            r@ == date_time_text(*self),
    {
        proof {
            reveal_strlit("T");
        }
        let mut out = String::new();
        push_date(&mut out, self.date);
        out.append("T");
        push_time(&mut out, self.time);
        assert(out@ =~= date_time_text(*self));
        out
    }
}

// ---------------------------------------------------------------- laws

proof fn lemma_date_time_checked_valid(year: u16, month: u8, day: u8, hour: u8, minute: u8, second: u8)
    ensures
        date_time_checked(year, month, day, hour, minute, second) matches Ok(dt) ==> dt.date.valid()
            && dt.time.valid(),
{
}

/// Every date-time that `DateTime::from_nginx` reads is a valid one: a day in
/// 1..=31, a month in 1..=12, an hour in 0..=23, a minute and a second in 0..=59.
pub proof fn lemma_nginx_date_time_valid(cs: Seq<char>)
    ensures
        nginx_date_time(cs) matches Outcome::Done(Ok(dt)) ==> dt.date.valid() && dt.time.valid(),
{
    if nginx_date_time(cs) matches Outcome::Done(Ok(dt)) {
        if utf8_len(cs) >= 20 {
            let ys = byte_slice(cs, 0, 4)->0;
            match parsed_u16(ys) {
                Some(year) => {
                    let month = field_u8(cs, 5, 7)->Done_0->Ok_0;
                    let day = field_u8(cs, 8, 10)->Done_0->Ok_0;
                    let hour = field_u8(cs, 11, 13)->Done_0->Ok_0;
                    let minute = field_u8(cs, 14, 16)->Done_0->Ok_0;
                    let second = field_u8(cs, 17, 19)->Done_0->Ok_0;
                    lemma_date_time_checked_valid(year, month, day, hour, minute, second);
                },
                None => {
                    let day = field_u8(cs, 0, 2)->Done_0->Ok_0;
                    let month = field_month(cs)->Done_0->Ok_0;
                    let year = field_u16(cs, 7, 11)->Done_0->Ok_0;
                    let hour = field_u8(cs, 12, 14)->Done_0->Ok_0;
                    let minute = field_u8(cs, 15, 17)->Done_0->Ok_0;
                    let second = field_u8(cs, 18, 20)->Done_0->Ok_0;
                    lemma_date_time_checked_valid(year, month, day, hour, minute, second);
                },
            }
        }
    }
}

/// Every date that `Date::from_nginx` reads is a valid one.
pub proof fn lemma_nginx_date_valid(cs: Seq<char>)
    ensures
        nginx_date(cs) matches Outcome::Done(Ok(d)) ==> d.valid(),
{
}

/// Every date that `Date::with_implicit` reads is a valid one.
pub proof fn lemma_date_with_implicit_valid(cs: Seq<char>, default_year: Option<u16>, default_month: Option<u8>)
    ensures
        date_with_implicit(cs, default_year, default_month) matches Ok(d) ==> d.valid(),
{
}

/// Every time that `Time::from_str` reads is a valid one.
pub proof fn lemma_time_from_str_valid(cs: Seq<char>)
    ensures
        time_from_str(cs) matches Outcome::Done(Ok(t)) ==> t.valid(),
{
}

/// What `Date::to_string` writes (`year/MM/DD`), `Date::with_implicit` reads
/// back, whatever the defaults.
pub proof fn lemma_date_text_read_back(d: Date, default_year: Option<u16>, default_month: Option<u8>)
    requires
        d.valid(),
    ensures
        date_with_implicit(date_text(d), default_year, default_month) == Ok::<Date, DateFault>(d),
{
    let y = decimal_chars(d.year as nat);
    let m = padded2(d.month as nat);
    let dd = padded2(d.day as nat);
    let slash = seq!['/'];
    let t = date_text(d);
    lemma_decimal_chars_value(d.year as nat);
    lemma_padded2_value(d.month as nat);
    lemma_padded2_value(d.day as nat);
    let e: Seq<char> = Seq::empty();
    // the first `/` ends the year
    assert(t =~= y + (slash + m + slash + dd));
    lemma_find_from_concat(y, slash + m + slash + dd, '/', 0);
    assert((slash + m + slash + dd)[0] == '/');
    let i1 = find_from(t, '/', 0);
    assert(i1 == y.len());
    assert(t.subrange(0, i1) =~= y);
    // the second `/` ends the month
    let a = y + slash;
    assert(t =~= a + (m + (slash + dd)));
    lemma_find_from_concat(a, m + (slash + dd), '/', a.len() as int);
    lemma_find_from_concat(m, slash + dd, '/', 0);
    assert((slash + dd)[0] == '/');
    let i2 = find_from(t, '/', i1 + 1);
    assert(i2 == a.len() + m.len());
    assert(t.subrange(i1 + 1, i2) =~= m);
    // no `/` follows the day
    let b = y + slash + m + slash;
    assert(t =~= b + dd);
    lemma_find_from_concat(b, dd, '/', b.len() as int);
    lemma_find_from_concat(dd, e, '/', 0);
    assert(dd + e =~= dd);
    let i3 = find_from(t, '/', i2 + 1);
    assert(i3 == t.len());
    assert(t.subrange(i2 + 1, i3) =~= dd);
}

/// `DateTime::from_nginx` never panics on a text of one-byte characters.
pub proof fn lemma_ascii_date_time_no_panic(cs: Seq<char>)
    requires
        all_ascii(cs),
    ensures
        !(nginx_date_time(cs) is Panics),
{
    lemma_ascii_bytes(cs);
    if utf8_len(cs) >= 20 {
        assert(byte_slice(cs, 0, 4) is Some);
        assert(byte_slice(cs, 5, 7) is Some);
        assert(byte_slice(cs, 8, 10) is Some);
        assert(byte_slice(cs, 11, 13) is Some);
        assert(byte_slice(cs, 14, 16) is Some);
        assert(byte_slice(cs, 17, 19) is Some);
        assert(byte_slice(cs, 0, 2) is Some);
        assert(byte_slice(cs, 3, 6) is Some);
        assert(byte_slice(cs, 7, 11) is Some);
        assert(byte_slice(cs, 12, 14) is Some);
        assert(byte_slice(cs, 15, 17) is Some);
        assert(byte_slice(cs, 18, 20) is Some);
    }
}

// ---------------------------------------------------------------- laws of the common log format

/// The three-letter month names that nginx writes in the common log format,
/// January first.
pub open spec fn common_log_months() -> Seq<Seq<char>> {
    seq![
        "Jan"@,
        "Feb"@,
        "Mar"@,
        "Apr"@,
        "May"@,
        "Jun"@,
        "Jul"@,
        "Aug"@,
        "Sep"@,
        "Oct"@,
        "Nov"@,
        "Dec"@,
    ]
}

/// Each of the twelve month names of the common log format is read as its
/// own month: the `i`-th (from 0) as month `i + 1`.
pub proof fn lemma_month_names_read()
    ensures
        forall|i: int| 0 <= i < 12 ==> month_index(#[trigger] common_log_months()[i]) == Some(i),
{
    reveal_strlit("Jan");
    reveal_strlit("Feb");
    reveal_strlit("Mar");
    reveal_strlit("Apr");
    reveal_strlit("May");
    reveal_strlit("Jun");
    reveal_strlit("Jul");
    reveal_strlit("Aug");
    reveal_strlit("Sep");
    reveal_strlit("Oct");
    reveal_strlit("Nov");
    reveal_strlit("Dec");
    let ms = common_log_months();
    assert forall|i: int| 0 <= i < 12 implies month_index(#[trigger] ms[i]) == Some(i) by {
        assert forall|j: int| 0 <= j < i implies month_name(j) != ms[i] by {
            if month_name(j)[0] == ms[i][0] && month_name(j)[1] == ms[i][1] {
                assert(month_name(j)[2] != ms[i][2]);
            } else if month_name(j)[0] == ms[i][0] {
                assert(month_name(j)[1] != ms[i][1]);
            }
        }
        assert(month_index_from(ms[i], i) == Some(i));
        if i >= 1 { assert(month_index_from(ms[i], i - 1) == Some(i)); }
        if i >= 2 { assert(month_index_from(ms[i], i - 2) == Some(i)); }
        if i >= 3 { assert(month_index_from(ms[i], i - 3) == Some(i)); }
        if i >= 4 { assert(month_index_from(ms[i], i - 4) == Some(i)); }
        if i >= 5 { assert(month_index_from(ms[i], i - 5) == Some(i)); }
        if i >= 6 { assert(month_index_from(ms[i], i - 6) == Some(i)); }
        if i >= 7 { assert(month_index_from(ms[i], i - 7) == Some(i)); }
        if i >= 8 { assert(month_index_from(ms[i], i - 8) == Some(i)); }
        if i >= 9 { assert(month_index_from(ms[i], i - 9) == Some(i)); }
        if i >= 10 { assert(month_index_from(ms[i], i - 10) == Some(i)); }
        if i >= 11 { assert(month_index_from(ms[i], i - 11) == Some(i)); }
    }
}

proof fn lemma_padded2_len(n: nat)
    requires
        n < 100,
    ensures
        padded2(n).len() == 2,
{
    if n >= 10 {
        assert(decimal_chars(n / 10).len() == 1);
    }
}

proof fn lemma_year_len(y: nat)
    requires
        1000 <= y <= 9999,
    ensures
        decimal_chars(y).len() == 4,
{
    assert(decimal_chars(y / 1000).len() == 1);
    assert(decimal_chars(y / 100).len() == 2);
    assert(decimal_chars(y / 10).len() == 3);
}

/// The common log format text of a date-time, as nginx writes it:
/// `dd/Mon/yyyy:hh:mm:ss`, the month by its three-letter name.
pub open spec fn common_log_text(
    day: u8,
    month: u8,
    year: u16,
    hour: u8,
    minute: u8,
    second: u8,
) -> Seq<char> {
    padded2(day as nat) + seq!['/'] + common_log_months()[month - 1] + seq!['/'] + decimal_chars(
        year as nat,
    ) + seq![':'] + padded2(hour as nat) + seq![':'] + padded2(minute as nat) + seq![':']
        + padded2(second as nat)
}

/// Every valid date-time written in the common log format, followed by
/// anything (the time zone), is read back by `DateTime::from_nginx`: the
/// day, the month (from its name), the four-digit year, the hour, the
/// minute and the second written; and its date by `Date::from_nginx`.
pub proof fn lemma_common_log_date_time_reads_back(
    day: u8,
    month: u8,
    year: u16,
    hour: u8,
    minute: u8,
    second: u8,
    zone: Seq<char>,
)
    requires
        1 <= day <= 31,
        1 <= month <= 12,
        1000 <= year <= 9999,
        hour <= 23,
        minute <= 59,
        second <= 59,
    ensures
        nginx_date_time(common_log_text(day, month, year, hour, minute, second) + zone)
            == Outcome::<DateTime, DateFault>::Done(
            Ok(
                DateTime {
                    date: Date { year, month, day },
                    time: Time { hour, minute, second },
                },
            ),
        ),
        nginx_date(common_log_text(day, month, year, hour, minute, second) + zone)
            == Outcome::<Date, DateFault>::Done(Ok(Date { year, month, day })),
{
    let dd = padded2(day as nat);
    let mo = common_log_months()[month - 1];
    let yy = decimal_chars(year as nat);
    let hh = padded2(hour as nat);
    let mi = padded2(minute as nat);
    let ss = padded2(second as nat);
    let t = common_log_text(day, month, year, hour, minute, second) + zone;
    lemma_padded2_len(day as nat);
    lemma_padded2_len(hour as nat);
    lemma_padded2_len(minute as nat);
    lemma_padded2_len(second as nat);
    lemma_year_len(year as nat);
    lemma_padded2_value(day as nat);
    lemma_padded2_value(hour as nat);
    lemma_padded2_value(minute as nat);
    lemma_padded2_value(second as nat);
    lemma_decimal_chars_value(year as nat);
    lemma_month_names_read();
    reveal_strlit("Jan");
    reveal_strlit("Feb");
    reveal_strlit("Mar");
    reveal_strlit("Apr");
    reveal_strlit("May");
    reveal_strlit("Jun");
    reveal_strlit("Jul");
    reveal_strlit("Aug");
    reveal_strlit("Sep");
    reveal_strlit("Oct");
    reveal_strlit("Nov");
    reveal_strlit("Dec");
    assert(mo.len() == 3);
    // where each field lies
    assert(t.subrange(0, 2) =~= dd);
    assert(t[2] == '/');
    assert(t.subrange(3, 6) =~= mo);
    assert(t[6] == '/');
    assert(t.subrange(7, 11) =~= yy);
    assert(t[11] == ':');
    assert(t.subrange(12, 14) =~= hh);
    assert(t[14] == ':');
    assert(t.subrange(15, 17) =~= mi);
    assert(t[17] == ':');
    assert(t.subrange(18, 20) =~= ss);
    // the first 20 characters are one byte each
    assert forall|k: int| 0 <= k < 20 implies is_ascii_char(#[trigger] t[k]) by {
        if k < 2 {
            assert(t[k] == dd[k]);
            lemma_digit_ascii(dd[k]);
        } else if 3 <= k < 6 {
            assert(t[k] == mo[k - 3]);
        } else if 7 <= k < 11 {
            assert(t[k] == yy[k - 7]);
            lemma_digit_ascii(yy[k - 7]);
        } else if 12 <= k < 14 {
            assert(t[k] == hh[k - 12]);
            lemma_digit_ascii(hh[k - 12]);
        } else if 15 <= k < 17 {
            assert(t[k] == mi[k - 15]);
            lemma_digit_ascii(mi[k - 15]);
        } else if 18 <= k < 20 {
            assert(t[k] == ss[k - 18]);
            lemma_digit_ascii(ss[k - 18]);
        }
    }
    lemma_ascii_prefix_bytes(t, 20);
    // the first four bytes are no year: the third is `/`
    let y4 = t.subrange(0, 4);
    assert(y4[2] == '/');
    assert(is_digit(y4[0]));
    assert(y4[0] != '+');
    assert(!is_digit(y4[2]));
    assert(parsed_u16(y4) is None);
    assert(byte_slice(t, 0, 2) == Some(dd));
    assert(byte_slice(t, 3, 6) == Some(mo));
    assert(month_index(mo) == Some(month - 1));
    assert(byte_slice(t, 7, 11) == Some(yy));
    assert(byte_slice(t, 12, 14) == Some(hh));
    assert(byte_slice(t, 15, 17) == Some(mi));
    assert(byte_slice(t, 18, 20) == Some(ss));
    assert(field_u8(t, 0, 2) == Outcome::<u8, DateFault>::Done(Ok(day)));
    assert(field_month(t) == Outcome::<u8, DateFault>::Done(Ok(month)));
    assert(field_u16(t, 7, 11) == Outcome::<u16, DateFault>::Done(Ok(year)));
    assert(field_u8(t, 12, 14) == Outcome::<u8, DateFault>::Done(Ok(hour)));
    assert(field_u8(t, 15, 17) == Outcome::<u8, DateFault>::Done(Ok(minute)));
    assert(field_u8(t, 18, 20) == Outcome::<u8, DateFault>::Done(Ok(second)));
}

/// `Time::new` accepts exactly the times of a day, hour 0 to 23, minute
/// and second 0 to 59, and keeps them as given; `Date::new` accepts exactly
/// the days 1 to 31 of the months 1 to 12 of any year.
pub proof fn lemma_checked_bounds(year: u16, month: u8, day: u8, hour: u8, minute: u8, second: u8)
    ensures
        (time_checked(hour, minute, second) is Ok) <==> (hour <= 23 && minute <= 59 && second
            <= 59),
        time_checked(hour, minute, second) is Ok ==> time_checked(hour, minute, second)
            == Ok::<Time, DateFault>(Time { hour, minute, second }),
        (date_checked(year, month, day) is Ok) <==> (1 <= month <= 12 && 1 <= day <= 31),
        date_checked(year, month, day) is Ok ==> date_checked(year, month, day) == Ok::<
            Date,
            DateFault,
        >(Date { year, month, day }),
{
}

/// The ISO 8601 text of a date-time: `yyyy-mm-ddThh:mm:ss`.
pub open spec fn iso_text(year: u16, month: u8, day: u8, hour: u8, minute: u8, second: u8) -> Seq<
    char,
> {
    decimal_chars(year as nat) + seq!['-'] + padded2(month as nat) + seq!['-'] + padded2(
        day as nat,
    ) + seq!['T'] + padded2(hour as nat) + seq![':'] + padded2(minute as nat) + seq![':']
        + padded2(second as nat)
}

/// Every valid date-time written in ISO 8601, with a four-digit year and
/// followed by anything not empty (the offset), is read back by
/// `DateTime::from_nginx`, and its date by `Date::from_nginx`.
pub proof fn lemma_iso_date_time_reads_back(
    year: u16,
    month: u8,
    day: u8,
    hour: u8,
    minute: u8,
    second: u8,
    zone: Seq<char>,
)
    requires
        1 <= day <= 31,
        1 <= month <= 12,
        1000 <= year <= 9999,
        hour <= 23,
        minute <= 59,
        second <= 59,
        zone.len() > 0,
    ensures
        nginx_date_time(iso_text(year, month, day, hour, minute, second) + zone)
            == Outcome::<DateTime, DateFault>::Done(
            Ok(
                DateTime {
                    date: Date { year, month, day },
                    time: Time { hour, minute, second },
                },
            ),
        ),
        nginx_date(iso_text(year, month, day, hour, minute, second) + zone)
            == Outcome::<Date, DateFault>::Done(Ok(Date { year, month, day })),
{
    let yy = decimal_chars(year as nat);
    let mo = padded2(month as nat);
    let dd = padded2(day as nat);
    let hh = padded2(hour as nat);
    let mi = padded2(minute as nat);
    let ss = padded2(second as nat);
    let t = iso_text(year, month, day, hour, minute, second) + zone;
    lemma_padded2_len(month as nat);
    lemma_padded2_len(day as nat);
    lemma_padded2_len(hour as nat);
    lemma_padded2_len(minute as nat);
    lemma_padded2_len(second as nat);
    lemma_year_len(year as nat);
    lemma_padded2_value(month as nat);
    lemma_padded2_value(day as nat);
    lemma_padded2_value(hour as nat);
    lemma_padded2_value(minute as nat);
    lemma_padded2_value(second as nat);
    lemma_decimal_chars_value(year as nat);
    assert(t.subrange(0, 4) =~= yy);
    assert(t.subrange(5, 7) =~= mo);
    assert(t.subrange(8, 10) =~= dd);
    assert(t.subrange(11, 13) =~= hh);
    assert(t.subrange(14, 16) =~= mi);
    assert(t.subrange(17, 19) =~= ss);
    assert forall|k: int| 0 <= k < 19 implies is_ascii_char(#[trigger] t[k]) by {
        if k < 4 {
            assert(t[k] == yy[k]);
            lemma_digit_ascii(yy[k]);
        } else if 5 <= k < 7 {
            assert(t[k] == mo[k - 5]);
            lemma_digit_ascii(mo[k - 5]);
        } else if 8 <= k < 10 {
            assert(t[k] == dd[k - 8]);
            lemma_digit_ascii(dd[k - 8]);
        } else if 11 <= k < 13 {
            assert(t[k] == hh[k - 11]);
            lemma_digit_ascii(hh[k - 11]);
        } else if 14 <= k < 16 {
            assert(t[k] == mi[k - 14]);
            lemma_digit_ascii(mi[k - 14]);
        } else if 17 <= k < 19 {
            assert(t[k] == ss[k - 17]);
            lemma_digit_ascii(ss[k - 17]);
        } else if k == 4 || k == 7 {
            assert(t[k] == '-');
        } else if k == 10 {
            assert(t[k] == 'T');
        } else {
            assert(t[k] == ':');
        }
    }
    lemma_ascii_prefix_bytes(t, 19);
    lemma_utf8_len_at_least(t);
    assert(byte_slice(t, 0, 4) == Some(yy));
    assert(parsed_u16(yy) == Some(year));
    assert(byte_slice(t, 5, 7) == Some(mo));
    assert(byte_slice(t, 8, 10) == Some(dd));
    assert(byte_slice(t, 11, 13) == Some(hh));
    assert(byte_slice(t, 14, 16) == Some(mi));
    assert(byte_slice(t, 17, 19) == Some(ss));
    assert(field_u8(t, 5, 7) == Outcome::<u8, DateFault>::Done(Ok(month)));
    assert(field_u8(t, 8, 10) == Outcome::<u8, DateFault>::Done(Ok(day)));
    assert(field_u8(t, 11, 13) == Outcome::<u8, DateFault>::Done(Ok(hour)));
    assert(field_u8(t, 14, 16) == Outcome::<u8, DateFault>::Done(Ok(minute)));
    assert(field_u8(t, 17, 19) == Outcome::<u8, DateFault>::Done(Ok(second)));
}

} // verus!
