use ngx_laser::datetime::month_abbreviation;
use ngx_laser::{unique_year_month, Date, DateTime, ParseDateTimeError, Time};

fn dt(y: u16, mo: u8, d: u8, h: u8, mi: u8, s: u8) -> DateTime {
    DateTime {
        date: Date { year: y, month: mo, day: d },
        time: Time { hour: h, minute: mi, second: s },
    }
}

#[test]
fn from_nginx_common_log_format() {
    let r = DateTime::from_nginx("10/Jan/2021:10:27:01 +0000").unwrap();
    assert_eq!(r, dt(2021, 1, 10, 10, 27, 1));
    let r = DateTime::from_nginx("01/Dec/2021:23:28:00 +0300").unwrap();
    assert_eq!(r, dt(2021, 12, 1, 23, 28, 0));
}

#[test]
fn from_nginx_iso_8601() {
    let r = DateTime::from_nginx("1977-04-22T01:00:00-05:00").unwrap();
    assert_eq!(r, dt(1977, 4, 22, 1, 0, 0));
}

#[test]
fn from_nginx_short_is_unexpected_end() {
    assert!(matches!(
        DateTime::from_nginx("10/Jan/2021:10:27:0"),
        Err(ParseDateTimeError::UnexpectedEnd)
    ));
}

#[test]
fn from_nginx_unknown_month_keeps_the_input() {
    match DateTime::from_nginx("10/Foo/2021:10:27:01 +0000") {
        Err(ParseDateTimeError::UnrecognizedMonth(s)) => {
            assert_eq!(s, "10/Foo/2021:10:27:01 +0000")
        }
        other => panic!("unexpected {:?}", other),
    }
}

#[test]
fn from_nginx_checks_ranges() {
    assert!(matches!(
        DateTime::from_nginx("32/Jan/2021:10:27:01 +0000"),
        Err(ParseDateTimeError::InvalidDay(32))
    ));
    assert!(matches!(
        DateTime::from_nginx("1977-13-22T01:00:00-05:00"),
        Err(ParseDateTimeError::InvalidMonth(13))
    ));
    assert!(matches!(
        DateTime::from_nginx("1977-12-22T24:00:00-05:00"),
        Err(ParseDateTimeError::InvalidHour(24))
    ));
    assert!(matches!(
        DateTime::from_nginx("1977-12-22T23:60:00-05:00"),
        Err(ParseDateTimeError::InvalidMinute(60))
    ));
    // the second is checked before the minute
    assert!(matches!(
        DateTime::from_nginx("1977-12-22T23:60:61-05:00"),
        Err(ParseDateTimeError::InvalidSecond(61))
    ));
}

#[test]
fn from_nginx_non_digits_are_int_expected() {
    assert!(matches!(
        DateTime::from_nginx("1977-xx-22T01:00:00-05:00"),
        Err(ParseDateTimeError::IntExpected(_, _))
    ));
    assert!(matches!(
        DateTime::from_nginx("aa/Jan/2021:10:27:01 +0000"),
        Err(ParseDateTimeError::IntExpected(_, _))
    ));
}

#[test]
fn try_from_nginx_none_inside_a_character() {
    // byte 5 falls inside the two-byte 'é'
    assert!(DateTime::try_from_nginx("1977éé-22T01:00:00-05:00").is_none());
    // the same bytes, a valid string, parse through both forms
    assert_eq!(
        DateTime::try_from_nginx("1977-04-22T01:00:00-05:00").unwrap().unwrap(),
        dt(1977, 4, 22, 1, 0, 0)
    );
}

#[test]
fn new_validates_date_then_time() {
    assert!(matches!(DateTime::new(2020, 0, 0, 25, 0, 0), Err(ParseDateTimeError::InvalidDay(0))));
    assert!(matches!(DateTime::new(2020, 0, 1, 25, 0, 0), Err(ParseDateTimeError::InvalidMonth(0))));
    assert!(matches!(DateTime::new(2020, 1, 1, 25, 0, 0), Err(ParseDateTimeError::InvalidHour(25))));
    assert_eq!(DateTime::new(2020, 2, 29, 12, 0, 0).unwrap(), dt(2020, 2, 29, 12, 0, 0));
}

#[test]
fn date_from_nginx_both_forms() {
    assert_eq!(Date::from_nginx("10/Jan/2021").unwrap(), Date { year: 2021, month: 1, day: 10 });
    assert_eq!(Date::from_nginx("1977-04-22T").unwrap(), Date { year: 1977, month: 4, day: 22 });
    assert!(matches!(Date::from_nginx("1977-04-2"), Err(ParseDateTimeError::UnexpectedEnd)));
}

#[test]
fn with_implicit_three_parts() {
    assert_eq!(
        Date::with_implicit("2021/3/4", None, None).unwrap(),
        Date { year: 2021, month: 3, day: 4 }
    );
    // a fourth part is ignored
    assert_eq!(
        Date::with_implicit("2021/3/4/9", None, None).unwrap(),
        Date { year: 2021, month: 3, day: 4 }
    );
}

#[test]
fn with_implicit_two_parts() {
    assert_eq!(
        Date::with_implicit("3/4", Some(2020), None).unwrap(),
        Date { year: 2020, month: 3, day: 4 }
    );
    match Date::with_implicit("3/4", None, Some(3)) {
        Err(ParseDateTimeError::AmbiguousDate(s)) => assert_eq!(s, "3/4"),
        other => panic!("unexpected {:?}", other),
    }
}

#[test]
fn with_implicit_one_part() {
    assert_eq!(
        Date::with_implicit("17", Some(2020), Some(6)).unwrap(),
        Date { year: 2020, month: 6, day: 17 }
    );
    assert!(matches!(
        Date::with_implicit("17", Some(2020), None),
        Err(ParseDateTimeError::AmbiguousDate(_))
    ));
    assert!(matches!(
        Date::with_implicit("x", Some(2020), Some(6)),
        Err(ParseDateTimeError::IntExpected(_, _))
    ));
    assert!(matches!(
        Date::with_implicit("40", Some(2020), Some(6)),
        Err(ParseDateTimeError::InvalidDay(40))
    ));
}

#[test]
fn date_text_reads_back() {
    for d in [
        Date { year: 2021, month: 1, day: 9 },
        Date { year: 7, month: 12, day: 31 },
        Date { year: 65535, month: 10, day: 10 },
    ] {
        let s = d.to_string();
        assert_eq!(Date::with_implicit(&s, None, None).unwrap(), d);
        assert_eq!(Date::with_implicit(&s, Some(1), Some(1)).unwrap(), d);
    }
}

#[test]
fn texts() {
    assert_eq!(Date { year: 2021, month: 1, day: 9 }.to_string(), "2021/01/09");
    assert_eq!(Time { hour: 3, minute: 4, second: 59 }.to_string(), "03:04:59");
    assert_eq!(dt(2021, 1, 22, 2, 49, 30).to_string(), "2021/01/22T02:49:30");
    assert_eq!(dt(5, 10, 22, 12, 0, 0).to_string(), "5/10/22T12:00:00");
}

#[test]
fn time_from_str() {
    assert_eq!(Time::from_str("12").unwrap(), Time { hour: 12, minute: 0, second: 0 });
    assert_eq!(Time::from_str("12:30").unwrap(), Time { hour: 12, minute: 30, second: 0 });
    // only one digit of the second is read
    assert_eq!(Time::from_str("12:30:45").unwrap(), Time { hour: 12, minute: 30, second: 4 });
    assert!(matches!(Time::from_str("1"), Err(ParseDateTimeError::UnexpectedEnd)));
    assert!(matches!(Time::from_str("24"), Err(ParseDateTimeError::InvalidHour(24))));
    assert!(Time::try_from_str("1é").is_none());
}

#[test]
fn round_up_and_down() {
    let d = Date { year: 2021, month: 5, day: 6 };
    assert_eq!(DateTime::round_up(d, None).time, Time { hour: 23, minute: 59, second: 59 });
    assert_eq!(DateTime::round_down(d, None).time, Time { hour: 0, minute: 0, second: 0 });
    let t = Time { hour: 1, minute: 2, second: 3 };
    assert_eq!(DateTime::round_up(d, Some(t)), DateTime { date: d, time: t });
    assert_eq!(DateTime::round_down(d, Some(t)), DateTime { date: d, time: t });
}

#[test]
fn unique_year_month_cases() {
    let a = Date { year: 2021, month: 5, day: 6 };
    let b = Date { year: 2021, month: 5, day: 20 };
    let c = Date { year: 2021, month: 7, day: 1 };
    let e = Date { year: 2022, month: 5, day: 6 };
    assert_eq!(unique_year_month(a, b), (Some(2021), Some(5)));
    assert_eq!(unique_year_month(a, c), (Some(2021), None));
    assert_eq!(unique_year_month(a, e), (None, None));
}

#[test]
fn month_names() {
    assert_eq!(month_abbreviation(0), "Jan");
    assert_eq!(month_abbreviation(11), "Dec");
}
