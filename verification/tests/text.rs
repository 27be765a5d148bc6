use ngx_laser::text::{byte_range, chars_of, push_decimal, push_padded2};
use ngx_laser::{Date, IntFault, ParseDateTimeError, ParseLogError, Parser};

fn day(s: &str) -> Result<Date, ParseDateTimeError> {
    Date::with_implicit(s, Some(2000), Some(1))
}

#[test]
fn integers_read_as_str_parse_reads_them() {
    assert_eq!(day("7").unwrap().day, 7);
    assert_eq!(day("+7").unwrap().day, 7);
    assert_eq!(day("007").unwrap().day, 7);
    // over 255: no u8
    assert!(matches!(day("256"), Err(ParseDateTimeError::IntExpected(_, IntFault::PosOverflow))));
    assert!(matches!(day(""), Err(ParseDateTimeError::IntExpected(_, IntFault::Empty))));
    assert!(matches!(day("+"), Err(ParseDateTimeError::IntExpected(_, IntFault::InvalidDigit))));
    assert!(matches!(day("-1"), Err(ParseDateTimeError::IntExpected(_, IntFault::InvalidDigit))));
    assert!(matches!(day(" 1"), Err(ParseDateTimeError::IntExpected(_, IntFault::InvalidDigit))));
    // a u16 year
    assert_eq!(Date::with_implicit("65535/1/1", None, None).unwrap().year, 65535);
    assert!(matches!(
        Date::with_implicit("65536/1/1", None, None),
        Err(ParseDateTimeError::IntExpected(_, IntFault::PosOverflow))
    ));
}

#[test]
fn bytes_sent_read_as_u64() {
    let parser = Parser::new("$status $body_bytes_sent [$time_local]").unwrap();
    let ll = parser.parse("200 18446744073709551615 [10/Jan/2021:10:27:01 +0000]").unwrap();
    assert_eq!(ll.bytes_sent, u64::MAX);
    assert!(matches!(
        parser.parse("200 18446744073709551616 [10/Jan/2021:10:27:01 +0000]"),
        Err(ParseLogError::IntExpected(_, IntFault::PosOverflow))
    ));
}

#[test]
fn byte_ranges_follow_characters() {
    let s = "aé-b";
    let cs = chars_of(s);
    assert_eq!(cs, vec!['a', 'é', '-', 'b']);
    assert_eq!(byte_range(s, &cs, 0, 1), Some("a"));
    assert_eq!(byte_range(s, &cs, 1, 3), Some("é"));
    assert_eq!(byte_range(s, &cs, 0, 2), None);
    assert_eq!(byte_range(s, &cs, 3, 5), Some("-b"));
    assert_eq!(byte_range(s, &cs, 3, 6), None);
}

#[test]
fn writing_numbers() {
    let mut s = String::from("x");
    push_decimal(&mut s, 0);
    push_decimal(&mut s, 1207);
    push_padded2(&mut s, 3);
    push_padded2(&mut s, 45);
    push_padded2(&mut s, 123);
    assert_eq!(s, "x012070345123");
}
