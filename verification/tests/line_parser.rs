use ngx_laser::{Method, ParseLogError, Parser};

#[test]
fn parse_sio_with_default_formate() {
    let format: &str = r#"$remote_addr - $remote_user [$time_local] "$request" $status $body_bytes_sent "$http_referer" "$http_user_agent""#;
    let parser = Parser::new(format).unwrap();
    let line: &str = r#"10.232.28.160 - - [22/Jan/2021:02:49:30 +0000] "GET /socket.io/?EIO=3&transport=polling&t=NSd_nu- HTTP/1.1" 200 99 "https://miaou.dystroy.org/3" "Mozilla/5.0 (X11; Linux x86_64) AppleWebKit/537.36 (KHTML, like Gecko) Chrome/73.0.3683.103 Safari/537.36""#;
    let ll = parser.parse(line).unwrap();

    assert_eq!(&*ll.remote_addr, "10.232.28.160");
    assert_eq!(ll.method, Method::Get);
    assert_eq!(&*ll.path, "/socket.io/?EIO=3&transport=polling&t=NSd_nu-");
    assert_eq!(ll.status, 200);
    assert_eq!(ll.bytes_sent, 99);
    assert_eq!(&*ll.referer, "https://miaou.dystroy.org/3");
}

#[test]
fn parse_line_with_custom_formate() {
    let format: &str = r#""$time_local" client=$remote_addr method=$request_method request="$request" request_length=$request_length status=$status bytes_sent=$bytes_sent body_bytes_sent=$body_bytes_sent referer=$http_referer user_agent="$http_user_agent" upstream_addr=$upstream_addr upstream_status=$upstream_status request_time=$request_time upstream_response_time=$upstream_response_time"#;
    let parser = Parser::new(format).unwrap();
    let line: &str = r#""23/Jun/2023:03:17:47 +0300" client=10.4.44.30 method=GET request="GET /api/notifications/?limit=10000&notification_type=4,5 HTTP/1.1" request_length=1217 status=200 bytes_sent=325 body_bytes_sent=52 referer=https://vk.ecur.mosreg.ru/junior_controller/petitions/waiting_review?s=published%7C0 user_agent="Mozilla/5.0 (Windows NT 6.3; Win64; x64) AppleWebKit/537.36 (KHTML, like Gecko) Chrome/83.0.4103.116 (Chromium GOST) Safari/537.36" upstream_addr=10.10.19.137:8000 upstream_status=200 request_time=0.032 upstream_response_time=0.032"#;
    let ll = parser.parse(line).unwrap();

    assert_eq!(&*ll.remote_addr, "10.4.44.30");
    assert_eq!(ll.method, Method::Get);
    assert_eq!(
        &*ll.path,
        "/api/notifications/?limit=10000&notification_type=4,5"
    );
    assert_eq!(ll.status, 200);
    assert_eq!(ll.bytes_sent, 52);
    assert_eq!(
        &*ll.referer,
        "https://vk.ecur.mosreg.ru/junior_controller/petitions/waiting_review?s=published%7C0"
    );
}

const DEFAULT_FORMAT: &str = r#"$remote_addr - $remote_user [$time_local] "$request" $status $body_bytes_sent "$http_referer" "$http_user_agent""#;

#[test]
fn parse_keeps_date_time_and_agent() {
    let parser = Parser::new(DEFAULT_FORMAT).unwrap();
    let line = r#"1.2.3.4 - - [02/Feb/2020:03:59:00 +0500] "POST /login HTTP/1.1" 302 0 "-" "curl/7.68.0""#;
    let ll = parser.parse(line).unwrap();
    assert_eq!(ll.method, Method::Post);
    assert_eq!(&*ll.path, "/login");
    assert_eq!(ll.status, 302);
    assert_eq!(ll.bytes_sent, 0);
    assert_eq!(&*ll.referer, "-");
    assert_eq!(&*ll.agent, "curl/7.68.0");
    assert_eq!(ll.date_time.to_string(), "2020/02/02T03:59:00");
}

#[test]
fn parse_request_without_method() {
    let parser = Parser::new(DEFAULT_FORMAT).unwrap();
    let line = r#"1.2.3.4 - - [02/Feb/2020:03:59:00 +0500] "/alone" 200 10 "-" "x""#;
    let ll = parser.parse(line).unwrap();
    assert_eq!(ll.method, Method::Absent);
    assert_eq!(&*ll.path, "/alone");
}

#[test]
fn parse_unknown_method_is_other() {
    let parser = Parser::new(DEFAULT_FORMAT).unwrap();
    let line = r#"1.2.3.4 - - [02/Feb/2020:03:59:00 +0500] "BREW /pot HTTP/1.1" 418 10 "-" "x""#;
    let ll = parser.parse(line).unwrap();
    assert_eq!(ll.method, Method::Other);
    assert_eq!(ll.status, 418);
}

#[test]
fn parse_bad_status_is_int_expected() {
    let parser = Parser::new(DEFAULT_FORMAT).unwrap();
    let line = r#"1.2.3.4 - - [02/Feb/2020:03:59:00 +0500] "GET / HTTP/1.1" abc 10 "-" "x""#;
    assert!(matches!(parser.parse(line), Err(ParseLogError::IntExpected(_, _))));
}

#[test]
fn parse_bad_bytes_is_int_expected() {
    let parser = Parser::new(DEFAULT_FORMAT).unwrap();
    let line = r#"1.2.3.4 - - [02/Feb/2020:03:59:00 +0500] "GET / HTTP/1.1" 200 -5 "-" "x""#;
    assert!(matches!(parser.parse(line), Err(ParseLogError::IntExpected(_, _))));
}

#[test]
fn parse_bad_date_is_invalid_date_time() {
    let parser = Parser::new(DEFAULT_FORMAT).unwrap();
    let line = r#"1.2.3.4 - - [02/Foo/2020:03:59:00 +0500] "GET / HTTP/1.1" 200 5 "-" "x""#;
    assert!(matches!(
        parser.parse(line),
        Err(ParseLogError::InvalidDateTime(ngx_laser::ParseDateTimeError::UnrecognizedMonth(_)))
    ));
}

#[test]
fn parse_short_line_is_unexpected_end() {
    let parser = Parser::new(DEFAULT_FORMAT).unwrap();
    assert!(matches!(
        parser.parse("garbage"),
        Err(ParseLogError::InvalidDateTime(ngx_laser::ParseDateTimeError::UnexpectedEnd))
    ));
}

#[test]
fn try_parse_gives_none_where_a_value_ends_in_a_wide_character() {
    let parser = Parser::new(DEFAULT_FORMAT).unwrap();
    // the remote address ends in a two-byte character
    let line = r#"1.2.3.é - - [02/Feb/2020:03:59:00 +0500] "GET / HTTP/1.1" 200 5 "-" "x""#;
    assert!(parser.try_parse(line).is_none());
}

#[test]
fn try_parse_agrees_with_parse() {
    let parser = Parser::new(DEFAULT_FORMAT).unwrap();
    let line = r#"1.2.3.4 - - [02/Feb/2020:03:59:00 +0500] "GET /a.css HTTP/1.1" 200 5 "-" "x""#;
    let a = parser.try_parse(line).unwrap().unwrap();
    let b = parser.parse(line).unwrap();
    assert_eq!(a.path, b.path);
    assert!(a.is_resource());
}

#[test]
fn empty_format_cannot_parse() {
    let parser = Parser::new("").unwrap();
    assert!(parser.try_parse("anything").is_none());
}

#[test]
fn format_ending_in_variable_reads_to_newline() {
    let parser = Parser::new("[$time_local] $remote_addr").unwrap();
    let ll = parser.parse("[2021-01-02T03:04:05+00:00] 9.9.9.9\n");
    // status and bytes are missing: the status is no integer
    assert!(matches!(ll, Err(ParseLogError::IntExpected(_, _))));
}

#[test]
fn values_of_unknown_variables_do_not_matter() {
    let parser = Parser::new(r#"$remote_addr $request_time [$time_local] "$request" $status $bytes_sent $body_bytes_sent"#).unwrap();
    let one = parser
        .parse("1.2.3.4 0.032 [02/Feb/2020:03:59:00 +0500] \"GET /a HTTP/1.1\" 200 325 52\n")
        .unwrap();
    let two = parser
        .parse("1.2.3.4 9.999 [02/Feb/2020:03:59:00 +0500] \"GET /a HTTP/1.1\" 200 77777 52\n")
        .unwrap();
    assert_eq!(one.remote_addr, two.remote_addr);
    assert_eq!(one.date_time, two.date_time);
    assert_eq!(one.method, two.method);
    assert_eq!(one.path, two.path);
    assert_eq!(one.status, two.status);
    assert_eq!(one.bytes_sent, 52);
    assert_eq!(two.bytes_sent, 52);
}

#[test]
fn combined_line_reads_back_with_any_tail() {
    let parser = Parser::new(DEFAULT_FORMAT).unwrap();
    let ll = parser
        .parse(r#"5.6.7.8 - bob [10/Mar/2022:11:12:13 +0100] "PUT /x/y HTTP/2" 201 42 "ref" "ua" and more"#)
        .unwrap();
    assert_eq!(&*ll.remote_addr, "5.6.7.8");
    assert_eq!(ll.method, Method::Put);
    assert_eq!(&*ll.path, "/x/y");
    assert_eq!(ll.status, 201);
    assert_eq!(ll.bytes_sent, 42);
    assert_eq!(&*ll.referer, "ref");
    assert_eq!(&*ll.agent, "ua");
}

#[test]
fn int_errors_tell_their_kind() {
    let parser = Parser::new(DEFAULT_FORMAT).unwrap();
    let bad = r#"1.2.3.4 - - [02/Feb/2020:03:59:00 +0500] "GET / HTTP/1.1" 99999 10 "-" "x""#;
    assert!(matches!(
        parser.parse(bad),
        Err(ParseLogError::IntExpected(_, ngx_laser::IntFault::PosOverflow))
    ));
    let bad = r#"1.2.3.4 - - [02/Feb/2020:03:59:00 +0500] "GET / HTTP/1.1" 200 + "-" "x""#;
    assert!(matches!(
        parser.parse(bad),
        Err(ParseLogError::IntExpected(_, ngx_laser::IntFault::InvalidDigit))
    ));
}

#[test]
fn unknown_last_value_needs_no_closing_separator() {
    let parser = Parser::new(r#"$remote_addr [$time_local] "$request" $status $body_bytes_sent $request_time"#).unwrap();
    let one = parser
        .parse(r#"1.2.3.4 [02/Feb/2020:03:59:00 +0500] "GET /a HTTP/1.1" 200 52 0.032"#)
        .unwrap();
    let two = parser
        .parse(r#"1.2.3.4 [02/Feb/2020:03:59:00 +0500] "GET /a HTTP/1.1" 200 52 17.5"#)
        .unwrap();
    assert_eq!(one.remote_addr, two.remote_addr);
    assert_eq!(one.date_time, two.date_time);
    assert_eq!(one.path, two.path);
    assert_eq!(one.status, 200);
    assert_eq!(two.bytes_sent, 52);
}

#[test]
fn ascii_lines_never_panic_with_the_combined_format() {
    let parser = Parser::new(DEFAULT_FORMAT).unwrap();
    for line in ["", "x", "- - [", "1 - 2 [3] \"4\" 5 6 \"7\" \"8\"", "a - b [01/Jan/2020:00:00:00 +0000] \"c\" 1 2 \"d\" \"e\""] {
        assert!(parser.try_parse(line).is_some());
    }
}
