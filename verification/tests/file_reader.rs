use ngx_laser::{ErrorReport, LineStep, LogFile, ParseLogError, Parser};

const FORMAT: &str = r#"$remote_addr - $remote_user [$time_local] "$request" $status $body_bytes_sent "$http_referer" "$http_user_agent""#;
const GOOD: &str = r#"1.2.3.4 - - [02/Feb/2020:03:59:00 +0500] "GET /x HTTP/1.1" 200 5 "-" "ua""#;

#[test]
fn lines_are_parsed_and_errors_reported_in_turn() {
    let parser = Parser::new(FORMAT).unwrap();
    let mut file = LogFile::new(&parser);
    match file.next_line(GOOD) {
        Some(LineStep::Parsed(ll)) => assert_eq!(&*ll.path, "/x"),
        other => panic!("unexpected {:?}", other),
    }
    let mut reports = Vec::new();
    for _ in 0..4 {
        match file.next_line("bad line") {
            Some(LineStep::Skipped { error, report }) => {
                assert!(matches!(error, ParseLogError::InvalidDateTime(_)));
                reports.push(report);
            }
            other => panic!("unexpected {:?}", other),
        }
    }
    assert_eq!(
        reports,
        vec![ErrorReport::Warn, ErrorReport::WarnThenDebug, ErrorReport::Debug, ErrorReport::Debug]
    );
    assert!(matches!(file.next_line(GOOD), Some(LineStep::Parsed(_))));
}

#[test]
fn a_line_the_parser_cannot_cut_gives_none() {
    let parser = Parser::new(FORMAT).unwrap();
    let mut file = LogFile::new(&parser);
    assert!(file.next_line("1.2.3.é - - [").is_none());
    // it is not counted as an error
    match file.next_line("bad") {
        Some(LineStep::Skipped { report, .. }) => assert_eq!(report, ErrorReport::Warn),
        other => panic!("unexpected {:?}", other),
    }
}
