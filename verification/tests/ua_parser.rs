use ngx_laser::ua_parser::parse;

#[test]
fn product_names_of_a_browser() {
    let r = parse("Mozilla/5.0 (X11; Linux x86_64) AppleWebKit/537.36 (KHTML, like Gecko)");
    assert_eq!(
        r,
        vec!["Mozilla", "X11", "Linux", "x86_64", "AppleWebKit", "KHTML,", "like", "Gecko"]
    );
}

#[test]
fn empty_pieces_are_kept() {
    assert_eq!(parse(""), vec![""]);
    assert_eq!(parse("a  b"), vec!["a", "", "b"]);
    assert_eq!(parse("(;)/x"), vec![""]);
}

#[test]
fn tokens_hold_no_separators() {
    for tok in parse("curl/7.68.0 (x86_64-pc-linux-gnu) libcurl/7.68.0 a;b(c)d/e") {
        assert!(!tok.contains(' ') && !tok.contains('/') && !tok.contains('('));
        assert!(!tok.contains(')') && !tok.contains(';'));
    }
}
