use httpc::headers::{parse_headers, HeaderParseError};

fn strings(v: &[&str]) -> Vec<String> {
    v.iter().map(|s| s.to_string()).collect()
}

#[test]
fn parse_headers_trims_both_sides() {
    let r = parse_headers(&strings(&["X-Foo: bar"])).unwrap();
    assert_eq!(r, vec![("X-Foo".to_string(), "bar".to_string())]);
    let r = parse_headers(&strings(&["  X-Foo \t:   bar  "])).unwrap();
    assert_eq!(r, vec![("X-Foo".to_string(), "bar".to_string())]);
}

#[test]
fn parse_headers_splits_on_first_colon() {
    let r = parse_headers(&strings(&["Host: example.com:8080"])).unwrap();
    assert_eq!(r, vec![("Host".to_string(), "example.com:8080".to_string())]);
}

#[test]
fn parse_headers_keeps_order_and_duplicates() {
    let r = parse_headers(&strings(&["B: 1", "A: 2", "B: 3"])).unwrap();
    assert_eq!(
        r,
        vec![
            ("B".to_string(), "1".to_string()),
            ("A".to_string(), "2".to_string()),
            ("B".to_string(), "3".to_string()),
        ]
    );
    assert_eq!(parse_headers(&Vec::new()).unwrap(), Vec::new());
}

#[test]
fn parse_headers_missing_colon() {
    let r = parse_headers(&strings(&["no-colon-here"]));
    assert_eq!(r, Err(HeaderParseError::MissingColon("no-colon-here".to_string())));
}

#[test]
fn parse_headers_invalid_name() {
    let r = parse_headers(&strings(&["Bad Name: x"]));
    assert_eq!(r, Err(HeaderParseError::InvalidHeaderName("Bad Name".to_string())));
    let r = parse_headers(&strings(&[": x"]));
    assert_eq!(r, Err(HeaderParseError::InvalidHeaderName(String::new())));
}

#[test]
fn parse_headers_non_ascii_value() {
    let r = parse_headers(&strings(&["X-Foo: caf\u{e9}"]));
    assert_eq!(r, Err(HeaderParseError::InvalidHeaderValueNonASCII("caf\u{e9}".to_string())));
}

#[test]
fn parse_headers_control_byte_in_value() {
    let r = parse_headers(&strings(&["X-Foo: a\u{1}b"]));
    assert_eq!(r, Err(HeaderParseError::InvalidHeaderValue("a\u{1}b".to_string())));
}

#[test]
fn parse_headers_stops_at_first_bad_string() {
    let r = parse_headers(&strings(&["A: 1", "oops", "Bad Name: 2"]));
    assert_eq!(r, Err(HeaderParseError::MissingColon("oops".to_string())));
}

#[test]
fn header_error_message() {
    let e = HeaderParseError::MissingColon("abc".to_string());
    assert_eq!(e.message(), "Missing colon in header: 'abc'");
    let e = HeaderParseError::InvalidHeaderValueNonASCII("x".to_string());
    assert_eq!(e.message(), "Invalid header value (not all visible ASCII): 'x'");
}

#[test]
fn parse_headers_quote_in_name() {
    let r = parse_headers(&strings(&["a\"b:c"]));
    assert_eq!(r, Err(HeaderParseError::InvalidHeaderName("a\"b".to_string())));
}
