use httpc::response::{parse_http_response, ParseError};

#[test]
fn content_length_body() {
    let r = parse_http_response(b"HTTP/1.1 200 OK\r\nContent-Length: 5\r\n\r\nhello").unwrap();
    assert_eq!(r.status, 200);
    assert_eq!(r.headers, vec![("Content-Length".to_string(), "5".to_string())]);
    assert_eq!(r.body, b"hello".to_vec());
}

#[test]
fn chunked_body() {
    let r = parse_http_response(
        b"HTTP/1.1 200 OK\r\nTransfer-Encoding: chunked\r\n\r\n5\r\nhello\r\n0\r\n\r\n",
    )
    .unwrap();
    assert_eq!(r.status, 200);
    assert_eq!(r.body, b"hello".to_vec());
}

#[test]
fn chunked_with_extension_and_trailer() {
    let r = parse_http_response(
        b"HTTP/1.1 200 OK\r\ntransfer-encoding: gzip, CHUNKED\r\n\r\n3;name=val\r\nabc\r\nA\r\n0123456789\r\n0\r\nX-Trailer: t\r\n\r\n",
    )
    .unwrap();
    assert_eq!(r.body, b"abc0123456789".to_vec());
    assert_eq!(r.headers.len(), 1);
}

#[test]
fn chunked_wins_over_content_length() {
    let r = parse_http_response(
        b"HTTP/1.1 200 OK\r\nContent-Length: 2\r\nTransfer-Encoding: chunked\r\n\r\n3\r\nabc\r\n0\r\n\r\n",
    )
    .unwrap();
    assert_eq!(r.body, b"abc".to_vec());
}

#[test]
fn no_content_length_means_empty_body() {
    let r = parse_http_response(b"HTTP/1.1 204 No Content\r\nX: y\r\n\r\nextra bytes").unwrap();
    assert_eq!(r.status, 204);
    assert!(r.body.is_empty());
}

#[test]
fn short_content_length_truncates() {
    let r = parse_http_response(b"HTTP/1.1 200 OK\r\ncontent-length: 3\r\n\r\nhello").unwrap();
    assert_eq!(r.body, b"hel".to_vec());
}

#[test]
fn duplicate_headers_appended() {
    let r = parse_http_response(b"HTTP/1.1 200 OK\r\nSet-Cookie: a=1\r\nSet-Cookie: b=2\r\n\r\n").unwrap();
    assert_eq!(
        r.headers,
        vec![
            ("Set-Cookie".to_string(), "a=1".to_string()),
            ("Set-Cookie".to_string(), "b=2".to_string()),
        ]
    );
}

#[test]
fn incomplete_input() {
    assert_eq!(parse_http_response(b"HTTP/1.1 200 OK\r\nContent-Le").err(), Some(ParseError::Incomplete));
    assert_eq!(
        parse_http_response(b"HTTP/1.1 200 OK\r\nContent-Length: 10\r\n\r\nhello").err(),
        Some(ParseError::Incomplete)
    );
    assert_eq!(
        parse_http_response(b"HTTP/1.1 200 OK\r\nTransfer-Encoding: chunked\r\n\r\n5\r\nhel").err(),
        Some(ParseError::Incomplete)
    );
    assert_eq!(parse_http_response(b"").err(), Some(ParseError::Incomplete));
}

#[test]
fn missing_status_code() {
    assert_eq!(parse_http_response(b"\r\n").err(), Some(ParseError::MissingStatusCode));
    assert_eq!(parse_http_response(b"HTTP/1.1\r\n\r\n").err(), Some(ParseError::MissingStatusCode));
}

#[test]
fn malformed_status_line() {
    assert_eq!(parse_http_response(b"HTTP/1.1 abc OK\r\n\r\n").err(), Some(ParseError::MalformedStatusLine));
    assert_eq!(parse_http_response(b"HTTP/1.1 70000 OK\r\n\r\n").err(), Some(ParseError::MalformedStatusLine));
    assert_eq!(parse_http_response(b"HTTP/1.1 \xff\r\n\r\n").err(), Some(ParseError::MalformedStatusLine));
}

#[test]
fn malformed_header_line() {
    assert_eq!(parse_http_response(b"HTTP/1.1 200 OK\r\nno colon\r\n\r\n").err(), Some(ParseError::MalformedHeaderLine));
    assert_eq!(
        parse_http_response(b"HTTP/1.1 200 OK\r\nContent-Length: five\r\n\r\n").err(),
        Some(ParseError::MalformedHeaderLine)
    );
    assert_eq!(parse_http_response(b"HTTP/1.1 200 OK\r\nBad Name: x\r\n\r\n").err(), Some(ParseError::MalformedHeaderLine));
}

#[test]
fn malformed_chunk_size() {
    assert_eq!(
        parse_http_response(b"HTTP/1.1 200 OK\r\nTransfer-Encoding: chunked\r\n\r\nzz\r\nhello\r\n0\r\n\r\n").err(),
        Some(ParseError::MalformedChunkSize)
    );
}

#[test]
fn status_code_with_plus_sign() {
    let r = parse_http_response(b"HTTP/1.1 +404 Not Found\r\n\r\n").unwrap();
    assert_eq!(r.status, 404);
}

#[test]
fn quote_in_response_header_name() {
    assert_eq!(
        parse_http_response(b"HTTP/1.1 200 OK\r\nX\"Y: 1\r\n\r\n").err(),
        Some(ParseError::MalformedHeaderLine)
    );
}
