use httpc::message::{create_http_message, Request};
use httpc::url::Url;

fn request(headers: &[(&str, &str)], body: Option<&[u8]>) -> Request {
    Request {
        method: "POST".to_string(),
        url: Url::parse("http://example.com/a/b?q=1").unwrap(),
        headers: headers.iter().map(|(n, v)| (n.to_string(), v.to_string())).collect(),
        body: body.map(|b| b.to_vec()),
    }
}

fn count(head: &str, name: &str) -> usize {
    head.lines()
        .filter(|l| l.to_ascii_lowercase().starts_with(&format!("{}:", name.to_ascii_lowercase())))
        .count()
}

#[test]
fn default_headers_added_once() {
    let m = create_http_message(&request(&[], Some(b"hello")));
    let (head, body) = m.to_parts();
    assert_eq!(
        head,
        "POST /a/b?q=1 HTTP/1.1\r\nHost: example.com:80\r\nUser-Agent: httpc/0.1.0\r\nConnection: close\r\nContent-Length: 5\r\n\r\n"
    );
    assert_eq!(body, b"hello".to_vec());
    for name in ["Host", "User-Agent", "Connection", "Content-Length"] {
        assert_eq!(count(&head, name), 1);
    }
}

#[test]
fn no_content_length_without_body() {
    let m = create_http_message(&request(&[], None));
    let (head, body) = m.to_parts();
    assert_eq!(count(&head, "Content-Length"), 0);
    assert!(body.is_empty());
    assert_eq!(
        head,
        "POST /a/b?q=1 HTTP/1.1\r\nHost: example.com:80\r\nUser-Agent: httpc/0.1.0\r\nConnection: close\r\n\r\n"
    );
}

#[test]
fn explicit_headers_suppress_defaults() {
    let m = create_http_message(&request(
        &[("host", "other"), ("USER-AGENT", "me"), ("Connection", "keep-alive"), ("content-length", "2")],
        Some(b"hello"),
    ));
    let (head, _) = m.to_parts();
    assert_eq!(
        head,
        "POST /a/b?q=1 HTTP/1.1\r\nhost: other\r\nUSER-AGENT: me\r\nConnection: keep-alive\r\ncontent-length: 2\r\n\r\n"
    );
    for name in ["Host", "User-Agent", "Connection", "Content-Length"] {
        assert_eq!(count(&head, name), 1);
    }
}

#[test]
fn caller_headers_keep_order_before_defaults() {
    let m = create_http_message(&request(&[("X-A", "1"), ("X-A", "2")], None));
    assert_eq!(m.method, "POST");
    assert_eq!(m.abs_path, "/a/b?q=1");
    assert_eq!(m.version, "HTTP/1.1");
    let names: Vec<&str> = m.headers.iter().map(|(n, _)| n.as_str()).collect();
    assert_eq!(names, vec!["X-A", "X-A", "Host", "User-Agent", "Connection"]);
}
