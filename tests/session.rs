use httpc::cli::{body_display, choose_body, BodyConflict, BodyDisplay, BodySource, Color};
use httpc::message::create_http_message;
use httpc::response::{parse_http_response, Response};
use httpc::session::{prepare_url, redirect_target, should_redirect, RequestError, Session};
use httpc::url::Url;

#[test]
fn should_redirect_classes() {
    for code in 300..400u16 {
        assert!(should_redirect(code));
    }
    assert!(should_redirect(201));
    assert!(!should_redirect(200));
    assert!(!should_redirect(204));
    for code in [400u16, 404, 499, 500, 503, 599] {
        assert!(!should_redirect(code));
    }
}

#[test]
fn prepare_url_normalizes() {
    let u = prepare_url("example.com/foo/./../bar?x=1").unwrap();
    assert_eq!(u.scheme, "http");
    assert_eq!(u.authority, "example.com");
    assert_eq!(u.path, "/bar");
    assert_eq!(u.query, Some("x=1".to_string()));
}

/// Runs the hops of a session against canned responses, one per connection.
fn run(follow: bool, replies: &[&[u8]]) -> (Response, usize, Vec<String>) {
    let mut session = Session::start(
        "GET".to_string(),
        "http://example.com/start",
        &vec!["Accept: */*".to_string()],
        None,
        follow,
    )
    .unwrap();
    let mut connections = 0;
    let mut hosts = Vec::new();
    loop {
        let req = session.request();
        let (head, _) = create_http_message(&req).to_parts();
        hosts.push(format!("{}{}", req.url.authority, req.url.path));
        assert!(head.starts_with("GET "));
        let reply = replies[connections];
        connections += 1;
        let resp = parse_http_response(reply).unwrap();
        if let Some(done) = session.on_response(resp).unwrap() {
            return (done, connections, hosts);
        }
    }
}

const MOVED: &[u8] = b"HTTP/1.1 301 Moved Permanently\r\nLocation: /new\r\nContent-Length: 0\r\n\r\n";
const OK: &[u8] = b"HTTP/1.1 200 OK\r\nContent-Length: 2\r\n\r\nhi";

#[test]
fn redirect_followed_once() {
    let (resp, connections, hosts) = run(true, &[MOVED, OK]);
    assert_eq!(connections, 2);
    assert_eq!(resp.status, 200);
    assert_eq!(resp.body, b"hi".to_vec());
    assert_eq!(hosts, vec!["example.com/start".to_string(), "example.com/new".to_string()]);
}

#[test]
fn redirect_not_followed() {
    let (resp, connections, _) = run(false, &[MOVED, OK]);
    assert_eq!(connections, 1);
    assert_eq!(resp.status, 301);
    assert_eq!(resp.headers[0], ("Location".to_string(), "/new".to_string()));
}

#[test]
fn redirect_target_cases() {
    let base = Url::parse("http://example.com/path/to/place").unwrap();
    let r = parse_http_response(b"HTTP/1.1 302 Found\r\nlocation: bar\r\n\r\n").unwrap();
    assert_eq!(redirect_target(&base, &r, true), Ok(Some("http://example.com/path/to/bar".to_string())));
    assert_eq!(redirect_target(&base, &r, false), Ok(None));
    let r = parse_http_response(b"HTTP/1.1 302 Found\r\n\r\n").unwrap();
    assert_eq!(redirect_target(&base, &r, true), Ok(None));
    let r = parse_http_response(b"HTTP/1.1 200 OK\r\nLocation: /x\r\n\r\n").unwrap();
    assert_eq!(redirect_target(&base, &r, true), Ok(None));
    let r = parse_http_response("HTTP/1.1 301 X\r\nLocation: /caf\u{e9}\r\n\r\n".as_bytes()).unwrap();
    assert_eq!(redirect_target(&base, &r, true), Err(RequestError::Location));
}

#[test]
fn session_start_errors() {
    let e = Session::start("GET".to_string(), "http://example.com/", &vec!["bad".to_string()], None, true);
    assert!(matches!(e, Err(RequestError::Header(_))));
    let e = Session::start("GET".to_string(), "http://exa mple.com/", &Vec::new(), None, true);
    assert!(matches!(e, Err(RequestError::Uri(_))));
}

#[test]
fn color_choice() {
    assert_eq!(Color::Always.init(), Some(true));
    assert_eq!(Color::Auto.init(), None);
    assert_eq!(Color::Never.init(), Some(false));
}

#[test]
fn body_choice() {
    assert!(matches!(choose_body(&Some("a".to_string()), &Some("f".to_string())), Err(BodyConflict)));
    match choose_body(&Some("{\"k\":1}".to_string()), &None) {
        Ok(BodySource::Inline(b)) => assert_eq!(b, b"{\"k\":1}".to_vec()),
        _ => panic!("expected inline data"),
    }
    assert!(matches!(choose_body(&None, &Some("f.txt".to_string())), Ok(BodySource::File(p)) if p == "f.txt"));
    assert!(matches!(choose_body(&None, &None), Ok(BodySource::Empty)));
}

#[test]
fn display_by_content_type() {
    let r = parse_http_response(b"HTTP/1.1 200 OK\r\nContent-Type: text/html\r\n\r\n").unwrap();
    assert_eq!(body_display(&r), BodyDisplay::Text);
    let r = parse_http_response(b"HTTP/1.1 200 OK\r\ncontent-type: application/json\r\n\r\n").unwrap();
    assert_eq!(body_display(&r), BodyDisplay::Text);
    let r = parse_http_response(b"HTTP/1.1 200 OK\r\nContent-Type: image/png\r\n\r\n").unwrap();
    assert_eq!(body_display(&r), BodyDisplay::Binary);
    let r = parse_http_response(b"HTTP/1.1 200 OK\r\n\r\n").unwrap();
    assert_eq!(body_display(&r), BodyDisplay::NoContentType);
}
