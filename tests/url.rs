use httpc::url::{ensure_starts_with_schema, flatten_path, get_authority, resolve_url, UriError, Url};

fn base() -> Url {
    Url::parse("http://example.com/path/to/place").unwrap()
}

#[test]
fn flatten_path_examples() {
    assert_eq!(flatten_path("/./test"), "/test");
    assert_eq!(flatten_path("/../test"), "/test");
    assert_eq!(flatten_path("/foo/./test"), "/foo/test");
    assert_eq!(flatten_path("/foo/../test"), "/test");
    assert_eq!(flatten_path("/foo/./../test"), "/test");
}

#[test]
fn flatten_path_edge_cases() {
    assert_eq!(flatten_path(".."), "/");
    assert_eq!(flatten_path("/.."), "/");
    assert_eq!(flatten_path(""), "/");
    assert_eq!(flatten_path("/"), "/");
    assert_eq!(flatten_path("/a/b/"), "/a/b/");
    assert_eq!(flatten_path("/a/b/../../../c"), "/c");
}

#[test]
fn parse_url_parts() {
    let u = Url::parse("https://example.com:8443/a/b?x=1").unwrap();
    assert_eq!(u.scheme, "https");
    assert_eq!(u.authority, "example.com:8443");
    assert_eq!(u.host, "example.com");
    assert_eq!(u.port, Some(8443));
    assert_eq!(u.path, "/a/b");
    assert_eq!(u.query, Some("x=1".to_string()));
}

#[test]
fn parse_url_errors() {
    assert!(matches!(Url::parse("/only/a/path"), Err(UriError::MissingScheme)));
    assert!(matches!(Url::parse("http://exa mple.com/"), Err(UriError::Invalid)));
}

#[test]
fn resolve_absolute_path() {
    assert_eq!(resolve_url(&base(), "/foo"), "http://example.com/foo");
    assert_eq!(resolve_url(&base(), "/a/./b/../c"), "http://example.com/a/c");
}

#[test]
fn resolve_query_only() {
    assert_eq!(resolve_url(&base(), "?x=1"), "http://example.com/path/to/place?x=1");
}

#[test]
fn resolve_relative() {
    assert_eq!(resolve_url(&base(), "bar"), "http://example.com/path/to/bar");
    assert_eq!(resolve_url(&base(), "../bar"), "http://example.com/path/bar");
}

#[test]
fn resolve_absolute_url_unchanged() {
    assert_eq!(resolve_url(&base(), "https://other.org/x"), "https://other.org/x");
    assert_eq!(resolve_url(&base(), "http://other.org"), "http://other.org");
}

#[test]
fn authority_ports() {
    assert_eq!(get_authority(&Url::parse("http://example.com/").unwrap()), "example.com:80");
    assert_eq!(get_authority(&Url::parse("https://example.com/").unwrap()), "example.com:443");
    assert_eq!(get_authority(&Url::parse("https://example.com:8443/").unwrap()), "example.com:8443");
    assert_eq!(get_authority(&Url::parse("ftp://example.com/").unwrap()), "example.com:80");
}

#[test]
fn schema_defaulting() {
    assert_eq!(ensure_starts_with_schema("example.com"), "http://example.com");
    assert_eq!(ensure_starts_with_schema("http://example.com"), "http://example.com");
    assert_eq!(ensure_starts_with_schema("https://example.com"), "https://example.com");
    assert_eq!(ensure_starts_with_schema("ftp://example.com"), "http://ftp://example.com");
}

#[test]
fn flatten_path_twice_is_once() {
    for p in ["/foo/./../test", "..", "/a//b/../", "x/y/./z", "/"] {
        let once = flatten_path(p);
        assert_eq!(flatten_path(&once), once);
    }
}
