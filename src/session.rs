//! The request sequence: preparing the first URL, and after each response
//! deciding whether it is final or which URL the next hop goes to.

use vstd::prelude::*;
use crate::headers::{all_visible, headers_spec, is_visible, pairs_view, parse_headers, strings_view, HeaderParseError};
use crate::message::{body_view, copy_body, copy_headers, Request, RequestView};
use crate::response::{Response, ResponseView};
use crate::text::{chars_of, eq_ci, eq_ignore_case, string_of};
use crate::url::{ensure_starts_with_schema, opt_view, query_suffix, resolve, resolve_url, url_result_matches, url_spec, with_scheme, Url, UrlView, UriError};

verus! {

/// Whether a status code gives meaning to a `Location` header: any 3xx, and 201.
pub open spec fn is_redirect_status(code: u16) -> bool {
    (300 <= code && code <= 399) || code == 201
}

/// Whether a response with this status may be followed to its `Location`.
pub fn should_redirect(code: u16) -> (r: bool)
    ensures
        r == is_redirect_status(code),
{
    (300 <= code && code <= 399) || code == 201
}

/// The URL a request goes to: `http://` put in front where no scheme is
/// named, parsed, its path normalized, and parsed again.
pub open spec fn prepared_url(input: Seq<char>) -> Result<UrlView, UriError> {
    match url_spec(with_scheme(input)) {
        Err(e) => Err(e),
        Ok(u) => url_spec(resolve(u, u.path) + query_suffix(u)),
    }
}

/// Prepares the URL of a hop from what the user or a `Location` header gave.
pub fn prepare_url(input: &str) -> (r: Result<Url, UriError>)
    ensures
        url_result_matches(r, prepared_url(input@)),
{
    let with = ensure_starts_with_schema(input);
    let u = match Url::parse(with.as_str()) {
        Err(e) => return Err(e),
        Ok(u) => u,
    };
    let mut cs = chars_of(resolve_url(&u, u.path.as_str()).as_str());
    match &u.query {
        Some(q) => {
            cs.push('?');
            let qc = chars_of(q.as_str());
            crate::text::extend_chars(&mut cs, &qc, 0, qc.len());
            assert(qc@.subrange(0, qc@.len() as int) =~= qc@);
        },
        None => {},
    }
    assert(cs@ =~= resolve(u@, u@.path) + query_suffix(u@));
    Url::parse(string_of(cs.as_slice()).as_str())
}

pub open spec fn location_name() -> Seq<char> {
    "location"@
}

/// The value of the first header named `n` (up to ASCII case), if any.
pub open spec fn first_header(hs: Seq<(Seq<char>, Seq<char>)>, n: Seq<char>) -> Option<Seq<char>>
    decreases hs.len(),
{
    if hs.len() == 0 {
        None
    } else {
        match first_header(hs.drop_last(), n) {
            Some(v) => Some(v),
            None => if eq_ci(hs.last().0, n) {
                Some(hs.last().1)
            } else {
                None
            },
        }
    }
}

pub(crate) fn first_header_index(hs: &Vec<(String, String)>, n: &Vec<char>) -> (r: Option<usize>)
    ensures
        match r {
            Some(i) => i < hs@.len() && first_header(pairs_view(hs@), n@) == Some(hs@[i as int].1@),
            None => first_header(pairs_view(hs@), n@) is None,
        },
{
    let ghost v = pairs_view(hs@);
    let mut i: usize = 0;
    while i < hs.len()
        invariant
            i <= hs@.len(),
            v == pairs_view(hs@),
            first_header(v.take(i as int), n@) is None,
        decreases hs.len() - i,
    {
        assert(v.take(i + 1).drop_last() =~= v.take(i as int));
        let c = chars_of(hs[i].0.as_str());
        if eq_ignore_case(&c, n) {
            assert(v.take(i + 1).last() == v[i as int]);
            assert(first_header(v.take(i + 1), n@) == Some(hs@[i as int].1@));
            proof { lemma_first_header_prefix(v, i as int + 1, n@); }
            return Some(i);
        }
        i = i + 1;
    }
    assert(v.take(v.len() as int) =~= v);
    None
}

proof fn lemma_first_header_prefix(hs: Seq<(Seq<char>, Seq<char>)>, k: int, n: Seq<char>)
    requires
        0 < k <= hs.len(),
        first_header(hs.take(k), n) is Some,
    ensures
        first_header(hs, n) == first_header(hs.take(k), n),
    decreases hs.len() - k,
{
    if k < hs.len() {
        assert(hs.take(k + 1).drop_last() =~= hs.take(k));
        lemma_first_header_prefix(hs, k + 1, n);
    } else {
        assert(hs.take(k) =~= hs);
    }
}

/// Why a request sequence stopped.
#[derive(Clone, Debug, PartialEq, Eq)]
pub enum RequestError {
    /// A header string given by the caller is malformed.
    Header(HeaderParseError),
    /// A URL could not be parsed.
    Uri(UriError),
    /// A `Location` value holds more than visible ASCII.
    Location,
}

/// Where a response leads: `Ok(None)` when it is final, `Ok(Some(url))` when
/// redirects are followed, its status is 3xx or 201 and it names a `Location`.
pub open spec fn redirect_spec(base: UrlView, resp: ResponseView, follow: bool) -> Result<Option<Seq<char>>, ()> {
    if !follow || !is_redirect_status(resp.status) {
        Ok(None)
    } else {
        match first_header(resp.headers, location_name()) {
            None => Ok(None),
            Some(v) => if is_visible(v) {
                Ok(Some(resolve(base, v)))
            } else {
                Err(())
            },
        }
    }
}

/// Finds where a response redirects to, if it is followed.
pub fn redirect_target(base: &Url, resp: &Response, follow_redirects: bool) -> (r: Result<Option<String>, RequestError>)
    ensures
        match redirect_spec(base@, resp@, follow_redirects) {
            Ok(None) => r == Ok::<Option<String>, RequestError>(None),
            Ok(Some(u)) => r matches Ok(Some(s)) && s@ == u,
            Err(_) => r == Err::<Option<String>, RequestError>(RequestError::Location),
        },
{
    if !follow_redirects || !should_redirect(resp.status) {
        return Ok(None);
    }
    let n = chars_of("location");
    match first_header_index(&resp.headers, &n) {
        None => Ok(None),
        Some(i) => {
            let v = &resp.headers[i].1;
            let vc = chars_of(v.as_str());
            if !all_visible(&vc) {
                return Err(RequestError::Location);
            }
            Ok(Some(resolve_url(base, v.as_str())))
        },
    }
}

/// The state of a request sequence: what every hop sends, whether redirects
/// are followed, and the URL of the next hop.
pub struct Session {
    pub method: String,
    pub headers: Vec<(String, String)>,
    pub body: Option<Vec<u8>>,
    pub follow_redirects: bool,
    pub url: Url,
}

fn clone_opt_string(o: &Option<String>) -> (r: Option<String>)
    ensures
        opt_view(r) == opt_view(*o),
{
    match o {
        Some(s) => Some(s.clone()),
        None => None,
    }
}

fn clone_url(u: &Url) -> (r: Url)
    ensures
        r@ == u@,
{
    Url {
        scheme: u.scheme.clone(),
        authority: u.authority.clone(),
        host: u.host.clone(),
        port: u.port,
        path: u.path.clone(),
        query: clone_opt_string(&u.query),
    }
}

impl Session {
    /// Starts a sequence: prepares the URL, then parses the header strings.
    pub fn start(
        method: String,
        uri: &str,
        header_strings: &Vec<String>,
        body: Option<Vec<u8>>,
        follow_redirects: bool,
    ) -> (r: Result<Session, RequestError>)
        ensures
            match prepared_url(uri@) {
                Err(e) => r == Err::<Session, RequestError>(RequestError::Uri(e)),
                Ok(u) => match headers_spec(strings_view(header_strings@)) {
                    Err(f) => r matches Err(RequestError::Header(e)) && e@ == f,
                    Ok(hs) => r matches Ok(s) && s.method == method && s.url@ == u
                        && pairs_view(s.headers@) == hs && s.body == body
                        && s.follow_redirects == follow_redirects,
                },
            },
    {
        let url = match prepare_url(uri) {
            Err(e) => return Err(RequestError::Uri(e)),
            Ok(u) => u,
        };
        let headers = match parse_headers(header_strings) {
            Err(e) => return Err(RequestError::Header(e)),
            Ok(h) => h,
        };
        Ok(Session { method, headers, body, follow_redirects, url })
    }

    /// The request of the current hop.
    pub fn request(&self) -> (r: Request)
        ensures
            r@ == (RequestView {
                method: self.method@,
                url: self.url@,
                headers: pairs_view(self.headers@),
                body: body_view(self.body),
            }),
    {
        Request {
            method: self.method.clone(),
            url: clone_url(&self.url),
            headers: copy_headers(&self.headers),
            body: copy_body(&self.body),
        }
    }

    /// Takes the response of the current hop. Returns it when it is final;
    /// otherwise moves to the URL it redirects to, with the same method,
    /// headers and body, and returns `None`.
    pub fn on_response(&mut self, resp: Response) -> (r: Result<Option<Response>, RequestError>)
        ensures
            final(self).method == old(self).method,
            final(self).headers == old(self).headers,
            final(self).body == old(self).body,
            final(self).follow_redirects == old(self).follow_redirects,
            match redirect_spec(old(self).url@, resp@, old(self).follow_redirects) {
                Ok(None) => r == Ok::<Option<Response>, RequestError>(Some(resp)) && final(self).url
                    == old(self).url,
                Ok(Some(loc)) => match prepared_url(loc) {
                    Ok(u) => r == Ok::<Option<Response>, RequestError>(None) && final(self).url@ == u,
                    Err(e) => r == Err::<Option<Response>, RequestError>(RequestError::Uri(e)),
                },
                Err(_) => r == Err::<Option<Response>, RequestError>(RequestError::Location),
            },
    {
        match redirect_target(&self.url, &resp, self.follow_redirects) {
            Err(e) => Err(e),
            Ok(None) => Ok(Some(resp)),
            Ok(Some(next)) => match prepare_url(next.as_str()) {
                Err(e) => Err(RequestError::Uri(e)),
                Ok(u) => {
                    self.url = u;
                    Ok(None)
                },
            },
        }
    }
}

/// A redirect is followed exactly once before a final response: when redirects
/// are followed, a 3xx or 201 response naming a visible-ASCII `Location` leads
/// to one more hop, to that location resolved against the current URL, and a
/// 200 response on that hop is final; when redirects are not followed, the
/// redirecting response is itself final.
pub proof fn lemma_redirect_then_final(
    base: UrlView,
    next: UrlView,
    first: ResponseView,
    second: ResponseView,
)
    requires
        is_redirect_status(first.status),
        first_header(first.headers, location_name()) is Some,
        is_visible(first_header(first.headers, location_name())->0),
        second.status == 200,
    ensures
        redirect_spec(base, first, true) == Ok::<Option<Seq<char>>, ()>(
            Some(resolve(base, first_header(first.headers, location_name())->0)),
        ),
        redirect_spec(next, second, true) == Ok::<Option<Seq<char>>, ()>(None),
        redirect_spec(base, first, false) == Ok::<Option<Seq<char>>, ()>(None),
{
}

} // verus!
