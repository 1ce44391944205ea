//! Parsing `"name: value"` strings into validated header pairs.

use vstd::prelude::*;
use vstd::string::*;
use crate::text::{chars_of, string_of, trim, trim_range};

verus! {

/// A character of the `http` crate's table of header-name characters: the
/// token characters, and `"` besides.
pub open spec fn is_http_name_char(c: char) -> bool {
    is_tchar(c) || c == '"'
}

/// A name that the `http` crate accepts: 1 to 65535 characters of its table.
pub open spec fn is_http_name(s: Seq<char>) -> bool {
    0 < s.len() <= 65535 && forall|i: int| 0 <= i < s.len() ==> is_http_name_char(#[trigger] s[i])
}

/// A token character of HTTP's grammar (`tchar`).
pub open spec fn is_tchar(c: char) -> bool {
    c == '!' || c == '#' || c == '$' || c == '%' || c == '&' || c == '\'' || c == '*' || c
        == '+' || c == '-' || c == '.' || c == '^' || c == '_' || c == '`' || c == '|' || c
        == '~' || ('0' <= c && c <= '9') || ('a' <= c && c <= 'z') || ('A' <= c && c <= 'Z')
}

/// A valid header name: a non-empty token. The bound of 65535 characters is
/// the `http` crate's limit on header names.
pub open spec fn is_token(s: Seq<char>) -> bool {
    0 < s.len() <= 65535 && forall|i: int| 0 <= i < s.len() ==> is_tchar(#[trigger] s[i])
}

/// Whether `s` holds a `"`.
pub open spec fn has_quote(s: Seq<char>) -> bool {
    exists|i: int| 0 <= i < s.len() && #[trigger] s[i] == '"'
}

fn contains_quote(s: &Vec<char>) -> (r: bool)
    ensures
        r == has_quote(s@),
{
    let mut i: usize = 0;
    while i < s.len()
        invariant
            i <= s@.len(),
            forall|k: int| 0 <= k < i ==> s@[k] != '"',
        decreases s.len() - i,
    {
        if s[i] == '"' {
            return true;
        }
        i = i + 1;
    }
    false
}

proof fn lemma_token_is_http_name_without_quote(s: Seq<char>)
    ensures
        is_token(s) == (is_http_name(s) && !has_quote(s)),
{
    if is_http_name(s) && !has_quote(s) {
        assert forall|i: int| 0 <= i < s.len() implies is_tchar(#[trigger] s[i]) by {
            assert(is_http_name_char(s[i]));
            if s[i] == '"' {
                assert(has_quote(s));
            }
        }
    }
    if is_token(s) {
        assert forall|i: int| 0 <= i < s.len() implies is_http_name_char(#[trigger] s[i]) by {
            assert(is_tchar(s[i]));
        }
        if has_quote(s) {
            let i = choose|i: int| 0 <= i < s.len() && #[trigger] s[i] == '"';
            assert(is_tchar(s[i]));
        }
    }
}

/// Whether `s` is a valid header name: the `http` crate accepts it, and it
/// holds no `"`, which that crate allows but the token grammar does not.
pub(crate) fn is_header_name(s: &str) -> (r: bool)
    ensures
        r == is_token(s@),
{
    proof { lemma_token_is_http_name_without_quote(s@); }
    header_name_parses(s) && !contains_quote(&chars_of(s))
}

/// A character that a header value may hold: no control character but tab.
pub open spec fn is_value_char(c: char) -> bool {
    (c as u32 >= 32 && c as u32 != 127) || c == '\t'
}

pub open spec fn is_header_value(s: Seq<char>) -> bool {
    forall|i: int| 0 <= i < s.len() ==> is_value_char(#[trigger] s[i])
}

/// Visible ASCII, or tab.
pub open spec fn is_visible_char(c: char) -> bool {
    (32 <= (c as u32) && (c as u32) < 127) || c == '\t'
}

pub open spec fn is_visible(s: Seq<char>) -> bool {
    forall|i: int| 0 <= i < s.len() ==> is_visible_char(#[trigger] s[i])
}

/// Relies on `http::HeaderName`'s `FromStr`: it accepts a name of 1 to 65535
/// bytes, each in its table of name characters.
#[verifier::external_body]
fn header_name_parses(s: &str) -> (r: bool)
    ensures
        r == is_http_name(s@),
{
    s.parse::<http::HeaderName>().is_ok()
}

/// Relies on `http::HeaderValue::from_str`: it refuses a byte under 32 other
/// than tab, and 127.
#[verifier::external_body]
pub(crate) fn header_value_parses(s: &str) -> (r: bool)
    ensures
        r == is_header_value(s@),
{
    http::HeaderValue::from_str(s).is_ok()
}

pub fn all_visible(s: &Vec<char>) -> (r: bool)
    ensures
        r == is_visible(s@),
{
    let mut i: usize = 0;
    while i < s.len()
        invariant
            i <= s@.len(),
            forall|k: int| 0 <= k < i ==> is_visible_char(#[trigger] s@[k]),
        decreases s.len() - i,
    {
        let u = s[i] as u32;
        if !((32 <= u && u < 127) || s[i] == '\t') {
            return false;
        }
        i = i + 1;
    }
    true
}

/// What is wrong with a header string, with the text at fault.
#[derive(Clone, Debug, PartialEq, Eq)]
pub enum HeaderParseError {
    MissingColon(String),
    InvalidHeaderName(String),
    InvalidHeaderValue(String),
    InvalidHeaderValueNonASCII(String),
}

pub enum HeaderFault {
    MissingColon(Seq<char>),
    InvalidHeaderName(Seq<char>),
    InvalidHeaderValue(Seq<char>),
    InvalidHeaderValueNonASCII(Seq<char>),
}

impl View for HeaderParseError {
    type V = HeaderFault;

    open spec fn view(&self) -> HeaderFault {
        match self {
            HeaderParseError::MissingColon(s) => HeaderFault::MissingColon(s@),
            HeaderParseError::InvalidHeaderName(s) => HeaderFault::InvalidHeaderName(s@),
            HeaderParseError::InvalidHeaderValue(s) => HeaderFault::InvalidHeaderValue(s@),
            HeaderParseError::InvalidHeaderValueNonASCII(s) => HeaderFault::InvalidHeaderValueNonASCII(s@),
        }
    }
}

impl HeaderParseError {
    /// A sentence describing the error.
    pub fn message(&self) -> (r: String)
        ensures
            r@ == (match self@ {
                HeaderFault::MissingColon(s) => quoted("Missing colon in header"@, s),
                HeaderFault::InvalidHeaderName(s) => quoted("Invalid header name"@, s),
                HeaderFault::InvalidHeaderValue(s) => quoted("Invalid header value"@, s),
                HeaderFault::InvalidHeaderValueNonASCII(s) => quoted(
                    "Invalid header value (not all visible ASCII)"@,
                    s,
                ),
            }),
    {
        match self {
            HeaderParseError::MissingColon(s) => format_fault("Missing colon in header", s),
            HeaderParseError::InvalidHeaderName(s) => format_fault("Invalid header name", s),
            HeaderParseError::InvalidHeaderValue(s) => format_fault("Invalid header value", s),
            HeaderParseError::InvalidHeaderValueNonASCII(s) => format_fault(
                "Invalid header value (not all visible ASCII)",
                s,
            ),
        }
    }
}

/// `label: 'text'`.
pub open spec fn quoted(label: Seq<char>, text: Seq<char>) -> Seq<char> {
    label + seq![':', ' ', '\''] + text + seq!['\'']
}

fn format_fault(label: &str, s: &String) -> (r: String)
    ensures
        r@ == quoted(label@, s@),
{
    let mut r = String::from_str(label);
    r.append(": '");
    r.append(s.as_str());
    r.append("'");
    proof {
        reveal_strlit(": '");
        reveal_strlit("'");
    }
    assert(r@ =~= quoted(label@, s@));
    r
}

/// The index of the first `:` in `s`, if any.
pub open spec fn first_colon(s: Seq<char>) -> Option<int>
    decreases s.len(),
{
    if s.len() == 0 {
        None
    } else {
        match first_colon(s.drop_last()) {
            Some(k) => Some(k),
            None => if s.last() == ':' {
                Some(s.len() - 1)
            } else {
                None
            },
        }
    }
}

/// The trimmed name and value of a header line, split at the first colon.
pub open spec fn split_header(s: Seq<char>) -> Option<(Seq<char>, Seq<char>)> {
    match first_colon(s) {
        None => None,
        Some(k) => Some((trim(s.subrange(0, k)), trim(s.subrange(k + 1, s.len() as int)))),
    }
}

/// The header that `s` denotes, or what is wrong with it.
pub open spec fn header_spec(s: Seq<char>) -> Result<(Seq<char>, Seq<char>), HeaderFault> {
    match split_header(s) {
        None => Err(HeaderFault::MissingColon(s)),
        Some((n, v)) => if !is_token(n) {
            Err(HeaderFault::InvalidHeaderName(n))
        } else if !is_header_value(v) {
            Err(HeaderFault::InvalidHeaderValue(v))
        } else if !is_visible(v) {
            Err(HeaderFault::InvalidHeaderValueNonASCII(v))
        } else {
            Ok((n, v))
        },
    }
}

/// The headers that the strings denote, in order, or the fault of the first bad one.
pub open spec fn headers_spec(hs: Seq<Seq<char>>) -> Result<Seq<(Seq<char>, Seq<char>)>, HeaderFault>
    decreases hs.len(),
{
    if hs.len() == 0 {
        Ok(seq![])
    } else {
        match headers_spec(hs.drop_last()) {
            Err(e) => Err(e),
            Ok(done) => match header_spec(hs.last()) {
                Err(e) => Err(e),
                Ok(h) => Ok(done.push(h)),
            },
        }
    }
}

pub open spec fn pair_view(p: (String, String)) -> (Seq<char>, Seq<char>) {
    (p.0@, p.1@)
}

pub open spec fn pairs_view(v: Seq<(String, String)>) -> Seq<(Seq<char>, Seq<char>)> {
    v.map_values(|p: (String, String)| pair_view(p))
}

pub open spec fn strings_view(v: Seq<String>) -> Seq<Seq<char>> {
    v.map_values(|s: String| s@)
}

/// Finds the first colon of `cs`.
pub(crate) fn find_colon(cs: &Vec<char>) -> (r: Option<usize>)
    ensures
        match r {
            Some(k) => first_colon(cs@) == Some(k as int) && k < cs@.len(),
            None => first_colon(cs@) is None,
        },
{
    let mut i: usize = 0;
    while i < cs.len()
        invariant
            i <= cs@.len(),
            first_colon(cs@.take(i as int)) is None,
        decreases cs.len() - i,
    {
        assert(cs@.take(i + 1).drop_last() =~= cs@.take(i as int));
        if cs[i] == ':' {
            proof { lemma_first_colon_extend(cs@, i as int + 1); }
            return Some(i);
        }
        i = i + 1;
    }
    assert(cs@.take(cs@.len() as int) =~= cs@);
    None
}

proof fn lemma_first_colon_extend(s: Seq<char>, n: int)
    requires
        0 < n <= s.len(),
        first_colon(s.take(n - 1)) is None,
        s[n - 1] == ':',
    ensures
        first_colon(s) == Some(n - 1),
    decreases s.len() - n,
{
    assert(s.take(n).drop_last() =~= s.take(n - 1));
    if n < s.len() {
        assert(s.take(n + 1).drop_last() =~= s.take(n));
        lemma_first_colon_prefix(s, n, n - 1);
    } else {
        assert(s.take(n) =~= s);
    }
}

proof fn lemma_first_colon_prefix(s: Seq<char>, n: int, k: int)
    requires
        0 < n <= s.len(),
        first_colon(s.take(n)) == Some(k),
    ensures
        first_colon(s) == Some(k),
    decreases s.len() - n,
{
    if n < s.len() {
        assert(s.take(n + 1).drop_last() =~= s.take(n));
        lemma_first_colon_prefix(s, n + 1, k);
    } else {
        assert(s.take(n) =~= s);
    }
}

/// Splits one header string and validates its name and value.
pub fn parse_header(header: &String) -> (r: Result<(String, String), HeaderParseError>)
    ensures
        match r {
            Ok(p) => header_spec(header@) == Ok::<(Seq<char>, Seq<char>), HeaderFault>(pair_view(p)),
            Err(e) => header_spec(header@) == Err::<(Seq<char>, Seq<char>), HeaderFault>(e@),
        },
{
    let cs = chars_of(header.as_str());
    let k = match find_colon(&cs) {
        None => return Err(HeaderParseError::MissingColon(header.clone())),
        Some(k) => k,
    };
    let (na, nb) = trim_range(&cs, 0, k);
    let (va, vb) = trim_range(&cs, k + 1, cs.len());
    let name = string_of(&cs.as_slice()[na..nb]);
    let value_chars = slice_chars(&cs, va, vb);
    let value = string_of(value_chars.as_slice());
    if !is_header_name(name.as_str()) {
        return Err(HeaderParseError::InvalidHeaderName(name));
    }
    if !header_value_parses(value.as_str()) {
        return Err(HeaderParseError::InvalidHeaderValue(value));
    }
    if !all_visible(&value_chars) {
        return Err(HeaderParseError::InvalidHeaderValueNonASCII(value));
    }
    Ok((name, value))
}

/// A copy of `v[lo..hi]`.
pub fn slice_chars(v: &Vec<char>, lo: usize, hi: usize) -> (r: Vec<char>)
    requires
        lo <= hi <= v@.len(),
    ensures
        r@ == v@.subrange(lo as int, hi as int),
{
    let mut r: Vec<char> = Vec::new();
    crate::text::extend_chars(&mut r, v, lo, hi);
    r
}

/// Parses `"name: value"` strings into (name, value) pairs, in order; names
/// and values are trimmed, and duplicates are all kept.
pub fn parse_headers(header_strings: &Vec<String>) -> (r: Result<Vec<(String, String)>, HeaderParseError>)
    ensures
        match r {
            Ok(v) => headers_spec(strings_view(header_strings@)) == Ok::<Seq<(Seq<char>, Seq<char>)>, HeaderFault>(pairs_view(v@)),
            Err(e) => headers_spec(strings_view(header_strings@)) == Err::<Seq<(Seq<char>, Seq<char>)>, HeaderFault>(e@),
        },
{
    let ghost hs = strings_view(header_strings@);
    let mut headers: Vec<(String, String)> = Vec::new();
    let mut i: usize = 0;
    assert(hs.take(0) =~= seq![]);
    assert(pairs_view(headers@) =~= seq![]);
    while i < header_strings.len()
        invariant
            i <= header_strings@.len(),
            hs == strings_view(header_strings@),
            headers_spec(hs.take(i as int)) == Ok::<Seq<(Seq<char>, Seq<char>)>, HeaderFault>(pairs_view(headers@)),
        decreases header_strings.len() - i,
    {
        let ghost prev = headers@;
        assert(hs.take(i + 1).drop_last() =~= hs.take(i as int));
        assert(hs.take(i + 1).last() == header_strings@[i as int]@);
        match parse_header(&header_strings[i]) {
            Err(e) => {
                proof { lemma_headers_err_extends(hs, i as int + 1, e@); }
                return Err(e);
            },
            Ok(p) => {
                headers.push(p);
                assert(pairs_view(headers@) =~= pairs_view(prev).push(pair_view(p)));
            },
        }
        i = i + 1;
    }
    assert(hs.take(hs.len() as int) =~= hs);
    Ok(headers)
}

proof fn lemma_headers_err_extends(hs: Seq<Seq<char>>, n: int, e: HeaderFault)
    requires
        0 < n <= hs.len(),
        headers_spec(hs.take(n)) == Err::<Seq<(Seq<char>, Seq<char>)>, HeaderFault>(e),
    ensures
        headers_spec(hs) == Err::<Seq<(Seq<char>, Seq<char>)>, HeaderFault>(e),
    decreases hs.len() - n,
{
    if n < hs.len() {
        assert(hs.take(n + 1).drop_last() =~= hs.take(n));
        lemma_headers_err_extends(hs, n + 1, e);
    } else {
        assert(hs.take(n) =~= hs);
    }
}

} // verus!
