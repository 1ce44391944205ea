//! Absolute URLs as plain values, dot-segment normalization and the
//! resolution of a `Location` value against the URL it came from.

use vstd::prelude::*;
use crate::text::{chars_of, decimal, decimal_chars, extend_chars, has_prefix, starts_with, string_of};

verus! {

/// The segments of `p` between `/` characters, as `str::split('/')` yields
/// them: the completed ones, and the one still open at the end of `p`.
pub open spec fn split_parts(p: Seq<char>) -> (Seq<Seq<char>>, Seq<char>)
    decreases p.len(),
{
    if p.len() == 0 {
        (seq![], seq![])
    } else {
        let (done, cur) = split_parts(p.drop_last());
        if p.last() == '/' {
            (done.push(cur), seq![])
        } else {
            (done, cur.push(p.last()))
        }
    }
}

/// All segments of `p` between `/` characters; there is always at least one.
pub open spec fn segments(p: Seq<char>) -> Seq<Seq<char>> {
    split_parts(p).0.push(split_parts(p).1)
}

/// Drops `.` segments, and lets each `..` remove the last kept segment, if any.
pub open spec fn remove_dots(segs: Seq<Seq<char>>) -> Seq<Seq<char>>
    decreases segs.len(),
{
    if segs.len() == 0 {
        seq![]
    } else {
        step_dots(remove_dots(segs.drop_last()), segs.last())
    }
}

/// One step of `remove_dots`: what becomes of the kept segments `acc` after `x`.
pub open spec fn step_dots(acc: Seq<Seq<char>>, x: Seq<char>) -> Seq<Seq<char>> {
    if x == seq!['.'] {
        acc
    } else if x == seq!['.', '.'] {
        if acc.len() > 0 {
            acc.drop_last()
        } else {
            acc
        }
    } else {
        acc.push(x)
    }
}

/// The segments joined with `/` between them.
pub open spec fn join_slash(segs: Seq<Seq<char>>) -> Seq<char>
    decreases segs.len(),
{
    if segs.len() == 0 {
        seq![]
    } else if segs.len() == 1 {
        segs[0]
    } else {
        join_slash(segs.drop_last()) + seq!['/'] + segs.last()
    }
}

/// Dot-segment normalization: the segments after the first, with `.` and `..`
/// resolved, joined with `/` and always led by a single `/`.
pub open spec fn flatten(p: Seq<char>) -> Seq<char> {
    seq!['/'] + join_slash(remove_dots(segments(p).drop_first()))
}

/// The character sequences held by a vector of character vectors.
pub open spec fn views(v: Seq<Vec<char>>) -> Seq<Seq<char>> {
    v.map_values(|x: Vec<char>| x@)
}

fn push_segment(acc: &mut Vec<Vec<char>>, x: Vec<char>)
    ensures
        views(final(acc)@) == step_dots(views(old(acc)@), x@),
{
    let is_dot = x.len() == 1 && x[0] == '.';
    let is_dotdot = x.len() == 2 && x[0] == '.' && x[1] == '.';
    proof {
        if x@.len() == 1 {
            assert(is_dot == (x@ =~= seq!['.']));
        } else {
            assert(x@ != seq!['.']);
        }
        if x@.len() == 2 {
            assert(is_dotdot == (x@ =~= seq!['.', '.']));
        } else {
            assert(x@ != seq!['.', '.']);
        }
    }
    if is_dot {
    } else if is_dotdot {
        if acc.len() > 0 {
            let _ = acc.pop();
            assert(views(acc@) =~= views(old(acc)@).drop_last());
        }
    } else {
        let ghost xv = x@;
        acc.push(x);
        assert(views(acc@) =~= views(old(acc)@).push(xv));
    }
}

/// Resolves `.` and `..` segments of a path; the result always starts with `/`.
pub fn flatten_path(path: &str) -> (r: String)
    ensures
        r@ == flatten(path@),
{
    let cs = chars_of(path);
    let mut acc: Vec<Vec<char>> = Vec::new();
    let mut cur: Vec<char> = Vec::new();
    let mut seen_slash = false;
    let mut i: usize = 0;
    while i < cs.len()
        invariant
            i <= cs@.len(),
            split_parts(cs@.take(i as int)).1 == cur@,
            seen_slash == (split_parts(cs@.take(i as int)).0.len() > 0),
            views(acc@) == (if seen_slash {
                remove_dots(split_parts(cs@.take(i as int)).0.drop_first())
            } else {
                seq![]
            }),
        decreases cs.len() - i,
    {
        let c = cs[i];
        let ghost d = split_parts(cs@.take(i as int)).0;
        assert(cs@.take(i + 1).drop_last() =~= cs@.take(i as int));
        assert(cs@.take(i + 1).last() == c);
        if c == '/' {
            assert(split_parts(cs@.take(i + 1)) == (d.push(cur@), Seq::<char>::empty()));
            if seen_slash {
                assert(d.push(cur@).drop_first() =~= d.drop_first().push(cur@));
                assert(d.drop_first().push(cur@).drop_last() =~= d.drop_first());
                push_segment(&mut acc, cur);
            } else {
                assert(d.push(cur@).drop_first() =~= seq![]);
            }
            cur = Vec::new();
            seen_slash = true;
        } else {
            cur.push(c);
        }
        i = i + 1;
    }
    assert(cs@.take(cs@.len() as int) =~= cs@);
    let ghost d = split_parts(cs@).0;
    if seen_slash {
        assert(d.push(cur@).drop_first() =~= d.drop_first().push(cur@));
        assert(d.drop_first().push(cur@).drop_last() =~= d.drop_first());
        push_segment(&mut acc, cur);
    } else {
        assert(d.push(cur@).drop_first() =~= seq![]);
    }
    let mut out: Vec<char> = Vec::new();
    out.push('/');
    let mut k: usize = 0;
    while k < acc.len()
        invariant
            k <= views(acc@).len(),
            out@ == seq!['/'] + join_slash(views(acc@).take(k as int)),
        decreases acc.len() - k,
    {
        let ghost segs = views(acc@);
        assert(segs.take(k + 1).drop_last() =~= segs.take(k as int));
        assert(segs.take(k + 1).last() == acc[k as int]@);
        if k > 0 {
            out.push('/');
        }
        let seg = &acc[k];
        extend_chars(&mut out, seg, 0, seg.len());
        assert(seg@.subrange(0, seg@.len() as int) =~= seg@);
        assert(out@ =~= seq!['/'] + join_slash(segs.take(k + 1)));
        k = k + 1;
    }
    assert(views(acc@).take(views(acc@).len() as int) =~= views(acc@));
    string_of(out.as_slice())
}

/// Why a URL was refused.
#[derive(Clone, Copy, Debug, PartialEq, Eq, Structural)]
pub enum UriError {
    /// The text is not a URI.
    Invalid,
    /// The URI names no scheme.
    MissingScheme,
    /// The URI names no authority (host and port).
    MissingAuthority,
}

/// The components of a URI as `http::Uri` splits it, each as plain text.
pub struct UriParts {
    pub scheme: Option<String>,
    pub authority: Option<String>,
    pub host: Option<String>,
    pub port: Option<u16>,
    pub path: String,
    pub query: Option<String>,
}

pub struct UriPartsView {
    pub scheme: Option<Seq<char>>,
    pub authority: Option<Seq<char>>,
    pub host: Option<Seq<char>>,
    pub port: Option<u16>,
    pub path: Seq<char>,
    pub query: Option<Seq<char>>,
}

pub open spec fn opt_view(o: Option<String>) -> Option<Seq<char>> {
    match o {
        Some(s) => Some(s@),
        None => None,
    }
}

impl View for UriParts {
    type V = UriPartsView;

    open spec fn view(&self) -> UriPartsView {
        UriPartsView {
            scheme: opt_view(self.scheme),
            authority: opt_view(self.authority),
            host: opt_view(self.host),
            port: self.port,
            path: self.path@,
            query: opt_view(self.query),
        }
    }
}

/// What `http::Uri` makes of a text: its components, or `None` where it refuses it.
pub uninterp spec fn uri_parts(s: Seq<char>) -> Option<UriPartsView>;

/// Relies on `http::Uri`'s `FromStr`, and on its accessors for the parts it found.
#[verifier::external_body]
fn parse_uri(s: &str) -> (r: Option<UriParts>)
    ensures
        match r {
            Some(p) => uri_parts(s@) == Some(p@),
            None => uri_parts(s@) is None,
        },
{
    let u = s.parse::<http::Uri>().ok()?;
    Some(UriParts {
        scheme: u.scheme_str().map(str::to_string),
        authority: u.authority().map(|a| a.as_str().to_string()),
        host: u.host().map(str::to_string),
        port: u.port_u16(),
        path: u.path().to_string(),
        query: u.query().map(str::to_string),
    })
}

/// An absolute URL: a scheme and an authority are always present.
pub struct Url {
    pub scheme: String,
    pub authority: String,
    pub host: String,
    pub port: Option<u16>,
    pub path: String,
    pub query: Option<String>,
}

pub struct UrlView {
    pub scheme: Seq<char>,
    pub authority: Seq<char>,
    pub host: Seq<char>,
    pub port: Option<u16>,
    pub path: Seq<char>,
    pub query: Option<Seq<char>>,
}

impl View for Url {
    type V = UrlView;

    open spec fn view(&self) -> UrlView {
        UrlView {
            scheme: self.scheme@,
            authority: self.authority@,
            host: self.host@,
            port: self.port,
            path: self.path@,
            query: opt_view(self.query),
        }
    }
}

/// The absolute URL that a text denotes, or why it does not denote one.
pub open spec fn url_spec(s: Seq<char>) -> Result<UrlView, UriError> {
    match uri_parts(s) {
        None => Err(UriError::Invalid),
        Some(p) => match (p.scheme, p.authority, p.host) {
            (None, _, _) => Err(UriError::MissingScheme),
            (Some(_), None, _) => Err(UriError::MissingAuthority),
            (Some(_), Some(_), None) => Err(UriError::MissingAuthority),
            (Some(sc), Some(a), Some(h)) => Ok(
                UrlView { scheme: sc, authority: a, host: h, port: p.port, path: p.path, query: p.query },
            ),
        },
    }
}

pub open spec fn url_result_matches(r: Result<Url, UriError>, expected: Result<UrlView, UriError>) -> bool {
    match r {
        Ok(u) => expected == Ok::<UrlView, UriError>(u@),
        Err(e) => expected == Err::<UrlView, UriError>(e),
    }
}

impl Url {
    /// Parses an absolute URL.
    pub fn parse(s: &str) -> (r: Result<Url, UriError>)
        ensures
            url_result_matches(r, url_spec(s@)),
    {
        match parse_uri(s) {
            None => Err(UriError::Invalid),
            Some(p) => match (p.scheme, p.authority, p.host) {
                (None, _, _) => Err(UriError::MissingScheme),
                (Some(_), None, _) => Err(UriError::MissingAuthority),
                (Some(_), Some(_), None) => Err(UriError::MissingAuthority),
                (Some(sc), Some(a), Some(h)) => Ok(
                    Url { scheme: sc, authority: a, host: h, port: p.port, path: p.path, query: p.query },
                ),
            },
        }
    }
}

pub open spec fn http_prefix() -> Seq<char> {
    seq!['h', 't', 't', 'p', ':', '/', '/']
}

pub open spec fn https_prefix() -> Seq<char> {
    seq!['h', 't', 't', 'p', 's', ':', '/', '/']
}

fn http_prefix_chars() -> (r: Vec<char>)
    ensures
        r@ == http_prefix(),
{
    let r = vec!['h', 't', 't', 'p', ':', '/', '/'];
    assert(r@ =~= http_prefix());
    r
}

fn https_prefix_chars() -> (r: Vec<char>)
    ensures
        r@ == https_prefix(),
{
    let r = vec!['h', 't', 't', 'p', 's', ':', '/', '/'];
    assert(r@ =~= https_prefix());
    r
}

/// Whether a text already names the `http` or `https` scheme.
pub open spec fn is_absolute_http(s: Seq<char>) -> bool {
    starts_with(s, http_prefix()) || starts_with(s, https_prefix())
}

/// The text with `http://` put in front, unless it names `http` or `https` already.
pub open spec fn with_scheme(s: Seq<char>) -> Seq<char> {
    if is_absolute_http(s) {
        s
    } else {
        http_prefix() + s
    }
}

/// Defaults a scheme-less URL to `http://`.
pub fn ensure_starts_with_schema(uri: &str) -> (r: String)
    ensures
        r@ == with_scheme(uri@),
{
    let cs = chars_of(uri);
    if has_prefix(&cs, &http_prefix_chars()) || has_prefix(&cs, &https_prefix_chars()) {
        string_of(cs.as_slice())
    } else {
        let mut out = http_prefix_chars();
        extend_chars(&mut out, &cs, 0, cs.len());
        assert(cs@.subrange(0, cs@.len() as int) =~= cs@);
        string_of(out.as_slice())
    }
}

/// `scheme://authority` of a URL.
pub open spec fn origin(u: UrlView) -> Seq<char> {
    u.scheme + seq![':', '/', '/'] + u.authority
}

/// The path without its final `/`-segment (and without that `/`).
pub open spec fn parent_dir(p: Seq<char>) -> Seq<char>
    decreases p.len(),
{
    if p.len() == 0 {
        seq![]
    } else if p.last() == '/' {
        p.drop_last()
    } else {
        parent_dir(p.drop_last())
    }
}

/// The URL that a `Location` value leads to from `base`.
pub open spec fn resolve(base: UrlView, loc: Seq<char>) -> Seq<char> {
    if is_absolute_http(loc) {
        loc
    } else if loc.len() > 0 && loc[0] == '/' {
        origin(base) + flatten(loc)
    } else if loc.len() > 0 && loc[0] == '?' {
        origin(base) + flatten(base.path) + loc
    } else {
        origin(base) + flatten(parent_dir(base.path) + seq!['/'] + loc)
    }
}

fn origin_chars(base: &Url) -> (r: Vec<char>)
    ensures
        r@ == origin(base@),
{
    let mut out = chars_of(base.scheme.as_str());
    out.push(':');
    out.push('/');
    out.push('/');
    let a = chars_of(base.authority.as_str());
    extend_chars(&mut out, &a, 0, a.len());
    assert(a@.subrange(0, a@.len() as int) =~= a@);
    assert(out@ =~= origin(base@));
    out
}

fn append_str(out: &mut Vec<char>, s: &str)
    ensures
        final(out)@ == old(out)@ + s@,
{
    let cs = chars_of(s);
    extend_chars(out, &cs, 0, cs.len());
    assert(cs@.subrange(0, cs@.len() as int) =~= cs@);
}

/// Resolves a `Location` value against the URL of the request that received it.
pub fn resolve_url(base: &Url, url: &str) -> (r: String)
    ensures
        r@ == resolve(base@, url@),
{
    let loc = chars_of(url);
    if has_prefix(&loc, &http_prefix_chars()) || has_prefix(&loc, &https_prefix_chars()) {
        return string_of(loc.as_slice());
    }
    let mut out = origin_chars(base);
    if loc.len() > 0 && loc[0] == '/' {
        append_str(&mut out, flatten_path(url).as_str());
    } else if loc.len() > 0 && loc[0] == '?' {
        append_str(&mut out, flatten_path(base.path.as_str()).as_str());
        extend_chars(&mut out, &loc, 0, loc.len());
        assert(loc@.subrange(0, loc@.len() as int) =~= loc@);
    } else {
        let p = chars_of(base.path.as_str());
        let mut j = p.len();
        assert(p@.take(p@.len() as int) =~= p@);
        while j > 0 && p[j - 1] != '/'
            invariant
                j <= p@.len(),
                parent_dir(p@) == parent_dir(p@.take(j as int)),
            decreases j,
        {
            assert(p@.take(j as int).drop_last() =~= p@.take(j - 1));
            j = j - 1;
        }
        assert(p@.take(p@.len() as int) =~= p@);
        let mut rel: Vec<char> = Vec::new();
        if j > 0 {
            assert(p@.take(j as int).drop_last() =~= p@.subrange(0, j - 1));
            extend_chars(&mut rel, &p, 0, j - 1);
        } else {
            assert(p@.take(0) =~= seq![]);
        }
        rel.push('/');
        extend_chars(&mut rel, &loc, 0, loc.len());
        assert(loc@.subrange(0, loc@.len() as int) =~= loc@);
        assert(rel@ =~= parent_dir(base.path@) + seq!['/'] + url@);
        let rel_s = string_of(rel.as_slice());
        append_str(&mut out, flatten_path(rel_s.as_str()).as_str());
    }
    string_of(out.as_slice())
}

/// The port a URL names, else the default of its scheme: 443 for `https`, 80 otherwise.
pub open spec fn port_of(u: UrlView) -> u16 {
    match u.port {
        Some(p) => p,
        None => if u.scheme == seq!['h', 't', 't', 'p', 's'] {
            443
        } else {
            80
        },
    }
}

/// `host:port` of a URL, the port made explicit.
pub open spec fn authority_of(u: UrlView) -> Seq<char> {
    u.host + seq![':'] + decimal(port_of(u) as nat)
}

/// The host and port to connect to, e.g. `www.example.com:80`.
pub fn get_authority(uri: &Url) -> (r: String)
    ensures
        r@ == authority_of(uri@),
{
    let port: u16 = match uri.port {
        Some(p) => p,
        None => {
            let sc = chars_of(uri.scheme.as_str());
            let https = vec!['h', 't', 't', 'p', 's'];
            let is_https = sc.len() == 5 && has_prefix(&sc, &https);
            proof {
                if is_https {
                    assert(sc@ =~= seq!['h', 't', 't', 'p', 's']);
                }
                if sc@ == seq!['h', 't', 't', 'p', 's'] {
                    assert(https@ =~= seq!['h', 't', 't', 'p', 's']);
                    assert(sc@.subrange(0, 5) =~= sc@);
                }
            }
            if is_https {
                443
            } else {
                80
            }
        },
    };
    let mut out = chars_of(uri.host.as_str());
    out.push(':');
    let d = decimal_chars(port as u64);
    extend_chars(&mut out, &d, 0, d.len());
    assert(d@.subrange(0, d@.len() as int) =~= d@);
    string_of(out.as_slice())
}

/// `?query` of a URL, or nothing.
pub open spec fn query_suffix(u: UrlView) -> Seq<char> {
    match u.query {
        Some(q) => seq!['?'] + q,
        None => seq![],
    }
}

impl Url {
    /// The URL written out: `scheme://authority` + path + `?query`.
    pub fn to_text(&self) -> (r: String)
        ensures
            r@ == origin(self@) + self@.path + query_suffix(self@),
    {
        let mut out = origin_chars(self);
        append_str(&mut out, self.path.as_str());
        match &self.query {
            Some(q) => {
                out.push('?');
                append_str(&mut out, q.as_str());
            },
            None => {},
        }
        assert(out@ =~= origin(self@) + self@.path + query_suffix(self@));
        string_of(out.as_slice())
    }
}

/// `x` holds no `/`.
pub open spec fn no_slash(x: Seq<char>) -> bool {
    forall|i: int| 0 <= i < x.len() ==> #[trigger] x[i] != '/'
}

/// Segments with no `/`, and none equal to `.` or `..`.
pub open spec fn clean_segments(segs: Seq<Seq<char>>) -> bool {
    forall|i: int|
        0 <= i < segs.len() ==> no_slash(#[trigger] segs[i]) && segs[i] != seq!['.'] && segs[i]
            != seq!['.', '.']
}

proof fn lemma_segments_push(x: Seq<char>, ch: char)
    ensures
        segments(x.push(ch)) == (if ch == '/' {
            segments(x).push(seq![])
        } else {
            segments(x).drop_last().push(segments(x).last().push(ch))
        }),
{
    assert(x.push(ch).drop_last() =~= x);
    let (d, c) = split_parts(x);
    if ch == '/' {
        assert(segments(x.push(ch)) =~= d.push(c).push(seq![]));
    } else {
        assert(segments(x).drop_last() =~= d);
        assert(segments(x.push(ch)) =~= d.push(c.push(ch)));
    }
}

proof fn lemma_segments_no_slash(x: Seq<char>)
    ensures
        forall|i: int| 0 <= i < segments(x).len() ==> no_slash(#[trigger] segments(x)[i]),
    decreases x.len(),
{
    if x.len() > 0 {
        let y = x.drop_last();
        lemma_segments_no_slash(y);
        assert(y.push(x.last()) =~= x);
        lemma_segments_push(y, x.last());
        let sy = segments(y);
        if x.last() != '/' {
            let l = sy.last().push(x.last());
            assert(no_slash(sy.last()));
            assert forall|i: int| 0 <= i < l.len() implies #[trigger] l[i] != '/' by {
                if i < sy.last().len() {
                    assert(l[i] == sy.last()[i]);
                }
            }
            assert forall|i: int| 0 <= i < segments(x).len() implies no_slash(#[trigger] segments(x)[i]) by {
                if i < sy.len() - 1 {
                    assert(segments(x)[i] == sy[i]);
                }
            }
        } else {
            assert forall|i: int| 0 <= i < segments(x).len() implies no_slash(#[trigger] segments(x)[i]) by {
                if i < sy.len() {
                    assert(segments(x)[i] == sy[i]);
                } else {
                    assert(segments(x)[i] =~= seq![]);
                }
            }
        }
    }
}

/// Splitting at a `/` splits the segments there.
proof fn lemma_segments_concat(x: Seq<char>, y: Seq<char>)
    ensures
        segments(x + seq!['/'] + y) == segments(x) + segments(y),
    decreases y.len(),
{
    if y.len() == 0 {
        assert(x + seq!['/'] + y =~= x.push('/'));
        lemma_segments_push(x, '/');
        assert(segments(y) =~= seq![Seq::<char>::empty()]);
        assert(segments(x).push(seq![]) =~= segments(x) + segments(y));
    } else {
        let y0 = y.drop_last();
        let ch = y.last();
        lemma_segments_concat(x, y0);
        assert(x + seq!['/'] + y =~= (x + seq!['/'] + y0).push(ch));
        assert(y0.push(ch) =~= y);
        lemma_segments_push(x + seq!['/'] + y0, ch);
        lemma_segments_push(y0, ch);
        let a = segments(x);
        let b = segments(y0);
        if ch == '/' {
            assert((a + b).push(seq![]) =~= a + b.push(seq![]));
        } else {
            assert((a + b).drop_last().push((a + b).last().push(ch)) =~= a + b.drop_last().push(
                b.last().push(ch),
            ));
        }
    }
}

proof fn lemma_segments_single(w: Seq<char>)
    requires
        no_slash(w),
    ensures
        segments(w) == seq![w],
    decreases w.len(),
{
    if w.len() == 0 {
        assert(split_parts(w) == (Seq::<Seq<char>>::empty(), Seq::<char>::empty()));
        assert(w =~= Seq::<char>::empty());
        assert(segments(w) =~= seq![w]);
    } else {
        let w0 = w.drop_last();
        assert(no_slash(w0)) by {
            assert forall|i: int| 0 <= i < w0.len() implies #[trigger] w0[i] != '/' by {
                assert(w0[i] == w[i]);
            }
        }
        lemma_segments_single(w0);
        assert(w0.push(w.last()) =~= w);
        assert(w[w.len() - 1] != '/');
        lemma_segments_push(w0, w.last());
        assert(segments(w) =~= seq![w]);
    }
}

proof fn lemma_segments_join(segs: Seq<Seq<char>>)
    requires
        segs.len() > 0,
        forall|i: int| 0 <= i < segs.len() ==> no_slash(#[trigger] segs[i]),
    ensures
        segments(join_slash(segs)) == segs,
    decreases segs.len(),
{
    if segs.len() == 1 {
        lemma_segments_single(segs[0]);
        assert(seq![segs[0]] =~= segs);
    } else {
        let init = segs.drop_last();
        assert forall|i: int| 0 <= i < init.len() implies no_slash(#[trigger] init[i]) by {
            assert(init[i] == segs[i]);
        }
        lemma_segments_join(init);
        assert(no_slash(segs[segs.len() - 1]));
        lemma_segments_single(segs.last());
        lemma_segments_concat(join_slash(init), segs.last());
        assert(init + seq![segs.last()] =~= segs);
    }
}

proof fn lemma_remove_dots_clean(segs: Seq<Seq<char>>)
    requires
        forall|i: int| 0 <= i < segs.len() ==> no_slash(#[trigger] segs[i]),
    ensures
        clean_segments(remove_dots(segs)),
    decreases segs.len(),
{
    if segs.len() > 0 {
        let init = segs.drop_last();
        assert forall|i: int| 0 <= i < init.len() implies no_slash(#[trigger] init[i]) by {
            assert(init[i] == segs[i]);
        }
        lemma_remove_dots_clean(init);
        let acc = remove_dots(init);
        let x = segs.last();
        assert(no_slash(segs[segs.len() - 1]));
        let r = remove_dots(segs);
        assert(r == step_dots(acc, x));
        assert forall|i: int| 0 <= i < r.len() implies no_slash(#[trigger] r[i]) && r[i] != seq!['.']
            && r[i] != seq!['.', '.'] by {
            if i < acc.len() {
                assert(r[i] == acc[i]);
            }
        }
    }
}

proof fn lemma_remove_dots_id(segs: Seq<Seq<char>>)
    requires
        clean_segments(segs),
    ensures
        remove_dots(segs) == segs,
    decreases segs.len(),
{
    if segs.len() > 0 {
        let init = segs.drop_last();
        assert forall|i: int| 0 <= i < init.len() implies no_slash(#[trigger] init[i]) && init[i]
            != seq!['.'] && init[i] != seq!['.', '.'] by {
            assert(init[i] == segs[i]);
        }
        lemma_remove_dots_id(init);
        assert(segs[segs.len() - 1] != seq!['.'] && segs[segs.len() - 1] != seq!['.', '.']);
        assert(init.push(segs.last()) =~= segs);
    }
}

/// Normalizing a path twice gives what normalizing it once gives.
pub proof fn lemma_flatten_idempotent(p: Seq<char>)
    ensures
        flatten(flatten(p)) == flatten(p),
{
    let segs = segments(p).drop_first();
    lemma_segments_no_slash(p);
    assert forall|i: int| 0 <= i < segs.len() implies no_slash(#[trigger] segs[i]) by {
        assert(segs[i] == segments(p)[i + 1]);
    }
    let r = remove_dots(segs);
    lemma_remove_dots_clean(segs);
    let q = flatten(p);
    assert(q == seq!['/'] + join_slash(r));
    assert(q =~= Seq::<char>::empty() + seq!['/'] + join_slash(r));
    lemma_segments_concat(Seq::<char>::empty(), join_slash(r));
    assert(segments(Seq::<char>::empty()) =~= seq![Seq::<char>::empty()]);
    if r.len() > 0 {
        lemma_segments_join(r);
        assert((seq![Seq::<char>::empty()] + r).drop_first() =~= r);
        lemma_remove_dots_id(r);
    } else {
        assert(join_slash(r) =~= Seq::<char>::empty());
        let e: Seq<Seq<char>> = seq![Seq::<char>::empty()];
        assert((seq![Seq::<char>::empty()] + e).drop_first() =~= e);
        assert(e.drop_last() =~= Seq::<Seq<char>>::empty());
        assert(remove_dots(e) == step_dots(remove_dots(e.drop_last()), e.last()));
        assert(Seq::<char>::empty() != seq!['.']) by {
            assert(seq!['.'].len() == 1);
        }
        assert(Seq::<char>::empty() != seq!['.', '.']) by {
            assert(seq!['.', '.'].len() == 2);
        }
        assert(remove_dots(e) =~= e);
        assert(join_slash(e) == e[0]);
    }
}

} // verus!
