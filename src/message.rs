//! Building the wire form of a request, with the default headers it needs.

use vstd::prelude::*;
use vstd::string::*;
use crate::headers::{pair_view, pairs_view};
use crate::text::{chars_of, decimal, decimal_chars, eq_ci, eq_ignore_case, lower, string_of};
use crate::url::{authority_of, get_authority, Url, UrlView};

verus! {

/// A request: method, absolute URL, headers in order, optional body.
pub struct Request {
    pub method: String,
    pub url: Url,
    /// Headers in the order given, names as written; duplicates are all kept.
    pub headers: Vec<(String, String)>,
    pub body: Option<Vec<u8>>,
}

pub struct RequestView {
    pub method: Seq<char>,
    pub url: UrlView,
    pub headers: Seq<(Seq<char>, Seq<char>)>,
    pub body: Option<Seq<u8>>,
}

pub open spec fn body_view(b: Option<Vec<u8>>) -> Option<Seq<u8>> {
    match b {
        Some(v) => Some(v@),
        None => None,
    }
}

impl View for Request {
    type V = RequestView;

    open spec fn view(&self) -> RequestView {
        RequestView {
            method: self.method@,
            url: self.url@,
            headers: pairs_view(self.headers@),
            body: body_view(self.body),
        }
    }
}

/// The serialized parts of a request: request line parts, every header that
/// will be sent, and the body.
pub struct HttpMessage {
    pub method: String,
    pub abs_path: String,
    pub version: String,
    /// Headers in the order given, names as written; duplicates are all kept.
    pub headers: Vec<(String, String)>,
    pub body: Option<Vec<u8>>,
}

pub open spec fn host_name() -> Seq<char> {
    "Host"@
}

pub open spec fn user_agent_name() -> Seq<char> {
    "User-Agent"@
}

pub open spec fn connection_name() -> Seq<char> {
    "Connection"@
}

pub open spec fn content_length_name() -> Seq<char> {
    "Content-Length"@
}

/// The identity this client sends as its `User-Agent`.
pub open spec fn user_agent_value() -> Seq<char> {
    "httpc/0.1.0"@
}

pub open spec fn close_value() -> Seq<char> {
    "close"@
}

/// Whether a header of that name (up to ASCII case) is among `hs`.
pub open spec fn has_header(hs: Seq<(Seq<char>, Seq<char>)>, n: Seq<char>) -> bool {
    exists|i: int| 0 <= i < hs.len() && eq_ci(#[trigger] hs[i].0, n)
}

/// The headers added to a request that lacks them.
pub open spec fn added_headers(r: RequestView) -> Seq<(Seq<char>, Seq<char>)> {
    (if has_header(r.headers, host_name()) {
        seq![]
    } else {
        seq![(host_name(), authority_of(r.url))]
    }) + (if has_header(r.headers, user_agent_name()) {
        seq![]
    } else {
        seq![(user_agent_name(), user_agent_value())]
    }) + (if has_header(r.headers, connection_name()) {
        seq![]
    } else {
        seq![(connection_name(), close_value())]
    }) + (if has_header(r.headers, content_length_name()) || r.body is None {
        seq![]
    } else {
        seq![(content_length_name(), decimal(r.body->0.len()))]
    })
}

/// Every header sent with a request: the caller's, then the added ones.
pub open spec fn message_headers(r: RequestView) -> Seq<(Seq<char>, Seq<char>)> {
    r.headers + added_headers(r)
}

/// `path[?query]` of a URL.
pub open spec fn path_and_query(u: UrlView) -> Seq<char> {
    match u.query {
        Some(q) => u.path + seq!['?'] + q,
        None => u.path,
    }
}

pub open spec fn crlf() -> Seq<char> {
    seq!['\r', '\n']
}

/// One `Name: Value` line per header, in order.
pub open spec fn header_lines(hs: Seq<(Seq<char>, Seq<char>)>) -> Seq<char>
    decreases hs.len(),
{
    if hs.len() == 0 {
        seq![]
    } else {
        header_lines(hs.drop_last()) + hs.last().0 + seq![':', ' '] + hs.last().1 + crlf()
    }
}

/// The text sent before the body: request line, header lines, blank line.
pub open spec fn head_text(
    method: Seq<char>,
    target: Seq<char>,
    version: Seq<char>,
    hs: Seq<(Seq<char>, Seq<char>)>,
) -> Seq<char> {
    method + seq![' '] + target + seq![' '] + version + crlf() + header_lines(hs) + crlf()
}

fn has_header_named(hs: &Vec<(String, String)>, name: &str) -> (r: bool)
    ensures
        r == has_header(pairs_view(hs@), name@),
{
    let n = chars_of(name);
    let mut i: usize = 0;
    while i < hs.len()
        invariant
            n@ == name@,
            i <= hs@.len(),
            forall|k: int| 0 <= k < i ==> !eq_ci(#[trigger] pairs_view(hs@)[k].0, name@),
        decreases hs.len() - i,
    {
        let c = chars_of(hs[i].0.as_str());
        if eq_ignore_case(&c, &n) {
            assert(eq_ci(pairs_view(hs@)[i as int].0, name@));
            return true;
        }
        i = i + 1;
    }
    false
}

pub(crate) fn copy_headers(hs: &Vec<(String, String)>) -> (r: Vec<(String, String)>)
    ensures
        pairs_view(r@) == pairs_view(hs@),
{
    let mut out: Vec<(String, String)> = Vec::new();
    let mut i: usize = 0;
    while i < hs.len()
        invariant
            i <= hs@.len(),
            pairs_view(out@) == pairs_view(hs@).take(i as int),
        decreases hs.len() - i,
    {
        let ghost prev = out@;
        let n = hs[i].0.clone();
        let v = hs[i].1.clone();
        assert(n@ == hs@[i as int].0@ && v@ == hs@[i as int].1@);
        out.push((n, v));
        assert(pairs_view(out@) =~= pairs_view(prev).push(pair_view(hs@[i as int])));
        assert(pairs_view(out@) =~= pairs_view(hs@).take(i + 1));
        i = i + 1;
    }
    assert(pairs_view(hs@).take(hs@.len() as int) =~= pairs_view(hs@));
    out
}

pub(crate) fn copy_body(b: &Option<Vec<u8>>) -> (r: Option<Vec<u8>>)
    ensures
        body_view(r) == body_view(*b),
{
    match b {
        None => None,
        Some(v) => {
            let mut out: Vec<u8> = Vec::new();
            let mut i: usize = 0;
            while i < v.len()
                invariant
                    i <= v@.len(),
                    out@ == v@.take(i as int),
                decreases v.len() - i,
            {
                out.push(v[i]);
                assert(out@ =~= v@.take(i + 1));
                i = i + 1;
            }
            assert(v@.take(v@.len() as int) =~= v@);
            Some(out)
        },
    }
}

fn push_header(hs: &mut Vec<(String, String)>, name: String, value: String)
    ensures
        pairs_view(final(hs)@) == pairs_view(old(hs)@).push((name@, value@)),
{
    hs.push((name, value));
    assert(pairs_view(hs@) =~= pairs_view(old(hs)@).push((name@, value@)));
}

/// Builds the message for a request: its request line parts, the caller's
/// headers followed by `Host`, `User-Agent`, `Connection: close` and
/// `Content-Length` where the caller gave none of that name, and its body.
pub fn create_http_message(req: &Request) -> (r: HttpMessage)
    ensures
        r.method@ == req.method@,
        r.abs_path@ == path_and_query(req.url@),
        r.version@ == "HTTP/1.1"@,
        pairs_view(r.headers@) == message_headers(req@),
        body_view(r.body) == body_view(req.body),
{
    let ghost rv = req@;
    let mut headers = copy_headers(&req.headers);
    let ghost h0 = pairs_view(headers@);
    if !has_header_named(&req.headers, "Host") {
        push_header(&mut headers, String::from_str("Host"), get_authority(&req.url));
    }
    let ghost h1 = pairs_view(headers@);
    if !has_header_named(&req.headers, "User-Agent") {
        push_header(&mut headers, String::from_str("User-Agent"), String::from_str("httpc/0.1.0"));
    }
    let ghost h2 = pairs_view(headers@);
    if !has_header_named(&req.headers, "Connection") {
        push_header(&mut headers, String::from_str("Connection"), String::from_str("close"));
    }
    let ghost h3 = pairs_view(headers@);
    if !has_header_named(&req.headers, "Content-Length") {
        match &req.body {
            Some(b) => {
                let d = decimal_chars(b.len() as u64);
                push_header(&mut headers, String::from_str("Content-Length"), string_of(d.as_slice()));
            },
            None => {},
        }
    }
    proof {
        let a = added_headers(rv);
        let p1: Seq<(Seq<char>, Seq<char>)> = if has_header(rv.headers, host_name()) {
            seq![]
        } else {
            seq![(host_name(), authority_of(rv.url))]
        };
        let p2: Seq<(Seq<char>, Seq<char>)> = if has_header(rv.headers, user_agent_name()) {
            seq![]
        } else {
            seq![(user_agent_name(), user_agent_value())]
        };
        let p3: Seq<(Seq<char>, Seq<char>)> = if has_header(rv.headers, connection_name()) {
            seq![]
        } else {
            seq![(connection_name(), close_value())]
        };
        let p4: Seq<(Seq<char>, Seq<char>)> = if has_header(rv.headers, content_length_name()) || rv.body is None {
            seq![]
        } else {
            seq![(content_length_name(), decimal(rv.body->0.len()))]
        };
        assert(h1 =~= h0 + p1);
        assert(h2 =~= h0 + p1 + p2);
        assert(h3 =~= h0 + p1 + p2 + p3);
        assert(pairs_view(headers@) =~= h0 + p1 + p2 + p3 + p4);
        assert(a == p1 + p2 + p3 + p4);
        assert(pairs_view(headers@) =~= message_headers(rv));
    }
    let mut target = chars_of(req.url.path.as_str());
    match &req.url.query {
        Some(q) => {
            target.push('?');
            let qc = chars_of(q.as_str());
            crate::text::extend_chars(&mut target, &qc, 0, qc.len());
            assert(qc@.subrange(0, qc@.len() as int) =~= qc@);
        },
        None => {},
    }
    HttpMessage {
        method: req.method.clone(),
        abs_path: string_of(target.as_slice()),
        version: String::from_str("HTTP/1.1"),
        headers,
        body: copy_body(&req.body),
    }
}

fn append_string(out: &mut Vec<char>, s: &String)
    ensures
        final(out)@ == old(out)@ + s@,
{
    let cs = chars_of(s.as_str());
    crate::text::extend_chars(out, &cs, 0, cs.len());
    assert(cs@.subrange(0, cs@.len() as int) =~= cs@);
}

impl HttpMessage {
    /// The text sent before the body, and the body bytes (empty when there is none).
    pub fn to_parts(&self) -> (r: (String, Vec<u8>))
        ensures
            r.0@ == head_text(self.method@, self.abs_path@, self.version@, pairs_view(self.headers@)),
            r.1@ == (match body_view(self.body) {
                Some(b) => b,
                None => Seq::<u8>::empty(),
            }),
    {
        let mut out: Vec<char> = Vec::new();
        append_string(&mut out, &self.method);
        out.push(' ');
        append_string(&mut out, &self.abs_path);
        out.push(' ');
        append_string(&mut out, &self.version);
        out.push('\r');
        out.push('\n');
        let ghost line = out@;
        assert(line =~= self.method@ + seq![' '] + self.abs_path@ + seq![' '] + self.version@ + crlf());
        let ghost hs = pairs_view(self.headers@);
        let mut i: usize = 0;
        while i < self.headers.len()
            invariant
                i <= self.headers@.len(),
                hs == pairs_view(self.headers@),
                out@ == line + header_lines(hs.take(i as int)),
            decreases self.headers.len() - i,
        {
            assert(hs.take(i + 1).drop_last() =~= hs.take(i as int));
            append_string(&mut out, &self.headers[i].0);
            out.push(':');
            out.push(' ');
            append_string(&mut out, &self.headers[i].1);
            out.push('\r');
            out.push('\n');
            assert(out@ =~= line + header_lines(hs.take(i + 1)));
            i = i + 1;
        }
        assert(hs.take(hs.len() as int) =~= hs);
        out.push('\r');
        out.push('\n');
        assert(out@ =~= head_text(self.method@, self.abs_path@, self.version@, hs));
        let bytes = match copy_body(&self.body) {
            Some(b) => b,
            None => Vec::new(),
        };
        (string_of(out.as_slice()), bytes)
    }
}

/// How many of `hs` are named `n`, up to ASCII case.
pub open spec fn count_named(hs: Seq<(Seq<char>, Seq<char>)>, n: Seq<char>) -> nat
    decreases hs.len(),
{
    if hs.len() == 0 {
        0
    } else {
        count_named(hs.drop_last(), n) + if eq_ci(hs.last().0, n) {
            1nat
        } else {
            0nat
        }
    }
}

proof fn lemma_count_concat(a: Seq<(Seq<char>, Seq<char>)>, b: Seq<(Seq<char>, Seq<char>)>, n: Seq<char>)
    ensures
        count_named(a + b, n) == count_named(a, n) + count_named(b, n),
    decreases b.len(),
{
    if b.len() > 0 {
        assert((a + b).drop_last() =~= a + b.drop_last());
        lemma_count_concat(a, b.drop_last(), n);
    } else {
        assert(a + b =~= a);
    }
}

proof fn lemma_count_absent(hs: Seq<(Seq<char>, Seq<char>)>, n: Seq<char>)
    ensures
        !has_header(hs, n) <==> count_named(hs, n) == 0,
    decreases hs.len(),
{
    if hs.len() > 0 {
        let init = hs.drop_last();
        lemma_count_absent(init, n);
        if has_header(init, n) {
            let i = choose|i: int| 0 <= i < init.len() && eq_ci(#[trigger] init[i].0, n);
            assert(hs[i] == init[i]);
        }
        if has_header(hs, n) && !eq_ci(hs.last().0, n) {
            let i = choose|i: int| 0 <= i < hs.len() && eq_ci(#[trigger] hs[i].0, n);
            assert(init[i] == hs[i]);
        }
        if eq_ci(hs.last().0, n) {
            assert(eq_ci(hs[hs.len() - 1].0, n));
        }
    }
}

proof fn lemma_count_one(h: (Seq<char>, Seq<char>), n: Seq<char>)
    ensures
        count_named(seq![h], n) == (if eq_ci(h.0, n) { 1nat } else { 0nat }),
{
    assert(seq![h].drop_last() =~= Seq::<(Seq<char>, Seq<char>)>::empty());
    assert(count_named(Seq::<(Seq<char>, Seq<char>)>::empty(), n) == 0);
    assert(seq![h].last() == h);
}

proof fn lemma_names_differ()
    ensures
        !eq_ci(host_name(), user_agent_name()),
        !eq_ci(host_name(), connection_name()),
        !eq_ci(host_name(), content_length_name()),
        !eq_ci(user_agent_name(), host_name()),
        !eq_ci(user_agent_name(), connection_name()),
        !eq_ci(user_agent_name(), content_length_name()),
        !eq_ci(connection_name(), host_name()),
        !eq_ci(connection_name(), user_agent_name()),
        !eq_ci(connection_name(), content_length_name()),
        !eq_ci(content_length_name(), host_name()),
        !eq_ci(content_length_name(), user_agent_name()),
        !eq_ci(content_length_name(), connection_name()),
        eq_ci(host_name(), host_name()),
        eq_ci(user_agent_name(), user_agent_name()),
        eq_ci(connection_name(), connection_name()),
        eq_ci(content_length_name(), content_length_name()),
{
    reveal_strlit("Host");
    reveal_strlit("User-Agent");
    reveal_strlit("Connection");
    reveal_strlit("Content-Length");
    assert(lower(user_agent_name()[0]) != lower(connection_name()[0]));
}

/// The default headers never duplicate the caller's: a message carries
/// exactly one `Host`, `User-Agent` and `Connection` header when the caller
/// gave none of that name (with the computed value), and exactly one
/// `Content-Length` when there is a body and the caller gave none; a header
/// the caller supplied is sent as often as the caller gave it, and no default
/// of that name is added.
pub proof fn lemma_default_headers(r: RequestView)
    ensures
        !has_header(r.headers, host_name()) ==> count_named(message_headers(r), host_name()) == 1
            && message_headers(r).contains((host_name(), authority_of(r.url))),
        !has_header(r.headers, user_agent_name()) ==> count_named(message_headers(r), user_agent_name()) == 1
            && message_headers(r).contains((user_agent_name(), user_agent_value())),
        !has_header(r.headers, connection_name()) ==> count_named(message_headers(r), connection_name()) == 1
            && message_headers(r).contains((connection_name(), close_value())),
        !has_header(r.headers, content_length_name()) && r.body is Some ==> count_named(
            message_headers(r),
            content_length_name(),
        ) == 1 && message_headers(r).contains((content_length_name(), decimal(r.body->0.len()))),
        !has_header(r.headers, content_length_name()) && r.body is None ==> count_named(
            message_headers(r),
            content_length_name(),
        ) == 0,
        has_header(r.headers, host_name()) ==> count_named(message_headers(r), host_name())
            == count_named(r.headers, host_name()),
        has_header(r.headers, user_agent_name()) ==> count_named(message_headers(r), user_agent_name())
            == count_named(r.headers, user_agent_name()),
        has_header(r.headers, connection_name()) ==> count_named(message_headers(r), connection_name())
            == count_named(r.headers, connection_name()),
        has_header(r.headers, content_length_name()) ==> count_named(message_headers(r), content_length_name())
            == count_named(r.headers, content_length_name()),
{
    lemma_names_differ();
    let h = r.headers;
    let p1: Seq<(Seq<char>, Seq<char>)> = if has_header(h, host_name()) {
        seq![]
    } else {
        seq![(host_name(), authority_of(r.url))]
    };
    let p2: Seq<(Seq<char>, Seq<char>)> = if has_header(h, user_agent_name()) {
        seq![]
    } else {
        seq![(user_agent_name(), user_agent_value())]
    };
    let p3: Seq<(Seq<char>, Seq<char>)> = if has_header(h, connection_name()) {
        seq![]
    } else {
        seq![(connection_name(), close_value())]
    };
    let p4: Seq<(Seq<char>, Seq<char>)> = if has_header(h, content_length_name()) || r.body is None {
        seq![]
    } else {
        seq![(content_length_name(), decimal(r.body->0.len()))]
    };
    let m = message_headers(r);
    assert(m =~= h + p1 + p2 + p3 + p4);
    let names = seq![host_name(), user_agent_name(), connection_name(), content_length_name()];
    assert forall|k: int| 0 <= k < 4 implies count_named(m, #[trigger] names[k]) == count_named(h, names[k])
        + count_named(p1, names[k]) + count_named(p2, names[k]) + count_named(p3, names[k])
        + count_named(p4, names[k]) by {
        let n = names[k];
        lemma_count_concat(h, p1, n);
        lemma_count_concat(h + p1, p2, n);
        lemma_count_concat(h + p1 + p2, p3, n);
        lemma_count_concat(h + p1 + p2 + p3, p4, n);
    }
    assert forall|k: int| 0 <= k < 4 implies (!has_header(h, #[trigger] names[k]) <==> count_named(h, names[k]) == 0) by {
        lemma_count_absent(h, names[k]);
    }
    if !has_header(h, host_name()) {
        lemma_count_one((host_name(), authority_of(r.url)), host_name());
        lemma_count_one((host_name(), authority_of(r.url)), user_agent_name());
        lemma_count_one((host_name(), authority_of(r.url)), connection_name());
        lemma_count_one((host_name(), authority_of(r.url)), content_length_name());
        assert(m[h.len() as int] == (host_name(), authority_of(r.url)));
    }
    if !has_header(h, user_agent_name()) {
        lemma_count_one((user_agent_name(), user_agent_value()), host_name());
        lemma_count_one((user_agent_name(), user_agent_value()), user_agent_name());
        lemma_count_one((user_agent_name(), user_agent_value()), connection_name());
        lemma_count_one((user_agent_name(), user_agent_value()), content_length_name());
        assert(m[(h.len() + p1.len()) as int] == (user_agent_name(), user_agent_value()));
    }
    if !has_header(h, connection_name()) {
        lemma_count_one((connection_name(), close_value()), host_name());
        lemma_count_one((connection_name(), close_value()), user_agent_name());
        lemma_count_one((connection_name(), close_value()), connection_name());
        lemma_count_one((connection_name(), close_value()), content_length_name());
        assert(m[(h.len() + p1.len() + p2.len()) as int] == (connection_name(), close_value()));
    }
    if !(has_header(h, content_length_name()) || r.body is None) {
        let e = (content_length_name(), decimal(r.body->0.len()));
        lemma_count_one(e, host_name());
        lemma_count_one(e, user_agent_name());
        lemma_count_one(e, connection_name());
        lemma_count_one(e, content_length_name());
        assert(m[(h.len() + p1.len() + p2.len() + p3.len()) as int] == e);
    }
    assert(count_named(Seq::<(Seq<char>, Seq<char>)>::empty(), host_name()) == 0);
    assert(count_named(Seq::<(Seq<char>, Seq<char>)>::empty(), user_agent_name()) == 0);
    assert(count_named(Seq::<(Seq<char>, Seq<char>)>::empty(), connection_name()) == 0);
    assert(count_named(Seq::<(Seq<char>, Seq<char>)>::empty(), content_length_name()) == 0);
    assert(names[0] == host_name());
    assert(names[1] == user_agent_name());
    assert(names[2] == connection_name());
    assert(names[3] == content_length_name());
}

} // verus!
