//! Parsing the bytes of an HTTP/1.1 response: status line, header block and
//! a body framed by `Content-Length` or by chunked transfer-coding.

use vstd::prelude::*;
use vstd::utf8::*;
use crate::headers::{find_colon, header_value_parses, is_header_name, is_header_value, is_token, pair_view, pairs_view, split_header};
use crate::text::{chars_of, eq_ci, eq_ignore_case, is_whitespace, is_ws, parse_unsigned, parse_unsigned_chars, string_of, trim_range, utf8_str};

verus! {

/// Why a response could not be read.
#[derive(Clone, Copy, Debug, PartialEq, Eq, Structural)]
pub enum ParseError {
    /// The bytes end before the response does.
    Incomplete,
    /// The status line is not UTF-8, or its code is not a number.
    MalformedStatusLine,
    /// There is no status line, or it has no second word.
    MissingStatusCode,
    /// A header line has no colon, a bad name or value, or a bad `Content-Length`.
    MalformedHeaderLine,
    /// A chunk-size line does not hold a hexadecimal number.
    MalformedChunkSize,
}

/// A parsed response: status code, headers in order, body bytes.
#[derive(Clone)]
pub struct Response {
    pub status: u16,
    /// Headers in the order received, names as written; duplicates are all kept.
    pub headers: Vec<(String, String)>,
    pub body: Vec<u8>,
}

pub struct ResponseView {
    pub status: u16,
    pub headers: Seq<(Seq<char>, Seq<char>)>,
    pub body: Seq<u8>,
}

impl View for Response {
    type V = ResponseView;

    open spec fn view(&self) -> ResponseView {
        ResponseView { status: self.status, headers: pairs_view(self.headers@), body: self.body@ }
    }
}

/// The first index at or after `i` where `\r\n` starts.
pub open spec fn find_crlf(s: Seq<u8>, i: int) -> Option<int>
    decreases s.len() - i,
{
    if i < 0 || i + 1 >= s.len() {
        None
    } else if s[i] == 13 && s[i + 1] == 10 {
        Some(i)
    } else {
        find_crlf(s, i + 1)
    }
}

proof fn lemma_find_crlf(s: Seq<u8>, i: int)
    ensures
        match find_crlf(s, i) {
            Some(e) => 0 <= i <= e && e + 1 < s.len() && s[e] == 13 && s[e + 1] == 10,
            None => true,
        },
    decreases s.len() - i,
{
    if !(i < 0 || i + 1 >= s.len()) && !(s[i] == 13 && s[i + 1] == 10) {
        lemma_find_crlf(s, i + 1);
    }
}

fn find_crlf_exec(s: &[u8], i: usize) -> (r: Option<usize>)
    ensures
        match r {
            Some(e) => find_crlf(s@, i as int) == Some(e as int),
            None => find_crlf(s@, i as int) is None,
        },
{
    let mut j = i;
    while j < s.len() && 1 < s.len() - j
        invariant
            i <= j,
            find_crlf(s@, i as int) == find_crlf(s@, j as int),
        decreases s.len() - j,
    {
        if s[j] == 13 && s[j + 1] == 10 {
            return Some(j);
        }
        j = j + 1;
    }
    None
}

/// The lines of the header block that starts at `start`, each without its
/// `\r\n`, and where the body starts after the blank line; `None` if the bytes
/// end first.
pub open spec fn head_lines(s: Seq<u8>, start: int) -> Option<(Seq<Seq<u8>>, int)>
    decreases s.len() - start via head_lines_decreases
{
    match find_crlf(s, start) {
        None => None,
        Some(e) => if e == start {
            Some((seq![], start + 2))
        } else {
            match head_lines(s, e + 2) {
                None => None,
                Some(rest) => Some((seq![s.subrange(start, e)] + rest.0, rest.1)),
            }
        },
    }
}

#[via_fn]
proof fn head_lines_decreases(s: Seq<u8>, start: int) {
    lemma_find_crlf(s, start);
}

pub open spec fn ranges_lines(s: Seq<u8>, rs: Seq<(usize, usize)>) -> Seq<Seq<u8>> {
    rs.map_values(|r: (usize, usize)| s.subrange(r.0 as int, r.1 as int))
}

pub open spec fn ranges_ok(rs: Seq<(usize, usize)>, n: nat) -> bool {
    forall|k: int| 0 <= k < rs.len() ==> #[trigger] rs[k].0 <= rs[k].1 && rs[k].1 <= n
}

pub open spec fn join_head(c: Seq<Seq<u8>>, r: Option<(Seq<Seq<u8>>, int)>) -> Option<(Seq<Seq<u8>>, int)> {
    match r {
        None => None,
        Some(p) => Some((c + p.0, p.1)),
    }
}

/// Finds the header block: the bounds of each line and where the body starts.
fn split_head(s: &[u8]) -> (r: Option<(Vec<(usize, usize)>, usize)>)
    ensures
        match r {
            None => head_lines(s@, 0) is None,
            Some(p) => head_lines(s@, 0) == Some((ranges_lines(s@, p.0@), p.1 as int))
                && ranges_ok(p.0@, s@.len()) && p.1 <= s@.len(),
        },
{
    let n = s.len();
    let mut rs: Vec<(usize, usize)> = Vec::new();
    let mut ls: usize = 0;
    assert(ranges_lines(s@, rs@) =~= seq![]);
    assert(join_head(seq![], head_lines(s@, 0)) == head_lines(s@, 0)) by {
        match head_lines(s@, 0) {
            None => {},
            Some(p) => { assert(Seq::<Seq<u8>>::empty() + p.0 =~= p.0); },
        }
    }
    loop
        invariant
            n == s@.len(),
            ls <= s@.len(),
            ranges_ok(rs@, s@.len()),
            head_lines(s@, 0) == join_head(ranges_lines(s@, rs@), head_lines(s@, ls as int)),
        decreases s@.len() - ls,
    {
        proof { lemma_find_crlf(s@, ls as int); }
        match find_crlf_exec(s, ls) {
            None => {
                return None;
            },
            Some(e) => {
                assert(ls <= e && e + 1 < s@.len());
                if e == ls {
                    assert(ranges_lines(s@, rs@) + Seq::<Seq<u8>>::empty() =~= ranges_lines(s@, rs@));
                    return Some((rs, ls + 2));
                }
                let ghost c = ranges_lines(s@, rs@);
                let ghost line = s@.subrange(ls as int, e as int);
                rs.push((ls, e));
                assert(ranges_lines(s@, rs@) =~= c.push(line));
                assert(join_head(c, join_head(seq![line], head_lines(s@, e + 2))) == join_head(
                    c.push(line),
                    head_lines(s@, e + 2),
                )) by {
                    match head_lines(s@, e + 2) {
                        None => {},
                        Some(p) => { assert(c + (seq![line] + p.0) =~= c.push(line) + p.0); },
                    }
                }
                ls = e + 2;
            },
        }
    }
}

/// The words of `cs`, split at whitespace as `str::split_whitespace` does: the
/// completed ones, and the one still open at the end.
pub open spec fn word_parts(cs: Seq<char>) -> (Seq<Seq<char>>, Seq<char>)
    decreases cs.len(),
{
    if cs.len() == 0 {
        (seq![], seq![])
    } else {
        let (d, c) = word_parts(cs.drop_last());
        if is_ws(cs.last()) {
            if c.len() > 0 {
                (d.push(c), seq![])
            } else {
                (d, seq![])
            }
        } else {
            (d, c.push(cs.last()))
        }
    }
}

/// The non-empty runs of non-whitespace characters of `cs`, in order.
pub open spec fn words(cs: Seq<char>) -> Seq<Seq<char>> {
    let (d, c) = word_parts(cs);
    if c.len() > 0 {
        d.push(c)
    } else {
        d
    }
}

/// The second word of `cs`, if it has one.
fn second_word(cs: &Vec<char>) -> (r: Option<Vec<char>>)
    ensures
        match r {
            Some(w) => words(cs@).len() >= 2 && w@ == words(cs@)[1],
            None => words(cs@).len() < 2,
        },
{
    let ghost mut d: Seq<Seq<char>> = seq![];
    let mut count: usize = 0;
    let mut second: Vec<char> = Vec::new();
    let mut cur: Vec<char> = Vec::new();
    let mut i: usize = 0;
    while i < cs.len()
        invariant
            i <= cs@.len(),
            word_parts(cs@.take(i as int)) == (d, cur@),
            count == d.len(),
            count <= i,
            count >= 2 ==> second@ == d[1],
        decreases cs.len() - i,
    {
        let c = cs[i];
        assert(cs@.take(i + 1).drop_last() =~= cs@.take(i as int));
        assert(cs@.take(i + 1).last() == c);
        if is_whitespace(c) {
            if cur.len() > 0 {
                proof { d = d.push(cur@); }
                if count == 1 {
                    second = cur;
                }
                cur = Vec::new();
                count = count + 1;
            }
        } else {
            cur.push(c);
        }
        i = i + 1;
    }
    assert(cs@.take(cs@.len() as int) =~= cs@);
    if count >= 2 {
        Some(second)
    } else if count == 1 && cur.len() > 0 {
        Some(cur)
    } else {
        None
    }
}

/// The status code of a status line, or why there is none.
pub open spec fn status_spec(line: Seq<u8>) -> Result<u16, ParseError> {
    if !valid_utf8(line) {
        Err(ParseError::MalformedStatusLine)
    } else {
        let ws = words(decode_utf8(line));
        if ws.len() < 2 {
            Err(ParseError::MissingStatusCode)
        } else {
            match parse_unsigned(ws[1], 65535) {
                None => Err(ParseError::MalformedStatusLine),
                Some(v) => Ok(v as u16),
            }
        }
    }
}

fn parse_status_line(line: &[u8]) -> (r: Result<u16, ParseError>)
    ensures
        r == status_spec(line@),
{
    let text = match utf8_str(line) {
        None => return Err(ParseError::MalformedStatusLine),
        Some(t) => t,
    };
    let cs = chars_of(text);
    match second_word(&cs) {
        None => Err(ParseError::MissingStatusCode),
        Some(w) => match parse_unsigned_chars(&w, 65535) {
            None => Err(ParseError::MalformedStatusLine),
            Some(v) => Ok(v as u16),
        },
    }
}

/// The header a line of the header block holds: UTF-8 text split at its first
/// colon, trimmed, with a valid name and value.
pub open spec fn header_line_spec(line: Seq<u8>) -> Option<(Seq<char>, Seq<char>)> {
    if !valid_utf8(line) {
        None
    } else {
        match split_header(decode_utf8(line)) {
            None => None,
            Some(h) => if is_token(h.0) && is_header_value(h.1) {
                Some(h)
            } else {
                None
            },
        }
    }
}

fn parse_header_line(line: &[u8]) -> (r: Option<(String, String)>)
    ensures
        match r {
            Some(p) => header_line_spec(line@) == Some(pair_view(p)),
            None => header_line_spec(line@) is None,
        },
{
    let text = match utf8_str(line) {
        None => return None,
        Some(t) => t,
    };
    let cs = chars_of(text);
    let k = match find_colon(&cs) {
        None => return None,
        Some(k) => k,
    };
    let (na, nb) = trim_range(&cs, 0, k);
    let (va, vb) = trim_range(&cs, k + 1, cs.len());
    let name = string_of(&cs.as_slice()[na..nb]);
    let value = string_of(&cs.as_slice()[va..vb]);
    if is_header_name(name.as_str()) && header_value_parses(value.as_str()) {
        Some((name, value))
    } else {
        None
    }
}

pub open spec fn content_length_name() -> Seq<char> {
    "content-length"@
}

pub open spec fn transfer_encoding_name() -> Seq<char> {
    "transfer-encoding"@
}

pub open spec fn chunked_word() -> Seq<char> {
    "chunked"@
}

/// Whether `w` occurs in `v`, up to ASCII case.
pub open spec fn contains_ci(v: Seq<char>, w: Seq<char>) -> bool {
    exists|k: int| 0 <= k && k + w.len() <= v.len() && eq_ci(#[trigger] v.subrange(k, k + w.len()), w)
}

/// A `Transfer-Encoding` header whose value mentions `chunked`.
pub open spec fn is_chunked_header(h: (Seq<char>, Seq<char>)) -> bool {
    eq_ci(h.0, transfer_encoding_name()) && contains_ci(h.1, chunked_word())
}

/// What the header block says: its headers, the body length that the last
/// `Content-Length` gives (0 without one), and whether the body is chunked.
pub struct HeaderScan {
    pub headers: Seq<(Seq<char>, Seq<char>)>,
    pub length: nat,
    pub chunked: bool,
}

/// Reads the header lines in order; `None` if one is malformed or a
/// `Content-Length` is not a number that fits in `usize`.
pub open spec fn scan_headers(lines: Seq<Seq<u8>>) -> Option<HeaderScan>
    decreases lines.len(),
{
    if lines.len() == 0 {
        Some(HeaderScan { headers: seq![], length: 0, chunked: false })
    } else {
        match scan_headers(lines.drop_last()) {
            None => None,
            Some(sc) => match header_line_spec(lines.last()) {
                None => None,
                Some(h) => if eq_ci(h.0, content_length_name()) {
                    match parse_unsigned(h.1, usize::MAX as nat) {
                        None => None,
                        Some(n) => Some(
                            HeaderScan {
                                headers: sc.headers.push(h),
                                length: n,
                                chunked: sc.chunked || is_chunked_header(h),
                            },
                        ),
                    }
                } else {
                    Some(
                        HeaderScan {
                            headers: sc.headers.push(h),
                            length: sc.length,
                            chunked: sc.chunked || is_chunked_header(h),
                        },
                    )
                },
            },
        }
    }
}

proof fn lemma_scan_none(lines: Seq<Seq<u8>>, k: int)
    requires
        0 <= k <= lines.len(),
        scan_headers(lines.take(k)) is None,
    ensures
        scan_headers(lines) is None,
    decreases lines.len() - k,
{
    if k < lines.len() {
        assert(lines.take(k + 1).drop_last() =~= lines.take(k));
        lemma_scan_none(lines, k + 1);
    } else {
        assert(lines.take(k) =~= lines);
    }
}

fn contains_ignore_case(v: &Vec<char>, w: &Vec<char>) -> (r: bool)
    ensures
        r == contains_ci(v@, w@),
{
    let mut k: usize = 0;
    while k <= v.len() && w.len() <= v.len() - k
        invariant
            k <= v@.len() + 1,
            forall|j: int| 0 <= j < k ==> !eq_ci(#[trigger] v@.subrange(j, j + w@.len()), w@),
        decreases v.len() - k,
    {
        let window = crate::headers::slice_chars(v, k, k + w.len());
        if eq_ignore_case(&window, w) {
            return true;
        }
        k = k + 1;
    }
    assert forall|j: int| 0 <= j && j + w@.len() <= v@.len() implies !eq_ci(
        #[trigger] v@.subrange(j, j + w@.len()),
        w@,
    ) by {}
    false
}

pub open spec fn is_hex(b: u8) -> bool {
    (48 <= b && b <= 57) || (97 <= b && b <= 102) || (65 <= b && b <= 70)
}

pub open spec fn hex_val(b: u8) -> nat {
    if b <= 57 {
        (b - 48) as nat
    } else if b >= 97 {
        (b - 87) as nat
    } else {
        (b - 55) as nat
    }
}

/// The value of a run of hexadecimal digits.
pub open spec fn hex_value(ds: Seq<u8>) -> nat
    decreases ds.len(),
{
    if ds.len() == 0 {
        0
    } else {
        hex_value(ds.drop_last()) * 16 + hex_val(ds.last())
    }
}

pub open spec fn all_hex(ds: Seq<u8>) -> bool {
    forall|i: int| 0 <= i < ds.len() ==> is_hex(#[trigger] ds[i])
}

/// The hexadecimal number `w` denotes if it is at most `max`, read as the
/// standard library's `from_str_radix` reads an unsigned integer in base 16.
pub open spec fn parse_hex(w: Seq<u8>, max: nat) -> Option<nat> {
    let ds = if w.len() > 1 && w[0] == 43 {
        w.drop_first()
    } else {
        w
    };
    if ds.len() > 0 && all_hex(ds) && hex_value(ds) <= max {
        Some(hex_value(ds))
    } else {
        None
    }
}

proof fn lemma_hex_mono(ds: Seq<u8>, k: int)
    requires
        0 <= k <= ds.len(),
        all_hex(ds),
    ensures
        hex_value(ds.take(k)) <= hex_value(ds),
    decreases ds.len() - k,
{
    if k < ds.len() {
        assert(ds.take(k + 1).drop_last() =~= ds.take(k));
        lemma_hex_mono(ds, k + 1);
    } else {
        assert(ds.take(k) =~= ds);
    }
}

/// Reads the chunk size written in `s[lo..hi]`.
fn parse_hex_range(s: &[u8], lo: usize, hi: usize, max: u64) -> (r: Option<u64>)
    requires
        lo <= hi <= s@.len(),
    ensures
        match r {
            Some(v) => parse_hex(s@.subrange(lo as int, hi as int), max as nat) == Some(v as nat),
            None => parse_hex(s@.subrange(lo as int, hi as int), max as nat) is None,
        },
{
    let ghost w = s@.subrange(lo as int, hi as int);
    let start: usize = if hi - lo > 1 && s[lo] == 43 {
        lo + 1
    } else {
        lo
    };
    let ghost ds = if w.len() > 1 && w[0] == 43 {
        w.drop_first()
    } else {
        w
    };
    assert(ds =~= s@.subrange(start as int, hi as int));
    if start == hi {
        return None;
    }
    let mut v: u64 = 0;
    let mut i = start;
    assert(ds.take(0) =~= seq![]);
    while i < hi
        invariant
            lo <= start <= i <= hi <= s@.len(),
            w == s@.subrange(lo as int, hi as int),
            ds == s@.subrange(start as int, hi as int),
            ds == (if w.len() > 1 && w[0] == 43 {
                w.drop_first()
            } else {
                w
            }),
            v as nat == hex_value(ds.take(i - start)),
            v <= max,
            forall|k: int| 0 <= k < i - start ==> is_hex(#[trigger] ds[k]),
        decreases hi - i,
    {
        let b = s[i];
        assert(ds[i - start] == b);
        let d: u64 = if 48 <= b && b <= 57 {
            (b - 48) as u64
        } else if 97 <= b && b <= 102 {
            (b - 87) as u64
        } else if 65 <= b && b <= 70 {
            (b - 55) as u64
        } else {
            assert(!is_hex(ds[i - start]));
            assert(!all_hex(ds));
            return None;
        };
        let ghost t = ds.take(i - start + 1);
        assert(t.drop_last() =~= ds.take(i - start));
        assert(t.last() == b);
        assert(hex_value(t) == v * 16 + d);
        if d > max || v > (max - d) / 16 {
            proof {
                assert(v * 16 + d > max) by (nonlinear_arith)
                    requires
                        d > max || v > (max - d) / 16,
                        d <= 15,
                {
                }
                if all_hex(ds) {
                    lemma_hex_mono(ds, i - start + 1);
                }
            }
            return None;
        }
        assert(v * 16 + d <= max) by (nonlinear_arith)
            requires
                d <= max,
                v <= (max - d) / 16,
        {
        }
        v = v * 16 + d;
        i = i + 1;
    }
    assert(ds.take(ds.len() as int) =~= ds);
    Some(v)
}

/// The first index at or after `i` holding `;` or `\r`: where the digits of a
/// chunk-size line end.
pub open spec fn find_size_end(s: Seq<u8>, i: int) -> Option<int>
    decreases s.len() - i,
{
    if i < 0 || i >= s.len() {
        None
    } else if s[i] == 59 || s[i] == 13 {
        Some(i)
    } else {
        find_size_end(s, i + 1)
    }
}

/// The first index at or after `i` holding `\n`.
pub open spec fn find_lf(s: Seq<u8>, i: int) -> Option<int>
    decreases s.len() - i,
{
    if i < 0 || i >= s.len() {
        None
    } else if s[i] == 10 {
        Some(i)
    } else {
        find_lf(s, i + 1)
    }
}

proof fn lemma_find_size_end(s: Seq<u8>, i: int)
    ensures
        match find_size_end(s, i) {
            Some(d) => 0 <= i <= d < s.len(),
            None => true,
        },
    decreases s.len() - i,
{
    if !(i < 0 || i >= s.len()) && !(s[i] == 59 || s[i] == 13) {
        lemma_find_size_end(s, i + 1);
    }
}

proof fn lemma_find_lf(s: Seq<u8>, i: int)
    ensures
        match find_lf(s, i) {
            Some(d) => 0 <= i <= d < s.len(),
            None => true,
        },
    decreases s.len() - i,
{
    if !(i < 0 || i >= s.len()) && !(s[i] == 10) {
        lemma_find_lf(s, i + 1);
    }
}

fn find_size_end_exec(s: &[u8], i: usize) -> (r: Option<usize>)
    ensures
        match r {
            Some(d) => find_size_end(s@, i as int) == Some(d as int),
            None => find_size_end(s@, i as int) is None,
        },
{
    let mut j = i;
    while j < s.len()
        invariant
            i <= j,
            find_size_end(s@, i as int) == find_size_end(s@, j as int),
        decreases s.len() - j,
    {
        if s[j] == 59 || s[j] == 13 {
            return Some(j);
        }
        j = j + 1;
    }
    None
}

fn find_lf_exec(s: &[u8], i: usize) -> (r: Option<usize>)
    ensures
        match r {
            Some(d) => find_lf(s@, i as int) == Some(d as int),
            None => find_lf(s@, i as int) is None,
        },
{
    let mut j = i;
    while j < s.len()
        invariant
            i <= j,
            find_lf(s@, i as int) == find_lf(s@, j as int),
        decreases s.len() - j,
    {
        if s[j] == 10 {
            return Some(j);
        }
        j = j + 1;
    }
    None
}

/// The body that the chunks from `pos` on carry: each chunk is a size line
/// (hexadecimal digits up to `;` or `\r`, the rest of the line skipped), that
/// many bytes, and a `\r\n`; a chunk of size zero ends the body, and what
/// follows it is not read.
pub open spec fn chunks(s: Seq<u8>, pos: int) -> Result<Seq<u8>, ParseError>
    decreases s.len() - pos via chunks_decreases
{
    match find_size_end(s, pos) {
        None => Err(ParseError::Incomplete),
        Some(d) => match find_lf(s, d + 1) {
            None => Err(ParseError::Incomplete),
            Some(n) => match parse_hex(s.subrange(pos, d), usize::MAX as nat) {
                None => Err(ParseError::MalformedChunkSize),
                Some(size) => if size == 0 {
                    Ok(seq![])
                } else if n + 1 + size > s.len() {
                    Err(ParseError::Incomplete)
                } else {
                    match find_crlf(s, n + 1 + size) {
                        None => Err(ParseError::Incomplete),
                        Some(e) => match chunks(s, e + 2) {
                            Err(x) => Err(x),
                            Ok(rest) => Ok(s.subrange(n + 1, n + 1 + size) + rest),
                        },
                    }
                },
            },
        },
    }
}

#[via_fn]
proof fn chunks_decreases(s: Seq<u8>, pos: int) {
    lemma_find_size_end(s, pos);
    match find_size_end(s, pos) {
        None => {},
        Some(d) => {
            lemma_find_lf(s, d + 1);
            match find_lf(s, d + 1) {
                None => {},
                Some(n) => {
                    match parse_hex(s.subrange(pos, d), usize::MAX as nat) {
                        None => {},
                        Some(size) => {
                            lemma_find_crlf(s, n + 1 + size);
                        },
                    }
                },
            }
        },
    }
}

pub open spec fn prepend_body(b: Seq<u8>, r: Result<Seq<u8>, ParseError>) -> Result<Seq<u8>, ParseError> {
    match r {
        Ok(x) => Ok(b + x),
        Err(e) => Err(e),
    }
}

/// Decodes the chunked body that starts at `start`.
fn decode_chunks(s: &[u8], start: usize) -> (r: Result<Vec<u8>, ParseError>)
    ensures
        match r {
            Ok(b) => chunks(s@, start as int) == Ok::<Seq<u8>, ParseError>(b@),
            Err(e) => chunks(s@, start as int) == Err::<Seq<u8>, ParseError>(e),
        },
{
    let n = s.len();
    let mut body: Vec<u8> = Vec::new();
    let mut pos = start;
    assert(prepend_body(seq![], chunks(s@, start as int)) == chunks(s@, start as int)) by {
        match chunks(s@, start as int) {
            Ok(x) => { assert(Seq::<u8>::empty() + x =~= x); },
            Err(_) => {},
        }
    }
    loop
        invariant
            n == s@.len(),
            chunks(s@, start as int) == prepend_body(body@, chunks(s@, pos as int)),
        decreases n - pos,
    {
        proof { lemma_find_size_end(s@, pos as int); }
        let d = match find_size_end_exec(s, pos) {
            None => return Err(ParseError::Incomplete),
            Some(d) => d,
        };
        proof { lemma_find_lf(s@, d + 1); }
        let nl = match find_lf_exec(s, d + 1) {
            None => return Err(ParseError::Incomplete),
            Some(nl) => nl,
        };
        let size = match parse_hex_range(s, pos, d, usize::MAX as u64) {
            None => return Err(ParseError::MalformedChunkSize),
            Some(v) => v as usize,
        };
        if size == 0 {
            assert(body@ + Seq::<u8>::empty() =~= body@);
            return Ok(body);
        }
        if size > n - (nl + 1) {
            return Err(ParseError::Incomplete);
        }
        let data_end = nl + 1 + size;
        proof { lemma_find_crlf(s@, data_end as int); }
        let e = match find_crlf_exec(s, data_end) {
            None => return Err(ParseError::Incomplete),
            Some(e) => e,
        };
        let ghost before = body@;
        let mut i = nl + 1;
        while i < data_end
            invariant
                nl + 1 <= i <= data_end <= s@.len(),
                body@ == before + s@.subrange(nl + 1, i as int),
            decreases data_end - i,
        {
            body.push(s[i]);
            assert(s@.subrange(nl + 1, i + 1) =~= s@.subrange(nl + 1, i as int).push(s@[i as int]));
            i = i + 1;
        }
        let ghost data = s@.subrange(nl + 1, data_end as int);
        assert(prepend_body(before, prepend_body(data, chunks(s@, e + 2))) == prepend_body(
            before + data,
            chunks(s@, e + 2),
        )) by {
            match chunks(s@, e + 2) {
                Ok(x) => { assert(before + (data + x) =~= before + data + x); },
                Err(_) => {},
            }
        }
        pos = e + 2;
    }
}

/// The response that the bytes `s` hold, or why they hold none.
pub open spec fn response_spec(s: Seq<u8>) -> Result<ResponseView, ParseError> {
    match head_lines(s, 0) {
        None => Err(ParseError::Incomplete),
        Some((lines, start)) => if lines.len() == 0 {
            Err(ParseError::MissingStatusCode)
        } else {
            match status_spec(lines[0]) {
                Err(e) => Err(e),
                Ok(code) => match scan_headers(lines.drop_first()) {
                    None => Err(ParseError::MalformedHeaderLine),
                    Some(sc) => if sc.chunked {
                        match chunks(s, start) {
                            Err(e) => Err(e),
                            Ok(b) => Ok(ResponseView { status: code, headers: sc.headers, body: b }),
                        }
                    } else if start + sc.length <= s.len() {
                        Ok(
                            ResponseView {
                                status: code,
                                headers: sc.headers,
                                body: s.subrange(start, start + sc.length),
                            },
                        )
                    } else {
                        Err(ParseError::Incomplete)
                    },
                },
            }
        },
    }
}

/// Parses a response from its bytes. The body is the `Content-Length` bytes
/// after the header block (none without that header), or, under chunked
/// transfer-coding, the decoded chunks. `Incomplete` means that more bytes
/// are needed.
pub fn parse_http_response(s: &[u8]) -> (r: Result<Response, ParseError>)
    ensures
        match r {
            Ok(resp) => response_spec(s@) == Ok::<ResponseView, ParseError>(resp@),
            Err(e) => response_spec(s@) == Err::<ResponseView, ParseError>(e),
        },
{
    let n = s.len();
    let (rs, start) = match split_head(s) {
        None => return Err(ParseError::Incomplete),
        Some(p) => p,
    };
    let ghost lines = ranges_lines(s@, rs@);
    if rs.len() == 0 {
        return Err(ParseError::MissingStatusCode);
    }
    let (a0, b0) = rs[0];
    assert(rs@[0].0 <= rs@[0].1 && rs@[0].1 <= s@.len());
    let status = match parse_status_line(&s[a0..b0]) {
        Err(e) => return Err(e),
        Ok(c) => c,
    };
    let ghost hl = lines.drop_first();
    assert(lines[0] == s@.subrange(a0 as int, b0 as int));
    let cl_name = chars_of("content-length");
    let te_name = chars_of("transfer-encoding");
    let chunked_w = chars_of("chunked");
    let mut headers: Vec<(String, String)> = Vec::new();
    let mut length: usize = 0;
    let mut chunked = false;
    let mut k: usize = 1;
    assert(hl.take(0) =~= seq![]);
    assert(pairs_view(headers@) =~= seq![]);
    while k < rs.len()
        invariant
            1 <= k <= rs@.len(),
            n == s@.len(),
            lines == ranges_lines(s@, rs@),
            head_lines(s@, 0) == Some((lines, start as int)),
            start <= s@.len(),
            lines.len() > 0,
            status_spec(lines[0]) == Ok::<u16, ParseError>(status),
            hl == lines.drop_first(),
            ranges_ok(rs@, s@.len()),
            cl_name@ == content_length_name(),
            te_name@ == transfer_encoding_name(),
            chunked_w@ == chunked_word(),
            scan_headers(hl.take(k - 1)) == Some(
                HeaderScan { headers: pairs_view(headers@), length: length as nat, chunked },
            ),
        decreases rs.len() - k,
    {
        let (a, b) = rs[k];
        assert(rs@[k as int].0 <= rs@[k as int].1 && rs@[k as int].1 <= s@.len());
        assert(hl.take(k as int).drop_last() =~= hl.take(k - 1));
        assert(hl.take(k as int).last() == s@.subrange(a as int, b as int));
        match parse_header_line(&s[a..b]) {
            None => {
                assert(scan_headers(hl.take(k as int)) is None);
                proof { lemma_scan_none(hl, k as int); }
                return Err(ParseError::MalformedHeaderLine);
            },
            Some(p) => {
                let nc = chars_of(p.0.as_str());
                let vc = chars_of(p.1.as_str());
                if eq_ignore_case(&nc, &cl_name) {
                    match parse_unsigned_chars(&vc, usize::MAX as u64) {
                        None => {
                            assert(eq_ci(pair_view(p).0, content_length_name()));
                            assert(parse_unsigned(pair_view(p).1, usize::MAX as nat) is None);
                            assert(scan_headers(hl.take(k as int)) is None);
                            proof { lemma_scan_none(hl, k as int); }
                            return Err(ParseError::MalformedHeaderLine);
                        },
                        Some(v) => {
                            length = v as usize;
                        },
                    }
                }
                if eq_ignore_case(&nc, &te_name)
                    && contains_ignore_case(&vc, &chunked_w) {
                    chunked = true;
                }
                let ghost prev = headers@;
                headers.push(p);
                assert(pairs_view(headers@) =~= pairs_view(prev).push(pair_view(p)));
            },
        }
        k = k + 1;
    }
    assert(hl.take(rs@.len() - 1) =~= hl);
    let body = if chunked {
        match decode_chunks(s, start) {
            Err(e) => return Err(e),
            Ok(b) => b,
        }
    } else {
        if length > n - start {
            return Err(ParseError::Incomplete);
        }
        let mut body: Vec<u8> = Vec::new();
        let mut i = start;
        let end = start + length;
        while i < end
            invariant
                end == start + length,
                start <= i <= start + length <= s@.len(),
                body@ == s@.subrange(start as int, i as int),
            decreases end - i,
        {
            body.push(s[i]);
            assert(s@.subrange(start as int, i + 1) =~= s@.subrange(start as int, i as int).push(s@[i as int]));
            i = i + 1;
        }
        body
    };
    Ok(Response { status, headers, body })
}

} // verus!
