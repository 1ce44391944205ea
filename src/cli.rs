//! The command line as plain values, and the decisions taken on it before a
//! request is made and after its response arrives.

use vstd::prelude::*;
use vstd::utf8::encode_utf8;
use crate::response::{Response, ResponseView};
use crate::session::first_header;
use crate::text::{chars_of, has_prefix, starts_with};

verus! {

/// Verbosity that shows the status line and headers of a response.
pub const VERBOSE: u8 = 1;

/// Verbosity that also shows the request sent.
pub const VERY_VERBOSE: u8 = 2;

/// When output is colored.
#[derive(Clone, Copy, Debug, PartialEq, Eq, Structural)]
pub enum Color {
    Always,
    Auto,
    Never,
}

impl Color {
    /// The color override this choice asks for: forced on, forced off, or
    /// none (left to the terminal).
    pub fn init(self) -> (r: Option<bool>)
        ensures
            r == (match self {
                Color::Always => Some(true),
                Color::Auto => None::<bool>,
                Color::Never => Some(false),
            }),
    {
        match self {
            Color::Always => Some(true),
            Color::Auto => None,
            Color::Never => Some(false),
        }
    }
}

/// Options common to every command.
pub struct CommonOptions {
    pub verbosity: u8,
    pub output: Option<String>,
    pub location: bool,
    pub header: Vec<String>,
    pub url: String,
}

/// The commands of the client.
pub enum Commands {
    Get { options: CommonOptions },
    Post { options: CommonOptions, data: Option<String>, file: Option<String> },
}

/// The whole command line.
pub struct Cli {
    pub help: bool,
    pub color: Color,
    pub command: Commands,
}

/// Where the body of a request comes from.
pub enum BodySource {
    Empty,
    Inline(Vec<u8>),
    File(String),
}

/// Inline data and a file were both given for the body.
#[derive(Clone, Copy, Debug, PartialEq, Eq, Structural)]
pub struct BodyConflict;

/// Picks the body of a request from inline data or a file, refusing both.
pub fn choose_body(data: &Option<String>, file: &Option<String>) -> (r: Result<BodySource, BodyConflict>)
    ensures
        match (data, file) {
            (Some(_), Some(_)) => r is Err,
            (Some(d), None) => r matches Ok(BodySource::Inline(b)) && b@ == encode_utf8(d@),
            (None, Some(f)) => r matches Ok(BodySource::File(p)) && p@ == f@,
            (None, None) => r matches Ok(BodySource::Empty),
        },
{
    match (data, file) {
        (Some(_), Some(_)) => Err(BodyConflict),
        (Some(d), None) => {
            let bytes = d.as_str().as_bytes();
            let mut out: Vec<u8> = Vec::new();
            let mut i: usize = 0;
            while i < bytes.len()
                invariant
                    i <= bytes@.len(),
                    out@ == bytes@.take(i as int),
                decreases bytes.len() - i,
            {
                out.push(bytes[i]);
                assert(out@ =~= bytes@.take(i + 1));
                i = i + 1;
            }
            assert(bytes@.take(bytes@.len() as int) =~= bytes@);
            Ok(BodySource::Inline(out))
        },
        (None, Some(f)) => Ok(BodySource::File(f.clone())),
        (None, None) => Ok(BodySource::Empty),
    }
}

/// How the body of a response is shown.
#[derive(Clone, Copy, Debug, PartialEq, Eq, Structural)]
pub enum BodyDisplay {
    /// As text: the content type is `text/...` or `application/json`.
    Text,
    /// Not at all: some other content type.
    Binary,
    /// Not at all: the response names no content type.
    NoContentType,
}

pub open spec fn display_spec(r: ResponseView) -> BodyDisplay {
    match first_header(r.headers, "content-type"@) {
        None => BodyDisplay::NoContentType,
        Some(t) => if starts_with(t, "text/"@) || t == "application/json"@ {
            BodyDisplay::Text
        } else {
            BodyDisplay::Binary
        },
    }
}

/// Decides how a response body is shown, from its first `Content-Type`.
pub fn body_display(resp: &Response) -> (r: BodyDisplay)
    ensures
        r == display_spec(resp@),
{
    let n = chars_of("content-type");
    match crate::session::first_header_index(&resp.headers, &n) {
        None => BodyDisplay::NoContentType,
        Some(i) => {
            let t = chars_of(resp.headers[i].1.as_str());
            let text = chars_of("text/");
            let json = chars_of("application/json");
            if has_prefix(&t, &text) || (t.len() == json.len() && has_prefix(&t, &json)) {
                proof {
                    if t@.len() == json@.len() && starts_with(t@, json@) {
                        assert(t@ =~= t@.subrange(0, json@.len() as int));
                    }
                }
                BodyDisplay::Text
            } else {
                proof {
                    if t@ == json@ {
                        assert(t@.subrange(0, json@.len() as int) =~= t@);
                    }
                }
                BodyDisplay::Binary
            }
        },
    }
}

} // verus!
