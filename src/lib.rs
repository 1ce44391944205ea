//! A small HTTP/1.1 client library: header parsing, request framing,
//! response parsing and redirect resolution, with their contracts.

pub mod text;
pub mod url;
pub mod headers;
pub mod message;
pub mod response;
pub mod session;
pub mod cli;
