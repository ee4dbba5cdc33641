//! Incremental, zero-copy parsing of the framing of HTTP/1.x requests: the
//! request line, the header fields, and the empty line that ends them.
//!
//! The parser is a set of grammars on a byte buffer.  Each of them is a pure
//! function of the buffer and returns an [`Outcome`]: `Done` with what was
//! parsed and the unconsumed rest of the buffer, `Error` for a malformed
//! buffer, or `Incomplete` where the buffer ends before the verdict is
//! certain.  After `Incomplete` the caller appends what arrives next and
//! parses again from the start; nothing is kept between calls.  Everything
//! that is returned is borrowed from the buffer: no byte is copied.
//!
//! [`request::grammar`] defines the grammars over sequences of bytes, and the
//! executable parsers in [`request`] are proved to compute them.
//! [`request::laws`] and [`request::written`] prove what the grammars accept,
//! what they reject, and that a verdict other than `Incomplete` never changes
//! when more bytes arrive.

pub mod bytes;
pub mod concat;
pub mod outcome;
pub mod primitive;
pub mod request;

pub use crate::outcome::Outcome;
pub use crate::request::{message_header, request, request_line, Header, Request};
