//! The request line, the header fields and the request as a whole.
//!
//! Each parser here computes the grammar of the same name in [`grammar`].
//! Its verdict is `Done` exactly where the buffer begins with something well
//! formed, `Error` exactly where no bytes that may still arrive can make it
//! so, and `Incomplete` otherwise.

pub mod completion;
pub mod grammar;
pub mod laws;
pub mod written;

use crate::bytes::{ByteClass, COLON};
use crate::concat::lemma_suffix;
use crate::outcome::{Outcome, Parse};
use crate::primitive::{line_ending, spec_many0, spec_many1, tag, take_while1};
use crate::primitive::laws::{lemma_prepend_push, lemma_prepend_to_none};
use crate::request::completion::{
    lemma_message_header_verdict, lemma_request_line_verdict, lemma_request_verdict,
    may_become_header, may_become_request, may_become_request_line,
};
use crate::request::grammar::{
    header_item, header_value_item, http_prefix, is_line_ending, spec_http_version,
    spec_message_header, spec_message_header_value, spec_request, spec_request_line, value_wf,
    HeaderField, ParsedRequest, RequestLine,
};
use crate::request::laws::{
    lemma_http_version_sound, lemma_message_header_sound, lemma_message_header_value_sound,
    lemma_request_line_sound, lemma_request_sound,
};
use crate::request::written::{
    begins_with_header, begins_with_request, begins_with_request_line, ends_value,
    lemma_http_version_reads, lemma_message_header_reads, lemma_message_header_value_reads,
    lemma_request_line_reads, lemma_request_reads, HeaderText, RequestText,
};
use vstd::prelude::*;

verus! {

/// A request line, each part borrowed from the buffer it was parsed from.
#[derive(Debug, Clone, Copy, PartialEq, Eq)]
pub struct Request<'a> {
    pub method: &'a [u8],
    pub uri: &'a [u8],
    pub version: &'a [u8],
}

/// A header field, its name and values borrowed from the buffer it was
/// parsed from.  A header written on several lines has one value per line.
#[derive(Debug, Clone, PartialEq, Eq)]
pub struct Header<'a> {
    pub name: &'a [u8],
    pub value: Vec<&'a [u8]>,
}

impl<'a> View for Request<'a> {
    type V = RequestLine;

    open spec fn view(&self) -> RequestLine {
        RequestLine { method: self.method@, uri: self.uri@, version: self.version@ }
    }
}

impl<'a> View for Header<'a> {
    type V = HeaderField;

    open spec fn view(&self) -> HeaderField {
        HeaderField { name: self.name@, values: self.value@.map_values(|v: &[u8]| v@) }
    }
}

/// Parses `HTTP/` and the version number that follows it, and gives the
/// number.
pub fn http_version<'a>(input: &'a [u8]) -> (out: Outcome<'a, &'a [u8]>)
    ensures
        out@ == spec_http_version(input@),
        forall|version: Seq<u8>, rest: Seq<u8>|
            ({
                &&& ByteClass::Version.word(version)
                &&& rest.len() > 0
                &&& !ByteClass::Version.contains(rest[0])
                &&& input@ == #[trigger] (http_prefix() + version + rest)
            }) ==> out@ == (Parse::Done { rest, value: version }),
        out matches Outcome::Done(rest, version) ==> ({
            &&& input@ == http_prefix() + version@ + rest@
            &&& ByteClass::Version.word(version@)
            &&& rest@.len() > 0
            &&& !ByteClass::Version.contains(rest@[0])
        }),
        out@.advances(input@),
{
    let prefix: [u8; 5] = [0x48, 0x54, 0x54, 0x50, 0x2f];
    proof {
        assert(prefix@ =~= http_prefix());
        lemma_http_version_sound(input@);
        if let Parse::Done { rest, value } = spec_http_version(input@) {
            lemma_suffix(http_prefix() + value, rest);
        }
        lemma_http_version_reads(input@);
    }
    match tag(input, prefix.as_slice()) {
        Outcome::Done(rest, _) => take_while1(rest, ByteClass::Version),
        Outcome::Error => Outcome::Error,
        Outcome::Incomplete => Outcome::Incomplete,
    }
}

/// Parses a request line: method, target and version, each borrowed from
/// `input`.
pub fn request_line<'a>(input: &'a [u8]) -> (out: Outcome<'a, Request<'a>>)
    ensures
        out@ == spec_request_line(input@),
        out is Done <==> begins_with_request_line(input@),
        out is Error <==> !may_become_request_line(input@),
        forall|line: RequestLine, gap1: Seq<u8>, gap2: Seq<u8>, end: Seq<u8>, rest: Seq<u8>|
            ({
                &&& line.wf()
                &&& ByteClass::Space.word(gap1)
                &&& ByteClass::Space.word(gap2)
                &&& is_line_ending(end)
                &&& input@ == #[trigger] (line.bytes(gap1, gap2, end) + rest)
            }) ==> out@ == (Parse::Done { rest, value: line }),
        out@.advances(input@),
        out matches Outcome::Done(_, line) ==> line@.wf(),
{
    proof {
        lemma_request_line_verdict(input@);
        lemma_request_line_reads(input@);
        if spec_request_line(input@) is Done {
            let written = lemma_request_line_sound(input@);
        }
    }
    let (rest, method) = match take_while1(input, ByteClass::Token) {
        Outcome::Done(rest, run) => (rest, run),
        Outcome::Error => { return Outcome::Error; },
        Outcome::Incomplete => { return Outcome::Incomplete; },
    };
    let rest = match take_while1(rest, ByteClass::Space) {
        Outcome::Done(rest, _) => rest,
        Outcome::Error => { return Outcome::Error; },
        Outcome::Incomplete => { return Outcome::Incomplete; },
    };
    let (rest, uri) = match take_while1(rest, ByteClass::NotSpace) {
        Outcome::Done(rest, run) => (rest, run),
        Outcome::Error => { return Outcome::Error; },
        Outcome::Incomplete => { return Outcome::Incomplete; },
    };
    let rest = match take_while1(rest, ByteClass::Space) {
        Outcome::Done(rest, _) => rest,
        Outcome::Error => { return Outcome::Error; },
        Outcome::Incomplete => { return Outcome::Incomplete; },
    };
    let (rest, version) = match http_version(rest) {
        Outcome::Done(rest, run) => (rest, run),
        Outcome::Error => { return Outcome::Error; },
        Outcome::Incomplete => { return Outcome::Incomplete; },
    };
    match line_ending(rest) {
        Outcome::Done(rest, _) => Outcome::Done(rest, Request { method, uri, version }),
        Outcome::Error => Outcome::Error,
        Outcome::Incomplete => Outcome::Incomplete,
    }
}

/// Parses one line of a header's value, and gives the value without the
/// horizontal space before it and without the line ending.
pub fn message_header_value<'a>(input: &'a [u8]) -> (out: Outcome<'a, &'a [u8]>)
    ensures
        out@ == spec_message_header_value(input@),
        forall|indent: Seq<u8>, value: Seq<u8>, end: Seq<u8>, rest: Seq<u8>|
            ({
                &&& ByteClass::HorizontalSpace.word(indent)
                &&& value_wf(value)
                &&& is_line_ending(end)
                &&& input@ == #[trigger] (indent + value + end + rest)
            }) ==> out@ == (Parse::Done { rest, value }),
        out@.advances(input@),
        out matches Outcome::Done(_, value) ==> value_wf(value@),
{
    proof {
        if spec_message_header_value(input@) is Done {
            let written = lemma_message_header_value_sound(input@);
        }
        lemma_message_header_value_reads(input@);
    }
    let rest = match take_while1(input, ByteClass::HorizontalSpace) {
        Outcome::Done(rest, _) => rest,
        Outcome::Error => { return Outcome::Error; },
        Outcome::Incomplete => { return Outcome::Incomplete; },
    };
    let (rest, data) = match take_while1(rest, ByteClass::NotLineEnding) {
        Outcome::Done(rest, run) => (rest, run),
        Outcome::Error => { return Outcome::Error; },
        Outcome::Incomplete => { return Outcome::Incomplete; },
    };
    match line_ending(rest) {
        Outcome::Done(rest, _) => Outcome::Done(rest, data),
        Outcome::Error => Outcome::Error,
        Outcome::Incomplete => Outcome::Incomplete,
    }
}

/// The values of a header, as contracts speak of them.
pub open spec fn value_views(values: Seq<&[u8]>) -> Seq<Seq<u8>> {
    values.map_values(|v: &[u8]| v@)
}

/// The verdict that the outcome of parsing a header's value lines stands for.
pub open spec fn values_view(out: Outcome<Vec<&[u8]>>) -> Parse<Seq<Seq<u8>>> {
    match out {
        Outcome::Done(rest, values) => Parse::Done { rest: rest@, value: value_views(values@) },
        Outcome::Error => Parse::Error,
        Outcome::Incomplete => Parse::Incomplete,
    }
}

/// Parses the value lines of a header, of which there is at least one.
fn header_values<'a>(input: &'a [u8]) -> (out: Outcome<'a, Vec<&'a [u8]>>)
    ensures
        values_view(out) == spec_many1(header_value_item(), input@),
{
    let (mut rest, first) = match message_header_value(input) {
        Outcome::Done(rest, data) => (rest, data),
        Outcome::Error => { return Outcome::Error; },
        Outcome::Incomplete => { return Outcome::Incomplete; },
    };
    let mut values: Vec<&'a [u8]> = Vec::new();
    values.push(first);
    assert(value_views(values@) =~= seq![first@]);
    while rest.len() > 0
        invariant
            spec_many1(header_value_item(), input@) == spec_many0(
                header_value_item(),
                rest@,
            ).prepend(value_views(values@)),
        ensures
            spec_many0(header_value_item(), rest@) == (Parse::Done {
                rest: rest@,
                value: Seq::<Seq<u8>>::empty(),
            }),
        decreases rest.len(),
    {
        match message_header_value(rest) {
            Outcome::Done(next, data) => {
                proof {
                    let seen = value_views(values@);
                    assert(value_views(values@.push(data)) =~= seen.push(data@));
                    lemma_prepend_push(spec_many0(header_value_item(), next@), seen, data@);
                }
                values.push(data);
                rest = next;
            },
            Outcome::Error => {
                break ;
            },
            Outcome::Incomplete => {
                return Outcome::Incomplete;
            },
        }
    }
    proof {
        lemma_prepend_to_none(rest@, value_views(values@));
    }
    Outcome::Done(rest, values)
}

/// Parses a header field: its name and the value of each of its lines, all
/// borrowed from `input`.
pub fn message_header<'a>(input: &'a [u8]) -> (out: Outcome<'a, Header<'a>>)
    ensures
        out@ == spec_message_header(input@),
        out is Done <==> begins_with_header(input@),
        out is Error <==> !may_become_header(input@),
        forall|header: HeaderText, rest: Seq<u8>|
            header.wf() && ends_value(rest) && input@ == #[trigger] (header.bytes() + rest)
                ==> out@ == (Parse::Done { rest, value: header.field() }),
        out@.advances(input@),
        out matches Outcome::Done(_, header) ==> header@.wf(),
{
    proof {
        lemma_message_header_verdict(input@);
        lemma_message_header_reads(input@);
        lemma_message_header_sound(input@);
    }
    let (rest, name) = match take_while1(input, ByteClass::Token) {
        Outcome::Done(rest, run) => (rest, run),
        Outcome::Error => { return Outcome::Error; },
        Outcome::Incomplete => { return Outcome::Incomplete; },
    };
    let colon: [u8; 1] = [COLON];
    assert(colon@ =~= seq![COLON]);
    let rest = match tag(rest, colon.as_slice()) {
        Outcome::Done(rest, _) => rest,
        Outcome::Error => { return Outcome::Error; },
        Outcome::Incomplete => { return Outcome::Incomplete; },
    };
    match header_values(rest) {
        Outcome::Done(rest, values) => Outcome::Done(rest, Header { name, value: values }),
        Outcome::Error => Outcome::Error,
        Outcome::Incomplete => Outcome::Incomplete,
    }
}

/// The headers of a request, as contracts speak of them.
pub open spec fn header_views(headers: Seq<Header>) -> Seq<HeaderField> {
    headers.map_values(|h: Header| h@)
}

/// The verdict that the outcome of parsing a header block stands for.
pub open spec fn headers_view(out: Outcome<Vec<Header>>) -> Parse<Seq<HeaderField>> {
    match out {
        Outcome::Done(rest, headers) => Parse::Done { rest: rest@, value: header_views(headers@) },
        Outcome::Error => Parse::Error,
        Outcome::Incomplete => Parse::Incomplete,
    }
}

/// The verdict that the outcome of parsing a request stands for.
pub open spec fn request_view(out: Outcome<(Request, Vec<Header>)>) -> Parse<ParsedRequest> {
    match out {
        Outcome::Done(rest, (line, headers)) => Parse::Done {
            rest: rest@,
            value: ParsedRequest { line: line@, headers: header_views(headers@) },
        },
        Outcome::Error => Parse::Error,
        Outcome::Incomplete => Parse::Incomplete,
    }
}

/// Parses the headers of a request, of which there is at least one.
fn headers<'a>(input: &'a [u8]) -> (out: Outcome<'a, Vec<Header<'a>>>)
    ensures
        headers_view(out) == spec_many1(header_item(), input@),
{
    let (mut rest, first) = match message_header(input) {
        Outcome::Done(rest, header) => (rest, header),
        Outcome::Error => { return Outcome::Error; },
        Outcome::Incomplete => { return Outcome::Incomplete; },
    };
    let mut found: Vec<Header<'a>> = Vec::new();
    assert(header_views(found@.push(first)) =~= seq![first@]);
    found.push(first);
    while rest.len() > 0
        invariant
            spec_many1(header_item(), input@) == spec_many0(header_item(), rest@).prepend(
                header_views(found@),
            ),
        ensures
            spec_many0(header_item(), rest@) == (Parse::Done {
                rest: rest@,
                value: Seq::<HeaderField>::empty(),
            }),
        decreases rest.len(),
    {
        match message_header(rest) {
            Outcome::Done(next, header) => {
                proof {
                    let seen = header_views(found@);
                    assert(header_views(found@.push(header)) =~= seen.push(header@));
                    lemma_prepend_push(spec_many0(header_item(), next@), seen, header@);
                }
                found.push(header);
                rest = next;
            },
            Outcome::Error => {
                break ;
            },
            Outcome::Incomplete => {
                return Outcome::Incomplete;
            },
        }
    }
    proof {
        lemma_prepend_to_none(rest@, header_views(found@));
    }
    Outcome::Done(rest, found)
}

/// Parses a request: the request line, its headers in the order of the
/// input, and the empty line that ends them.  What follows the empty line is
/// handed back untouched.
///
/// A request has at least one header: a request line that is followed at
/// once by the empty line is rejected.
pub fn request<'a>(input: &'a [u8]) -> (out: Outcome<'a, (Request<'a>, Vec<Header<'a>>)>)
    ensures
        request_view(out) == spec_request(input@),
        out is Done <==> begins_with_request(input@),
        out is Error <==> !may_become_request(input@),
        forall|text: RequestText, rest: Seq<u8>|
            text.wf() && input@ == #[trigger] (text.bytes() + rest)
                ==> request_view(out) == (Parse::Done { rest, value: text.parsed() }),
        request_view(out).advances(input@),
        request_view(out) is Done ==> request_view(out)->value.wf(),
{
    proof {
        lemma_request_verdict(input@);
        lemma_request_reads(input@);
        lemma_request_sound(input@);
    }
    let (rest, line) = match request_line(input) {
        Outcome::Done(rest, line) => (rest, line),
        Outcome::Error => { return Outcome::Error; },
        Outcome::Incomplete => { return Outcome::Incomplete; },
    };
    let (rest, found) = match headers(rest) {
        Outcome::Done(rest, found) => (rest, found),
        Outcome::Error => { return Outcome::Error; },
        Outcome::Incomplete => { return Outcome::Incomplete; },
    };
    match line_ending(rest) {
        Outcome::Done(rest, _) => Outcome::Done(rest, (line, found)),
        Outcome::Error => Outcome::Error,
        Outcome::Incomplete => Outcome::Incomplete,
    }
}

} // verus!
