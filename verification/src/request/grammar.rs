//! The grammar of a request, over sequences of bytes.

use crate::bytes::{horizontal_space_byte, ByteClass, COLON, CR, LF};
use crate::outcome::Parse;
use crate::primitive::{spec_line_ending, spec_many1, spec_tag, spec_take_while1};
use vstd::prelude::*;

verus! {

/// The three parts of a request line.
pub struct RequestLine {
    pub method: Seq<u8>,
    pub uri: Seq<u8>,
    pub version: Seq<u8>,
}

/// A header: its name and the value of each of its lines, in line order.
pub struct HeaderField {
    pub name: Seq<u8>,
    pub values: Seq<Seq<u8>>,
}

/// A request line and the headers that follow it, in the order of the input.
pub struct ParsedRequest {
    pub line: RequestLine,
    pub headers: Seq<HeaderField>,
}

impl RequestLine {
    /// The method is a token, the target has no space in it, the version is
    /// made of digits and full stops, and none of the three is empty.
    pub open spec fn wf(self) -> bool {
        &&& ByteClass::Token.word(self.method)
        &&& ByteClass::NotSpace.word(self.uri)
        &&& ByteClass::Version.word(self.version)
    }

    /// The line as it is written with `gap1` between method and target,
    /// `gap2` between target and version, and `end` as its line ending.
    pub open spec fn bytes(self, gap1: Seq<u8>, gap2: Seq<u8>, end: Seq<u8>) -> Seq<u8> {
        self.method + gap1 + self.uri + gap2 + http_prefix() + self.version + end
    }
}

/// Whether `value` can be one line of a header's value: it is not empty, has
/// no line ending in it, and does not begin with horizontal space.
pub open spec fn value_wf(value: Seq<u8>) -> bool {
    ByteClass::NotLineEnding.word(value) && !horizontal_space_byte(value[0])
}

impl HeaderField {
    /// The name is a token and is not empty, and there is at least one value,
    /// each of them well formed.
    pub open spec fn wf(self) -> bool {
        &&& ByteClass::Token.word(self.name)
        &&& self.values.len() > 0
        &&& forall|i: int| 0 <= i < self.values.len() ==> value_wf(#[trigger] self.values[i])
    }
}

impl ParsedRequest {
    /// The request line is well formed, and there is at least one header,
    /// each of them well formed.
    pub open spec fn wf(self) -> bool {
        &&& self.line.wf()
        &&& self.headers.len() > 0
        &&& forall|i: int| 0 <= i < self.headers.len() ==> (#[trigger] self.headers[i]).wf()
    }
}

/// Whether `end` is one of the two accepted line endings.
pub open spec fn is_line_ending(end: Seq<u8>) -> bool {
    end == seq![LF] || end == seq![CR, LF]
}

/// The bytes `HTTP/`, which introduce the version number.
pub open spec fn http_prefix() -> Seq<u8> {
    seq![0x48u8, 0x54u8, 0x54u8, 0x50u8, 0x2fu8]
}

/// `HTTP/` and a version number; the value is the number alone.
pub open spec fn spec_http_version(s: Seq<u8>) -> Parse<Seq<u8>> {
    spec_tag(s, http_prefix()).and_then(
        |rest: Seq<u8>, prefix: Seq<u8>| spec_take_while1(rest, ByteClass::Version),
    )
}

/// Method, spaces, target, spaces, version and a line ending.
pub open spec fn spec_request_line(s: Seq<u8>) -> Parse<RequestLine> {
    spec_take_while1(s, ByteClass::Token).and_then(
        |s1: Seq<u8>, method: Seq<u8>|
            spec_take_while1(s1, ByteClass::Space).and_then(
                |s2: Seq<u8>, gap: Seq<u8>|
                    spec_take_while1(s2, ByteClass::NotSpace).and_then(
                        |s3: Seq<u8>, uri: Seq<u8>|
                            spec_take_while1(s3, ByteClass::Space).and_then(
                                |s4: Seq<u8>, gap: Seq<u8>|
                                    spec_http_version(s4).and_then(
                                        |s5: Seq<u8>, version: Seq<u8>|
                                            spec_line_ending(s5).and_then(
                                                |s6: Seq<u8>, end: Seq<u8>|
                                                    Parse::Done {
                                                        rest: s6,
                                                        value: RequestLine { method, uri, version },
                                                    },
                                            ),
                                    ),
                            ),
                    ),
            ),
    )
}

/// One line of a header's value: horizontal space, the value up to the end of
/// the line, and a line ending.  The value begins at the first byte that is
/// no horizontal space, and nothing is trimmed from its end.
pub open spec fn spec_message_header_value(s: Seq<u8>) -> Parse<Seq<u8>> {
    spec_take_while1(s, ByteClass::HorizontalSpace).and_then(
        |s1: Seq<u8>, indent: Seq<u8>|
            spec_take_while1(s1, ByteClass::NotLineEnding).and_then(
                |s2: Seq<u8>, data: Seq<u8>|
                    spec_line_ending(s2).and_then(
                        |s3: Seq<u8>, end: Seq<u8>| Parse::Done { rest: s3, value: data },
                    ),
            ),
    )
}

/// [`spec_message_header_value`] as the item of a repetition.
pub open spec fn header_value_item() -> spec_fn(Seq<u8>) -> Parse<Seq<u8>> {
    |s: Seq<u8>| spec_message_header_value(s)
}

/// A name, a colon, and one or more value lines.
pub open spec fn spec_message_header(s: Seq<u8>) -> Parse<HeaderField> {
    spec_take_while1(s, ByteClass::Token).and_then(
        |s1: Seq<u8>, name: Seq<u8>|
            spec_tag(s1, seq![COLON]).and_then(
                |s2: Seq<u8>, colon: Seq<u8>|
                    spec_many1(header_value_item(), s2).and_then(
                        |s3: Seq<u8>, values: Seq<Seq<u8>>|
                            Parse::Done { rest: s3, value: HeaderField { name, values } },
                    ),
            ),
    )
}

/// [`spec_message_header`] as the item of a repetition.
pub open spec fn header_item() -> spec_fn(Seq<u8>) -> Parse<HeaderField> {
    |s: Seq<u8>| spec_message_header(s)
}

/// A request line, one or more headers, and the line ending that closes the
/// header block.  A request without any header is rejected.
pub open spec fn spec_request(s: Seq<u8>) -> Parse<ParsedRequest> {
    spec_request_line(s).and_then(
        |s1: Seq<u8>, line: RequestLine|
            spec_many1(header_item(), s1).and_then(
                |s2: Seq<u8>, headers: Seq<HeaderField>|
                    spec_line_ending(s2).and_then(
                        |s3: Seq<u8>, end: Seq<u8>|
                            Parse::Done { rest: s3, value: ParsedRequest { line, headers } },
                    ),
            ),
    )
}

} // verus!
