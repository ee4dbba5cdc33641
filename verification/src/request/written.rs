//! Requests as they are written, and the proof that the grammar accepts
//! exactly these.
//!
//! A [`RequestText`] holds every choice that a writer of a request has: the
//! parts of the request line, the spaces between them, the name of each
//! header, the indentation and value of each of its lines, and the form of
//! every line ending.  The grammar accepts a buffer if and only if the
//! buffer begins with the bytes of a well-formed text, and the value it
//! gives is that text without the spaces and line endings.

use crate::bytes::{horizontal_space_byte, token_byte, ByteClass, COLON};
use crate::concat::{lemma_after3, lemma_after_nothing, lemma_assoc, lemma_first};
use crate::outcome::Parse;
use crate::primitive::{spec_line_ending, spec_many0, spec_many1, spec_tag, spec_take_while1};
use crate::primitive::laws::{
    lemma_line_ending_accepts, lemma_line_ending_sound, lemma_tag_accepts, lemma_tag_sound,
    lemma_take_while1_accepts, lemma_take_while1_sound,
};
use crate::request::grammar::{
    header_item, header_value_item, http_prefix, is_line_ending, spec_http_version,
    spec_message_header, spec_message_header_value, spec_request, spec_request_line, value_wf,
    HeaderField, ParsedRequest, RequestLine,
};
use crate::request::laws::{
    lemma_http_version_accepts, lemma_message_header_sound, lemma_message_header_value_accepts,
    lemma_message_header_value_sound, lemma_request_line_accepts, lemma_request_line_sound,
};
use vstd::prelude::*;

verus! {

/// One line of a header's value as it is written: the horizontal space
/// before the value, the value, and the line ending.
pub struct ValueLine {
    pub indent: Seq<u8>,
    pub value: Seq<u8>,
    pub end: Seq<u8>,
}

impl ValueLine {
    /// The indentation is horizontal space and is not empty, the value is
    /// well formed, and the line ends with a line ending.
    pub open spec fn wf(self) -> bool {
        &&& ByteClass::HorizontalSpace.word(self.indent)
        &&& value_wf(self.value)
        &&& is_line_ending(self.end)
    }

    /// The bytes of the line.
    pub open spec fn bytes(self) -> Seq<u8> {
        self.indent + self.value + self.end
    }
}

/// The bytes of `lines`, one line after the other.
pub open spec fn lines_bytes(lines: Seq<ValueLine>) -> Seq<u8>
    decreases lines.len(),
{
    if lines.len() == 0 {
        Seq::empty()
    } else {
        lines.first().bytes() + lines_bytes(lines.drop_first())
    }
}

/// The value of each of `lines`.
pub open spec fn lines_values(lines: Seq<ValueLine>) -> Seq<Seq<u8>> {
    lines.map_values(|line: ValueLine| line.value)
}

/// A header as it is written: its name, and the lines of its value.  The
/// colon stands between them.
pub struct HeaderText {
    pub name: Seq<u8>,
    pub lines: Seq<ValueLine>,
}

impl HeaderText {
    /// The name is a token and is not empty, and there is at least one line,
    /// each of them well formed.
    pub open spec fn wf(self) -> bool {
        &&& ByteClass::Token.word(self.name)
        &&& self.lines.len() > 0
        &&& forall|i: int| 0 <= i < self.lines.len() ==> (#[trigger] self.lines[i]).wf()
    }

    /// The bytes of the header: the name, the colon, and the lines.
    pub open spec fn bytes(self) -> Seq<u8> {
        self.name + seq![COLON] + lines_bytes(self.lines)
    }

    /// The header that the text stands for.
    pub open spec fn field(self) -> HeaderField {
        HeaderField { name: self.name, values: lines_values(self.lines) }
    }
}

/// The bytes of `headers`, one header after the other.
pub open spec fn headers_bytes(headers: Seq<HeaderText>) -> Seq<u8>
    decreases headers.len(),
{
    if headers.len() == 0 {
        Seq::empty()
    } else {
        headers.first().bytes() + headers_bytes(headers.drop_first())
    }
}

/// The header that each of `headers` stands for.
pub open spec fn headers_fields(headers: Seq<HeaderText>) -> Seq<HeaderField> {
    headers.map_values(|header: HeaderText| header.field())
}

/// A request as it is written: the request line with its two gaps and its
/// line ending, the headers, and the line ending that closes them.
pub struct RequestText {
    pub line: RequestLine,
    pub gap1: Seq<u8>,
    pub gap2: Seq<u8>,
    pub end: Seq<u8>,
    pub headers: Seq<HeaderText>,
    pub blank: Seq<u8>,
}

impl RequestText {
    /// The request line is well formed, each gap is made of spaces and is
    /// not empty, there is at least one header, each of them well formed,
    /// and both line endings are line endings.
    pub open spec fn wf(self) -> bool {
        &&& self.line.wf()
        &&& ByteClass::Space.word(self.gap1)
        &&& ByteClass::Space.word(self.gap2)
        &&& is_line_ending(self.end)
        &&& self.headers.len() > 0
        &&& forall|i: int| 0 <= i < self.headers.len() ==> (#[trigger] self.headers[i]).wf()
        &&& is_line_ending(self.blank)
    }

    /// The bytes of the request: the request line, the headers, and the
    /// empty line.
    pub open spec fn bytes(self) -> Seq<u8> {
        self.line.bytes(self.gap1, self.gap2, self.end) + headers_bytes(self.headers) + self.blank
    }

    /// The request that the text stands for.
    pub open spec fn parsed(self) -> ParsedRequest {
        ParsedRequest { line: self.line, headers: headers_fields(self.headers) }
    }
}

/// Whether a header's value ends before `rest`: nothing follows, or what
/// follows is no further line of the value.
pub open spec fn ends_value(rest: Seq<u8>) -> bool {
    rest.len() == 0 || spec_message_header_value(rest) is Error
}

/// What does not begin with horizontal space is no line of a header's value.
pub proof fn lemma_unindented_ends_value(rest: Seq<u8>)
    requires
        rest.len() > 0,
        !horizontal_space_byte(rest[0]),
    ensures
        ends_value(rest),
{
    lemma_take_while1_sound(rest, ByteClass::HorizontalSpace);
}

/// Lines of which there are none have no bytes and no values.
proof fn lemma_lines_none(lines: Seq<ValueLine>)
    requires
        lines.len() == 0,
    ensures
        lines_bytes(lines) == Seq::<u8>::empty(),
        lines_values(lines) == Seq::<Seq<u8>>::empty(),
{
    assert(lines_values(lines) =~= Seq::<Seq<u8>>::empty());
}

/// Lines of which there is at least one: their bytes and their values are
/// those of the first line and then those of the others, and the first line
/// and the others are well formed if all of them are.
proof fn lemma_lines_first(lines: Seq<ValueLine>)
    requires
        lines.len() > 0,
    ensures
        lines_bytes(lines) == lines.first().bytes() + lines_bytes(lines.drop_first()),
        lines_values(lines) == seq![lines.first().value] + lines_values(lines.drop_first()),
        (forall|i: int| 0 <= i < lines.len() ==> (#[trigger] lines[i]).wf()) ==> ({
            &&& lines.first().wf()
            &&& forall|i: int|
                0 <= i < lines.drop_first().len() ==> (#[trigger] lines.drop_first()[i]).wf()
        }),
{
    let tail = lines.drop_first();
    assert(lines_values(lines) =~= seq![lines.first().value] + lines_values(tail));
    if forall|i: int| 0 <= i < lines.len() ==> (#[trigger] lines[i]).wf() {
        assert forall|i: int| 0 <= i < tail.len() implies (#[trigger] tail[i]).wf() by {
            assert(tail[i] == lines[i + 1]);
        }
    }
}

/// Headers of which there are none have no bytes and stand for no headers.
proof fn lemma_headers_none(headers: Seq<HeaderText>)
    requires
        headers.len() == 0,
    ensures
        headers_bytes(headers) == Seq::<u8>::empty(),
        headers_fields(headers) == Seq::<HeaderField>::empty(),
{
    assert(headers_fields(headers) =~= Seq::<HeaderField>::empty());
}

/// Headers of which there is at least one: their bytes and the headers that
/// they stand for are those of the first and then those of the others, and
/// the first and the others are well formed if all of them are.
proof fn lemma_headers_first(headers: Seq<HeaderText>)
    requires
        headers.len() > 0,
    ensures
        headers_bytes(headers) == headers.first().bytes() + headers_bytes(headers.drop_first()),
        headers_fields(headers) == seq![headers.first().field()] + headers_fields(
            headers.drop_first(),
        ),
        (forall|i: int| 0 <= i < headers.len() ==> (#[trigger] headers[i]).wf()) ==> ({
            &&& headers.first().wf()
            &&& forall|i: int|
                0 <= i < headers.drop_first().len() ==> (#[trigger] headers.drop_first()[i]).wf()
        }),
{
    let tail = headers.drop_first();
    assert(headers_fields(headers) =~= seq![headers.first().field()] + headers_fields(tail));
    if forall|i: int| 0 <= i < headers.len() ==> (#[trigger] headers[i]).wf() {
        assert forall|i: int| 0 <= i < tail.len() implies (#[trigger] tail[i]).wf() by {
            assert(tail[i] == headers[i + 1]);
        }
    }
}

/// Well-formed value lines, followed by something that ends the value, are
/// accepted by the repetition as they stand.
pub proof fn lemma_lines_accepted(lines: Seq<ValueLine>, rest: Seq<u8>)
    requires
        forall|i: int| 0 <= i < lines.len() ==> (#[trigger] lines[i]).wf(),
        ends_value(rest),
    ensures
        spec_many0(header_value_item(), lines_bytes(lines) + rest) == (Parse::Done {
            rest,
            value: lines_values(lines),
        }),
    decreases lines.len(),
{
    if lines.len() == 0 {
        lemma_lines_none(lines);
        lemma_after_nothing(lines_bytes(lines), rest);
    } else {
        let line = lines.first();
        let tail = lines.drop_first();
        let after = lines_bytes(tail) + rest;
        lemma_lines_first(lines);
        lemma_assoc(line.bytes(), lines_bytes(tail), rest);
        lemma_message_header_value_accepts(line.indent, line.value, line.end, after);
        lemma_lines_accepted(tail, rest);
    }
}

/// Every well-formed header, followed by something that ends its value, is
/// accepted as it stands: the name and the values are those that were
/// written, in their order.
pub proof fn lemma_message_header_accepts(header: HeaderText, rest: Seq<u8>)
    requires
        header.wf(),
        ends_value(rest),
    ensures
        spec_message_header(header.bytes() + rest) == (Parse::Done { rest, value: header.field() }),
{
    let line = header.lines.first();
    let tail = header.lines.drop_first();
    let s3 = lines_bytes(tail) + rest;
    let s2 = lines_bytes(header.lines) + rest;
    let s1 = seq![COLON] + s2;
    let s = header.name + s1;
    assert(s == header.bytes() + rest) by {
        lemma_after3(header.name, seq![COLON], lines_bytes(header.lines), rest);
        lemma_assoc(seq![COLON], lines_bytes(header.lines), rest);
    }
    assert(spec_take_while1(s, ByteClass::Token) == (Parse::Done {
        rest: s1,
        value: header.name,
    })) by {
        assert(s1[0] == COLON);
        lemma_take_while1_accepts(header.name, s1, ByteClass::Token);
    }
    lemma_tag_accepts(s2, seq![COLON]);
    lemma_lines_first(header.lines);
    lemma_assoc(line.bytes(), lines_bytes(tail), rest);
    lemma_message_header_value_accepts(line.indent, line.value, line.end, s3);
    lemma_lines_accepted(tail, rest);
}

/// Whether the headers of a request end before `rest`: something follows,
/// and it begins neither a header nor a line of a value.
pub open spec fn ends_headers(rest: Seq<u8>) -> bool {
    rest.len() > 0 && !token_byte(rest[0]) && !horizontal_space_byte(rest[0])
}

/// Well-formed headers, and then something that ends them, begin with no
/// further line of a value.
proof fn lemma_headers_end_value(headers: Seq<HeaderText>, rest: Seq<u8>)
    requires
        forall|i: int| 0 <= i < headers.len() ==> (#[trigger] headers[i]).wf(),
        ends_headers(rest),
    ensures
        ends_value(headers_bytes(headers) + rest),
{
    let after = headers_bytes(headers) + rest;
    if headers.len() == 0 {
        lemma_headers_none(headers);
        lemma_after_nothing(headers_bytes(headers), rest);
    } else {
        lemma_headers_first(headers);
        assert(after[0] == headers.first().name[0]);
    }
    lemma_unindented_ends_value(after);
}

/// Well-formed headers, followed by something that ends them, are accepted
/// by the repetition as they stand.
pub proof fn lemma_headers_accepted(headers: Seq<HeaderText>, rest: Seq<u8>)
    requires
        forall|i: int| 0 <= i < headers.len() ==> (#[trigger] headers[i]).wf(),
        ends_headers(rest),
    ensures
        spec_many0(header_item(), headers_bytes(headers) + rest) == (Parse::Done {
            rest,
            value: headers_fields(headers),
        }),
    decreases headers.len(),
{
    if headers.len() == 0 {
        lemma_headers_none(headers);
        lemma_after_nothing(headers_bytes(headers), rest);
        lemma_take_while1_sound(rest, ByteClass::Token);
    } else {
        let header = headers.first();
        let tail = headers.drop_first();
        lemma_headers_first(headers);
        lemma_assoc(header.bytes(), headers_bytes(tail), rest);
        lemma_headers_end_value(tail, rest);
        lemma_message_header_accepts(header, headers_bytes(tail) + rest);
        lemma_headers_accepted(tail, rest);
    }
}

/// One or more well-formed headers, followed by something that ends them,
/// are accepted as they stand.
pub proof fn lemma_request_headers_accepted(headers: Seq<HeaderText>, rest: Seq<u8>)
    requires
        headers.len() > 0,
        forall|i: int| 0 <= i < headers.len() ==> (#[trigger] headers[i]).wf(),
        ends_headers(rest),
    ensures
        spec_many1(header_item(), headers_bytes(headers) + rest) == (Parse::Done {
            rest,
            value: headers_fields(headers),
        }),
{
    let header = headers.first();
    let tail = headers.drop_first();
    lemma_headers_first(headers);
    lemma_assoc(header.bytes(), headers_bytes(tail), rest);
    lemma_headers_end_value(tail, rest);
    lemma_message_header_accepts(header, headers_bytes(tail) + rest);
    lemma_headers_accepted(tail, rest);
}

/// A line ending, and whatever follows it, ends the headers.
pub proof fn lemma_line_ending_ends_headers(blank: Seq<u8>, rest: Seq<u8>)
    requires
        is_line_ending(blank),
    ensures
        ends_headers(blank + rest),
{
    lemma_first(blank, rest);
}

/// The request, put together from what each of its parts leaves.
proof fn lemma_request_parts(
    s: Seq<u8>,
    request: ParsedRequest,
    s1: Seq<u8>,
    s2: Seq<u8>,
    s3: Seq<u8>,
)
    requires
        spec_request_line(s) == (Parse::Done { rest: s1, value: request.line }),
        spec_many1(header_item(), s1) == (Parse::Done { rest: s2, value: request.headers }),
        spec_line_ending(s2).leaves(s3),
    ensures
        spec_request(s) == (Parse::Done { rest: s3, value: request }),
{
}

/// Every well-formed request is accepted as it stands, whatever follows it:
/// the request line and the headers are those that were written, in their
/// order, and what is left is what follows the empty line.
pub proof fn lemma_request_accepts(text: RequestText, rest: Seq<u8>)
    requires
        text.wf(),
    ensures
        spec_request(text.bytes() + rest) == (Parse::Done { rest, value: text.parsed() }),
{
    let line = text.line.bytes(text.gap1, text.gap2, text.end);
    let s2 = text.blank + rest;
    let s1 = headers_bytes(text.headers) + s2;
    assert(text.bytes() + rest == line + s1) by {
        lemma_after3(line, headers_bytes(text.headers), text.blank, rest);
        lemma_assoc(headers_bytes(text.headers), text.blank, rest);
    }
    lemma_request_line_accepts(text.line, text.gap1, text.gap2, text.end, s1);
    lemma_line_ending_ends_headers(text.blank, rest);
    lemma_request_headers_accepted(text.headers, s2);
    lemma_line_ending_accepts(text.blank, rest);
    lemma_request_parts(line + s1, text.parsed(), s1, s2, rest);
}

/// Lines with one more line put before them: their bytes, their values, and
/// their well-formedness.
proof fn lemma_lines_cons(line: ValueLine, tail: Seq<ValueLine>)
    ensures
        lines_bytes(seq![line] + tail) == line.bytes() + lines_bytes(tail),
        lines_values(seq![line] + tail) == seq![line.value] + lines_values(tail),
        line.wf() && (forall|i: int| 0 <= i < tail.len() ==> (#[trigger] tail[i]).wf())
            ==> forall|i: int|
            0 <= i < (seq![line] + tail).len() ==> (#[trigger] (seq![line] + tail)[i]).wf(),
{
    let lines = seq![line] + tail;
    assert(lines.drop_first() =~= tail);
    assert(lines_values(lines) =~= seq![line.value] + lines_values(tail));
    if line.wf() && (forall|i: int| 0 <= i < tail.len() ==> (#[trigger] tail[i]).wf()) {
        assert forall|i: int| 0 <= i < lines.len() implies (#[trigger] lines[i]).wf() by {
            if i > 0 {
                assert(lines[i] == tail[i - 1]);
            }
        }
    }
}

/// Headers with one more header put before them: their bytes, the headers
/// that they stand for, and their well-formedness.
proof fn lemma_headers_cons(header: HeaderText, tail: Seq<HeaderText>)
    ensures
        headers_bytes(seq![header] + tail) == header.bytes() + headers_bytes(tail),
        headers_fields(seq![header] + tail) == seq![header.field()] + headers_fields(tail),
        header.wf() && (forall|i: int| 0 <= i < tail.len() ==> (#[trigger] tail[i]).wf())
            ==> forall|i: int|
            0 <= i < (seq![header] + tail).len() ==> (#[trigger] (seq![header] + tail)[i]).wf(),
{
    let headers = seq![header] + tail;
    assert(headers.drop_first() =~= tail);
    assert(headers_fields(headers) =~= seq![header.field()] + headers_fields(tail));
    if header.wf() && (forall|i: int| 0 <= i < tail.len() ==> (#[trigger] tail[i]).wf()) {
        assert forall|i: int| 0 <= i < headers.len() implies (#[trigger] headers[i]).wf() by {
            if i > 0 {
                assert(headers[i] == tail[i - 1]);
            }
        }
    }
}

/// What the repetition of value lines accepts was written as well-formed
/// lines, which are returned: the buffer consists of their bytes and of what
/// is left, the values are theirs, and what is left ends the value.
pub proof fn lemma_lines_written(s: Seq<u8>) -> (lines: Seq<ValueLine>)
    requires
        spec_many0(header_value_item(), s) is Done,
    ensures
        forall|i: int| 0 <= i < lines.len() ==> (#[trigger] lines[i]).wf(),
        spec_many0(header_value_item(), s)->value == lines_values(lines),
        s == lines_bytes(lines) + spec_many0(header_value_item(), s)->rest,
        ends_value(spec_many0(header_value_item(), s)->rest),
    decreases s.len(),
{
    let item = header_value_item();
    if s.len() > 0 && item(s) is Done {
        let (indent, end) = lemma_message_header_value_sound(s);
        let line = ValueLine { indent, value: item(s)->value, end };
        let tail = lemma_lines_written(item(s)->rest);
        lemma_lines_cons(line, tail);
        lemma_assoc(line.bytes(), lines_bytes(tail), spec_many0(item, s)->rest);
        seq![line] + tail
    } else {
        let lines = Seq::<ValueLine>::empty();
        lemma_lines_none(lines);
        lemma_after_nothing(lines_bytes(lines), s);
        lines
    }
}

/// A header that is accepted was written as a well-formed header, which is
/// returned: the buffer consists of its bytes and of what is left, the value
/// is the header that it stands for, and what is left ends the header's
/// value.
pub proof fn lemma_message_header_written(s: Seq<u8>) -> (header: HeaderText)
    requires
        spec_message_header(s) is Done,
    ensures
        header.wf(),
        spec_message_header(s)->value == header.field(),
        s == header.bytes() + spec_message_header(s)->rest,
        ends_value(spec_message_header(s)->rest),
{
    let name = spec_take_while1(s, ByteClass::Token);
    let colon = spec_tag(name->rest, seq![COLON]);
    let lines = lemma_header_lines_written(colon->rest);
    let rest = spec_many1(header_value_item(), colon->rest)->rest;
    assert(s == name->value + (seq![COLON] + (lines_bytes(lines) + rest))
        && ByteClass::Token.word(name->value)) by {
        lemma_take_while1_sound(s, ByteClass::Token);
        lemma_tag_sound(name->rest, seq![COLON]);
    }
    lemma_after3(name->value, seq![COLON], lines_bytes(lines), rest);
    lemma_assoc(seq![COLON], lines_bytes(lines), rest);
    HeaderText { name: name->value, lines }
}

/// What one or more value lines accept was written as well-formed lines,
/// which are returned, and there is at least one of them.
proof fn lemma_header_lines_written(s: Seq<u8>) -> (lines: Seq<ValueLine>)
    requires
        spec_many1(header_value_item(), s) is Done,
    ensures
        lines.len() > 0,
        forall|i: int| 0 <= i < lines.len() ==> (#[trigger] lines[i]).wf(),
        spec_many1(header_value_item(), s)->value == lines_values(lines),
        s == lines_bytes(lines) + spec_many1(header_value_item(), s)->rest,
        ends_value(spec_many1(header_value_item(), s)->rest),
{
    let item = header_value_item();
    let (indent, end) = lemma_message_header_value_sound(s);
    let line = ValueLine { indent, value: item(s)->value, end };
    let tail = lemma_lines_written(item(s)->rest);
    lemma_lines_cons(line, tail);
    lemma_assoc(line.bytes(), lines_bytes(tail), spec_many1(item, s)->rest);
    seq![line] + tail
}

/// What the repetition of headers accepts was written as well-formed
/// headers, which are returned: the buffer consists of their bytes and of
/// what is left, and the values are the headers that they stand for.
pub proof fn lemma_headers_written(s: Seq<u8>) -> (headers: Seq<HeaderText>)
    requires
        spec_many0(header_item(), s) is Done,
    ensures
        forall|i: int| 0 <= i < headers.len() ==> (#[trigger] headers[i]).wf(),
        spec_many0(header_item(), s)->value == headers_fields(headers),
        s == headers_bytes(headers) + spec_many0(header_item(), s)->rest,
    decreases s.len(),
{
    let item = header_item();
    if s.len() > 0 && item(s) is Done {
        lemma_message_header_sound(s);
        let header = lemma_message_header_written(s);
        let tail = lemma_headers_written(item(s)->rest);
        lemma_headers_cons(header, tail);
        lemma_assoc(header.bytes(), headers_bytes(tail), spec_many0(item, s)->rest);
        seq![header] + tail
    } else {
        let headers = Seq::<HeaderText>::empty();
        lemma_headers_none(headers);
        lemma_after_nothing(headers_bytes(headers), s);
        headers
    }
}

/// What one or more headers accept was written as well-formed headers,
/// which are returned, and there is at least one of them.
proof fn lemma_request_headers_written(s: Seq<u8>) -> (headers: Seq<HeaderText>)
    requires
        spec_many1(header_item(), s) is Done,
    ensures
        headers.len() > 0,
        forall|i: int| 0 <= i < headers.len() ==> (#[trigger] headers[i]).wf(),
        spec_many1(header_item(), s)->value == headers_fields(headers),
        s == headers_bytes(headers) + spec_many1(header_item(), s)->rest,
{
    let item = header_item();
    let header = lemma_message_header_written(s);
    let tail = lemma_headers_written(item(s)->rest);
    lemma_headers_cons(header, tail);
    lemma_assoc(header.bytes(), headers_bytes(tail), spec_many1(item, s)->rest);
    seq![header] + tail
}

/// A request that is accepted was written as a well-formed request, which is
/// returned: the buffer consists of its bytes and of what is left, and the
/// value is the request that it stands for.
pub proof fn lemma_request_written(s: Seq<u8>) -> (text: RequestText)
    requires
        spec_request(s) is Done,
    ensures
        text.wf(),
        spec_request(s)->value == text.parsed(),
        s == text.bytes() + spec_request(s)->rest,
{
    let line = spec_request_line(s);
    let (gap1, gap2, end) = lemma_request_line_sound(s);
    let headers = lemma_request_headers_written(line->rest);
    let found = spec_many1(header_item(), line->rest);
    let blank = spec_line_ending(found->rest);
    lemma_line_ending_sound(found->rest);
    lemma_after3(
        line->value.bytes(gap1, gap2, end),
        headers_bytes(headers),
        blank->value,
        blank->rest,
    );
    lemma_assoc(headers_bytes(headers), blank->value, blank->rest);
    RequestText { line: line->value, gap1, gap2, end, headers, blank: blank->value }
}

/// Whether `s` begins with a well-formed request line, however it is
/// written.
pub open spec fn begins_with_request_line(s: Seq<u8>) -> bool {
    exists|line: RequestLine, gap1: Seq<u8>, gap2: Seq<u8>, end: Seq<u8>, rest: Seq<u8>|
        {
            &&& line.wf()
            &&& ByteClass::Space.word(gap1)
            &&& ByteClass::Space.word(gap2)
            &&& is_line_ending(end)
            &&& s == #[trigger] (line.bytes(gap1, gap2, end) + rest)
        }
}

/// Whether `s` begins with a well-formed header, however it is written, and
/// the header's value ends there.
pub open spec fn begins_with_header(s: Seq<u8>) -> bool {
    exists|header: HeaderText, rest: Seq<u8>|
        header.wf() && ends_value(rest) && s == #[trigger] (header.bytes() + rest)
}

/// Whether `s` begins with a well-formed request, however it is written.
pub open spec fn begins_with_request(s: Seq<u8>) -> bool {
    exists|text: RequestText, rest: Seq<u8>| text.wf() && s == #[trigger] (text.bytes() + rest)
}

/// The request-line grammar accepts a buffer exactly if the buffer begins
/// with a well-formed request line.
pub proof fn lemma_request_line_done(s: Seq<u8>)
    ensures
        spec_request_line(s) is Done <==> begins_with_request_line(s),
{
    if spec_request_line(s) is Done {
        let (gap1, gap2, end) = lemma_request_line_sound(s);
        let line = spec_request_line(s)->value;
        let rest = spec_request_line(s)->rest;
        assert(s == line.bytes(gap1, gap2, end) + rest);
    }
    if begins_with_request_line(s) {
        let (line, gap1, gap2, end, rest) = choose|
            line: RequestLine,
            gap1: Seq<u8>,
            gap2: Seq<u8>,
            end: Seq<u8>,
            rest: Seq<u8>,
        |
            {
                &&& line.wf()
                &&& ByteClass::Space.word(gap1)
                &&& ByteClass::Space.word(gap2)
                &&& is_line_ending(end)
                &&& s == #[trigger] (line.bytes(gap1, gap2, end) + rest)
            };
        lemma_request_line_accepts(line, gap1, gap2, end, rest);
    }
}

/// The header grammar accepts a buffer exactly if the buffer begins with a
/// well-formed header whose value ends there.
pub proof fn lemma_message_header_done(s: Seq<u8>)
    ensures
        spec_message_header(s) is Done <==> begins_with_header(s),
{
    if spec_message_header(s) is Done {
        let header = lemma_message_header_written(s);
        assert(s == header.bytes() + spec_message_header(s)->rest);
    }
    if begins_with_header(s) {
        let (header, rest) = choose|header: HeaderText, rest: Seq<u8>|
            header.wf() && ends_value(rest) && s == #[trigger] (header.bytes() + rest);
        lemma_message_header_accepts(header, rest);
    }
}

/// The request grammar accepts a buffer exactly if the buffer begins with a
/// well-formed request.
pub proof fn lemma_request_done(s: Seq<u8>)
    ensures
        spec_request(s) is Done <==> begins_with_request(s),
{
    if spec_request(s) is Done {
        let text = lemma_request_written(s);
        assert(s == text.bytes() + spec_request(s)->rest);
    }
    if begins_with_request(s) {
        let (text, rest) = choose|text: RequestText, rest: Seq<u8>|
            text.wf() && s == #[trigger] (text.bytes() + rest);
        lemma_request_accepts(text, rest);
    }
}

/// However a buffer is read as `HTTP/`, a version number and what follows
/// it, the version grammar gives that number and leaves what follows.
pub proof fn lemma_http_version_reads(s: Seq<u8>)
    ensures
        forall|version: Seq<u8>, rest: Seq<u8>|
            ({
                &&& ByteClass::Version.word(version)
                &&& rest.len() > 0
                &&& !ByteClass::Version.contains(rest[0])
                &&& s == #[trigger] (http_prefix() + version + rest)
            }) ==> spec_http_version(s) == (Parse::Done { rest, value: version }),
{
    assert forall|version: Seq<u8>, rest: Seq<u8>|
        {
            &&& ByteClass::Version.word(version)
            &&& rest.len() > 0
            &&& !ByteClass::Version.contains(rest[0])
            &&& s == #[trigger] (http_prefix() + version + rest)
        } implies spec_http_version(s) == (Parse::Done { rest, value: version }) by {
        lemma_http_version_accepts(version, rest);
    }
}

/// However a buffer is read as a well-formed request line and what follows
/// it, the request-line grammar gives that line and leaves what follows.
pub proof fn lemma_request_line_reads(s: Seq<u8>)
    ensures
        forall|line: RequestLine, gap1: Seq<u8>, gap2: Seq<u8>, end: Seq<u8>, rest: Seq<u8>|
            ({
                &&& line.wf()
                &&& ByteClass::Space.word(gap1)
                &&& ByteClass::Space.word(gap2)
                &&& is_line_ending(end)
                &&& s == #[trigger] (line.bytes(gap1, gap2, end) + rest)
            }) ==> spec_request_line(s) == (Parse::Done { rest, value: line }),
{
    assert forall|line: RequestLine, gap1: Seq<u8>, gap2: Seq<u8>, end: Seq<u8>, rest: Seq<u8>|
        {
            &&& line.wf()
            &&& ByteClass::Space.word(gap1)
            &&& ByteClass::Space.word(gap2)
            &&& is_line_ending(end)
            &&& s == #[trigger] (line.bytes(gap1, gap2, end) + rest)
        } implies spec_request_line(s) == (Parse::Done { rest, value: line }) by {
        lemma_request_line_accepts(line, gap1, gap2, end, rest);
    }
}

/// However a buffer is read as a well-formed line of a header's value and
/// what follows it, the value-line grammar gives that value and leaves what
/// follows.
pub proof fn lemma_message_header_value_reads(s: Seq<u8>)
    ensures
        forall|indent: Seq<u8>, value: Seq<u8>, end: Seq<u8>, rest: Seq<u8>|
            ({
                &&& ByteClass::HorizontalSpace.word(indent)
                &&& value_wf(value)
                &&& is_line_ending(end)
                &&& s == #[trigger] (indent + value + end + rest)
            }) ==> spec_message_header_value(s) == (Parse::Done { rest, value }),
{
    assert forall|indent: Seq<u8>, value: Seq<u8>, end: Seq<u8>, rest: Seq<u8>|
        {
            &&& ByteClass::HorizontalSpace.word(indent)
            &&& value_wf(value)
            &&& is_line_ending(end)
            &&& s == #[trigger] (indent + value + end + rest)
        } implies spec_message_header_value(s) == (Parse::Done { rest, value }) by {
        lemma_message_header_value_accepts(indent, value, end, rest);
    }
}

/// However a buffer is read as a well-formed header and what ends its
/// value, the header grammar gives that header and leaves what follows.
pub proof fn lemma_message_header_reads(s: Seq<u8>)
    ensures
        forall|header: HeaderText, rest: Seq<u8>|
            header.wf() && ends_value(rest) && s == #[trigger] (header.bytes() + rest)
                ==> spec_message_header(s) == (Parse::Done { rest, value: header.field() }),
{
    assert forall|header: HeaderText, rest: Seq<u8>|
        header.wf() && ends_value(rest) && s == #[trigger] (header.bytes() + rest)
        implies spec_message_header(s) == (Parse::Done { rest, value: header.field() }) by {
        lemma_message_header_accepts(header, rest);
    }
}

/// However a buffer is read as a well-formed request and what follows it,
/// the request grammar gives that request and leaves what follows.
pub proof fn lemma_request_reads(s: Seq<u8>)
    ensures
        forall|text: RequestText, rest: Seq<u8>|
            text.wf() && s == #[trigger] (text.bytes() + rest)
                ==> spec_request(s) == (Parse::Done { rest, value: text.parsed() }),
{
    assert forall|text: RequestText, rest: Seq<u8>|
        text.wf() && s == #[trigger] (text.bytes() + rest)
        implies spec_request(s) == (Parse::Done { rest, value: text.parsed() }) by {
        lemma_request_accepts(text, rest);
    }
}

} // verus!
