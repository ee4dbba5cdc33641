//! What holds of the grammar of a request, whatever the buffer.

use crate::bytes::{ByteClass, COLON, CR, LF};
use crate::concat::{
    lemma_after3, lemma_assoc, lemma_first, lemma_split, lemma_suffix, lemma_suffix_of_suffix,
};
use crate::outcome::{Outcome, Parse};
use crate::primitive::{spec_line_ending, spec_many1, spec_tag, spec_take_while1};
use crate::primitive::laws::{
    item_advances, item_persists, lemma_line_ending_accepts, lemma_line_ending_persists,
    lemma_line_ending_sound, lemma_many1_persists, lemma_many1_sound, lemma_many1_yields,
    lemma_tag_accepts, lemma_tag_persists, lemma_tag_sound, lemma_take_while1_accepts,
    lemma_take_while1_persists, lemma_take_while1_sound,
};
use crate::request::{request_view, Header, Request};
use crate::request::grammar::{
    header_item, header_value_item, http_prefix, is_line_ending, spec_http_version,
    spec_message_header, spec_message_header_value, spec_request, spec_request_line, value_wf,
    HeaderField, RequestLine,
};
use vstd::prelude::*;

verus! {

/// An accepted version number is a word of digits and full stops that stands
/// between `HTTP/` and a byte of another kind.
pub proof fn lemma_http_version_sound(s: Seq<u8>)
    ensures
        spec_http_version(s) is Done ==> ({
            let value = spec_http_version(s)->value;
            let rest = spec_http_version(s)->rest;
            &&& s == http_prefix() + value + rest
            &&& ByteClass::Version.word(value)
            &&& rest.len() > 0
            &&& !ByteClass::Version.contains(rest[0])
        }),
{
    lemma_tag_sound(s, http_prefix());
    if let Parse::Done { rest: s1, value: prefix } = spec_tag(s, http_prefix()) {
        lemma_take_while1_sound(s1, ByteClass::Version);
        if let Parse::Done { rest, value } = spec_take_while1(s1, ByteClass::Version) {
            lemma_assoc(http_prefix(), value, rest);
        }
    }
}

/// `HTTP/` and a version number, followed by a byte that cannot belong to
/// the number, are accepted as that number.
pub proof fn lemma_http_version_accepts(version: Seq<u8>, rest: Seq<u8>)
    requires
        ByteClass::Version.word(version),
        rest.len() > 0,
        !ByteClass::Version.contains(rest[0]),
    ensures
        spec_http_version(http_prefix() + version + rest) == (Parse::Done { rest, value: version }),
{
    lemma_assoc(http_prefix(), version, rest);
    lemma_tag_accepts(version + rest, http_prefix());
    lemma_take_while1_accepts(version, rest, ByteClass::Version);
}

/// What the version grammar accepts or rejects stays so when bytes are
/// appended.
pub proof fn lemma_http_version_persists(s: Seq<u8>, t: Seq<u8>)
    ensures
        spec_http_version(s).persists(t, spec_http_version(s + t)),
{
    lemma_tag_persists(s, t, http_prefix());
    if let Parse::Done { rest: s1, value: prefix } = spec_tag(s, http_prefix()) {
        lemma_take_while1_persists(s1, t, ByteClass::Version);
    }
}

/// A request line that is accepted is well formed, and the buffer consists
/// of the line written with some spaces for its two gaps and some line
/// ending, followed by what is left.  The gaps and the line ending are
/// returned.
pub proof fn lemma_request_line_sound(s: Seq<u8>) -> (written: (Seq<u8>, Seq<u8>, Seq<u8>))
    requires
        spec_request_line(s) is Done,
    ensures
        ({
            let (gap1, gap2, end) = written;
            let line = spec_request_line(s)->value;
            let rest = spec_request_line(s)->rest;
            &&& line.wf()
            &&& ByteClass::Space.word(gap1)
            &&& ByteClass::Space.word(gap2)
            &&& is_line_ending(end)
            &&& s == line.bytes(gap1, gap2, end) + rest
        }),
        spec_request_line(s).advances(s),
{
    let method = spec_take_while1(s, ByteClass::Token);
    lemma_take_while1_sound(s, ByteClass::Token);
    let gap1 = spec_take_while1(method->rest, ByteClass::Space);
    lemma_take_while1_sound(method->rest, ByteClass::Space);
    let uri = spec_take_while1(gap1->rest, ByteClass::NotSpace);
    lemma_take_while1_sound(gap1->rest, ByteClass::NotSpace);
    let gap2 = spec_take_while1(uri->rest, ByteClass::Space);
    lemma_take_while1_sound(uri->rest, ByteClass::Space);
    let version = spec_http_version(gap2->rest);
    lemma_http_version_sound(gap2->rest);
    let end = spec_line_ending(version->rest);
    lemma_line_ending_sound(version->rest);
    let line = RequestLine { method: method->value, uri: uri->value, version: version->value };
    let c2 = method->value + gap1->value;
    let c4 = c2 + uri->value + gap2->value;
    lemma_assoc(method->value, gap1->value, gap1->rest);
    lemma_assoc(c2, uri->value, uri->rest);
    lemma_assoc(c2 + uri->value, gap2->value, gap2->rest);
    lemma_after3(c4, http_prefix(), version->value, version->rest);
    lemma_assoc(c4 + http_prefix() + version->value, end->value, end->rest);
    lemma_suffix(line.bytes(gap1->value, gap2->value, end->value), end->rest);
    (gap1->value, gap2->value, end->value)
}

/// A word of the class is accepted as a run where something follows that
/// begins outside the class.
proof fn lemma_run_then(run: Seq<u8>, next: Seq<u8>, after: Seq<u8>, class: ByteClass)
    requires
        class.word(run),
        next.len() > 0,
        !class.contains(next[0]),
    ensures
        spec_take_while1(run + (next + after), class) == (Parse::Done {
            rest: next + after,
            value: run,
        }),
{
    lemma_first(next, after);
    lemma_take_while1_accepts(run, next + after, class);
}

/// The request line, put together from what each of its parts leaves.
proof fn lemma_request_line_parts(
    s: Seq<u8>,
    line: RequestLine,
    s1: Seq<u8>,
    s2: Seq<u8>,
    s3: Seq<u8>,
    s4: Seq<u8>,
    s5: Seq<u8>,
    s6: Seq<u8>,
)
    requires
        spec_take_while1(s, ByteClass::Token) == (Parse::Done { rest: s1, value: line.method }),
        spec_take_while1(s1, ByteClass::Space).leaves(s2),
        spec_take_while1(s2, ByteClass::NotSpace) == (Parse::Done { rest: s3, value: line.uri }),
        spec_take_while1(s3, ByteClass::Space).leaves(s4),
        spec_http_version(s4) == (Parse::Done { rest: s5, value: line.version }),
        spec_line_ending(s5).leaves(s6),
    ensures
        spec_request_line(s) == (Parse::Done { rest: s6, value: line }),
{
}

/// A well-formed request line is accepted where its pieces are joined from
/// the right.
proof fn lemma_request_line_nested(
    line: RequestLine,
    gap1: Seq<u8>,
    gap2: Seq<u8>,
    end: Seq<u8>,
    rest: Seq<u8>,
)
    requires
        line.wf(),
        ByteClass::Space.word(gap1),
        ByteClass::Space.word(gap2),
        is_line_ending(end),
    ensures
        spec_request_line(
            line.method + (gap1 + (line.uri + (gap2 + (http_prefix() + line.version + (end
                + rest))))),
        ) == (Parse::Done { rest, value: line }),
{
    let s5 = end + rest;
    let s4 = http_prefix() + line.version + s5;
    let s3 = gap2 + s4;
    let s2 = line.uri + s3;
    let s1 = gap1 + s2;
    lemma_run_then(line.method, gap1, s2, ByteClass::Token);
    lemma_run_then(gap1, line.uri, s3, ByteClass::Space);
    lemma_run_then(line.uri, gap2, s4, ByteClass::NotSpace);
    lemma_assoc(http_prefix(), line.version, s5);
    lemma_run_then(gap2, http_prefix(), line.version + s5, ByteClass::Space);
    lemma_first(end, rest);
    lemma_http_version_accepts(line.version, s5);
    lemma_line_ending_accepts(end, rest);
    lemma_request_line_parts(line.method + s1, line, s1, s2, s3, s4, s5, rest);
}

/// Every well-formed request line, written with one or more spaces in each
/// gap and with either line ending, is accepted as it stands, whatever
/// follows it: the three parts are the bytes that were written, and what is
/// left is what follows the line ending.
pub proof fn lemma_request_line_accepts(
    line: RequestLine,
    gap1: Seq<u8>,
    gap2: Seq<u8>,
    end: Seq<u8>,
    rest: Seq<u8>,
)
    requires
        line.wf(),
        ByteClass::Space.word(gap1),
        ByteClass::Space.word(gap2),
        is_line_ending(end),
    ensures
        spec_request_line(line.bytes(gap1, gap2, end) + rest) == (Parse::Done {
            rest,
            value: line,
        }),
{
    let s5 = end + rest;
    let s4 = http_prefix() + line.version + s5;
    let s3 = gap2 + s4;
    let s2 = line.uri + s3;
    let c2 = line.method + gap1;
    let c4 = c2 + line.uri + gap2;
    lemma_assoc(c4 + http_prefix() + line.version, end, rest);
    lemma_after3(c4, http_prefix(), line.version, s5);
    lemma_assoc(c2 + line.uri, gap2, s4);
    lemma_assoc(c2, line.uri, s3);
    lemma_assoc(line.method, gap1, s2);
    lemma_request_line_nested(line, gap1, gap2, end, rest);
}

/// What the request-line grammar accepts or rejects stays so when bytes
/// are appended to the buffer.
pub proof fn lemma_request_line_persists(s: Seq<u8>, t: Seq<u8>)
    ensures
        spec_request_line(s).persists(t, spec_request_line(s + t)),
{
    lemma_take_while1_persists(s, t, ByteClass::Token);
    if let Parse::Done { rest: s1, value: method } = spec_take_while1(s, ByteClass::Token) {
        lemma_take_while1_persists(s1, t, ByteClass::Space);
        if let Parse::Done { rest: s2, value: gap1 } = spec_take_while1(s1, ByteClass::Space) {
            lemma_take_while1_persists(s2, t, ByteClass::NotSpace);
            if let Parse::Done { rest: s3, value: uri } = spec_take_while1(
                s2,
                ByteClass::NotSpace,
            ) {
                lemma_take_while1_persists(s3, t, ByteClass::Space);
                if let Parse::Done { rest: s4, value: gap2 } = spec_take_while1(
                    s3,
                    ByteClass::Space,
                ) {
                    lemma_http_version_persists(s4, t);
                    if let Parse::Done { rest: s5, value: version } = spec_http_version(s4) {
                        lemma_line_ending_persists(s5, t);
                    }
                }
            }
        }
    }
}

/// A value line that is accepted holds a well-formed value, and the buffer
/// consists of some horizontal space, the value and some line ending,
/// followed by what is left.  The space and the line ending are returned.
pub proof fn lemma_message_header_value_sound(s: Seq<u8>) -> (written: (Seq<u8>, Seq<u8>))
    requires
        spec_message_header_value(s) is Done,
    ensures
        ({
            let (indent, end) = written;
            let value = spec_message_header_value(s)->value;
            let rest = spec_message_header_value(s)->rest;
            &&& value_wf(value)
            &&& ByteClass::HorizontalSpace.word(indent)
            &&& is_line_ending(end)
            &&& s == indent + value + end + rest
        }),
        spec_message_header_value(s).advances(s),
{
    let indent = spec_take_while1(s, ByteClass::HorizontalSpace);
    lemma_take_while1_sound(s, ByteClass::HorizontalSpace);
    let data = spec_take_while1(indent->rest, ByteClass::NotLineEnding);
    lemma_take_while1_sound(indent->rest, ByteClass::NotLineEnding);
    let end = spec_line_ending(data->rest);
    lemma_line_ending_sound(data->rest);
    assert(data->value[0] == indent->rest[0]);
    lemma_assoc(indent->value, data->value, data->rest);
    lemma_assoc(indent->value + data->value, end->value, end->rest);
    lemma_suffix(indent->value + data->value + end->value, end->rest);
    (indent->value, end->value)
}

/// Every well-formed value, written after some horizontal space and before
/// either line ending, is accepted as it stands, whatever follows it.
pub proof fn lemma_message_header_value_accepts(
    indent: Seq<u8>,
    value: Seq<u8>,
    end: Seq<u8>,
    rest: Seq<u8>,
)
    requires
        ByteClass::HorizontalSpace.word(indent),
        value_wf(value),
        is_line_ending(end),
    ensures
        spec_message_header_value(indent + value + end + rest) == (Parse::Done { rest, value }),
{
    let s2 = end + rest;
    let s1 = value + s2;
    let s = indent + s1;
    assert(s == indent + value + end + rest) by {
        lemma_assoc(indent + value, end, rest);
        lemma_assoc(indent, value, s2);
    }
    lemma_run_then(indent, value, s2, ByteClass::HorizontalSpace);
    lemma_run_then(value, end, rest, ByteClass::NotLineEnding);
    lemma_line_ending_accepts(end, rest);
}

/// What the value-line grammar accepts or rejects stays so when bytes are
/// appended to the buffer.
pub proof fn lemma_message_header_value_persists(s: Seq<u8>, t: Seq<u8>)
    ensures
        spec_message_header_value(s).persists(t, spec_message_header_value(s + t)),
{
    lemma_take_while1_persists(s, t, ByteClass::HorizontalSpace);
    if let Parse::Done { rest: s1, value: indent } = spec_take_while1(
        s,
        ByteClass::HorizontalSpace,
    ) {
        lemma_take_while1_persists(s1, t, ByteClass::NotLineEnding);
        if let Parse::Done { rest: s2, value } = spec_take_while1(s1, ByteClass::NotLineEnding) {
            lemma_line_ending_persists(s2, t);
        }
    }
}

/// The value line, as the item of a repetition, has what the laws of
/// repetition ask of an item.
pub proof fn lemma_header_value_item()
    ensures
        item_advances(header_value_item()),
        item_persists(header_value_item()),
{
    let item = header_value_item();
    assert forall|x: Seq<u8>| #[trigger] item(x).advances(x) by {
        if item(x) is Done {
            let written = lemma_message_header_value_sound(x);
        }
    }
    assert forall|x: Seq<u8>, t: Seq<u8>| #[trigger]
        item(x).persists_unless_exhausted(t, item(x + t)) by {
        lemma_message_header_value_persists(x, t);
    }
}

/// A header that is accepted is well formed; at least one byte was consumed
/// for it, and what is left is the end of the buffer.
pub proof fn lemma_message_header_sound(s: Seq<u8>)
    ensures
        spec_message_header(s).advances(s),
        spec_message_header(s) is Done ==> spec_message_header(s)->value.wf(),
{
    lemma_take_while1_sound(s, ByteClass::Token);
    if let Parse::Done { rest: s1, value: name } = spec_take_while1(s, ByteClass::Token) {
        lemma_tag_sound(s1, seq![COLON]);
        if let Parse::Done { rest: s2, value: colon } = spec_tag(s1, seq![COLON]) {
            let item = header_value_item();
            let good = |value: Seq<u8>| value_wf(value);
            assert forall|x: Seq<u8>| (#[trigger] item(x)) is Done implies good(
                item(x)->value,
            ) by {
                let written = lemma_message_header_value_sound(x);
            }
            lemma_header_value_item();
            lemma_many1_sound(item, s2);
            lemma_many1_yields(item, good, s2);
            if let Parse::Done { rest: s3, value: values } = spec_many1(header_value_item(), s2) {
                lemma_suffix(name, s1);
                lemma_suffix(seq![COLON], s2);
                lemma_suffix_of_suffix(s3, s2, s1);
                lemma_suffix_of_suffix(s3, s1, s);
            }
        }
    }
}

/// What the header grammar rejects stays rejected when bytes are appended to
/// the buffer, and what it accepts stays accepted unless the header reached
/// the last byte of the buffer: there a further value line may follow.
pub proof fn lemma_message_header_persists(s: Seq<u8>, t: Seq<u8>)
    ensures
        spec_message_header(s).persists_unless_exhausted(t, spec_message_header(s + t)),
{
    lemma_take_while1_persists(s, t, ByteClass::Token);
    if let Parse::Done { rest: s1, value: name } = spec_take_while1(s, ByteClass::Token) {
        lemma_tag_persists(s1, t, seq![COLON]);
        if let Parse::Done { rest: s2, value: colon } = spec_tag(s1, seq![COLON]) {
            lemma_header_value_item();
            lemma_many1_persists(header_value_item(), s2, t);
        }
    }
}

/// The header, as the item of a repetition, has what the laws of repetition
/// ask of an item.
pub proof fn lemma_header_item()
    ensures
        item_advances(header_item()),
        item_persists(header_item()),
{
    let item = header_item();
    assert forall|x: Seq<u8>| #[trigger] item(x).advances(x) by {
        lemma_message_header_sound(x);
    }
    assert forall|x: Seq<u8>, t: Seq<u8>| #[trigger]
        item(x).persists_unless_exhausted(t, item(x + t)) by {
        lemma_message_header_persists(x, t);
    }
}

/// A request that is accepted is well formed: its line is, there is at
/// least one header, and each header is.  At least one byte was consumed for
/// it, and what is left is the end of the buffer.
pub proof fn lemma_request_sound(s: Seq<u8>)
    ensures
        spec_request(s).advances(s),
        spec_request(s) is Done ==> spec_request(s)->value.wf(),
{
    if let Parse::Done { rest: s1, value: line } = spec_request_line(s) {
        let written = lemma_request_line_sound(s);
        let item = header_item();
        let good = |header: HeaderField| header.wf();
        assert forall|x: Seq<u8>| (#[trigger] item(x)) is Done implies good(item(x)->value) by {
            lemma_message_header_sound(x);
        }
        lemma_header_item();
        lemma_many1_sound(item, s1);
        lemma_many1_yields(item, good, s1);
        if let Parse::Done { rest: s2, value: headers } = spec_many1(header_item(), s1) {
            lemma_line_ending_sound(s2);
            if let Parse::Done { rest: s3, value: end } = spec_line_ending(s2) {
                lemma_suffix(end, s3);
                lemma_suffix_of_suffix(s3, s2, s1);
                lemma_suffix_of_suffix(s3, s1, s);
            }
        }
    }
}

/// What the request grammar accepts or rejects stays so when bytes are
/// appended to the buffer: a verdict other than `Incomplete` is final.
pub proof fn lemma_request_persists(s: Seq<u8>, t: Seq<u8>)
    ensures
        spec_request(s).persists(t, spec_request(s + t)),
{
    lemma_request_line_persists(s, t);
    if let Parse::Done { rest: s1, value: line } = spec_request_line(s) {
        lemma_header_item();
        lemma_many1_persists(header_item(), s1, t);
        if let Parse::Done { rest: s2, value: headers } = spec_many1(header_item(), s1) {
            lemma_line_ending_persists(s2, t);
            lemma_line_ending_sound(s2);
        }
    }
}

/// While only a part of a request line has arrived, the verdict is
/// `Incomplete`: no buffer that ends before the end of an accepted request
/// line is accepted or rejected.
pub proof fn lemma_request_line_prefix_incomplete(s: Seq<u8>, k: int)
    requires
        spec_request_line(s) is Done,
        0 <= k < s.len() - spec_request_line(s)->rest.len(),
    ensures
        spec_request_line(s.take(k)) is Incomplete,
{
    lemma_split(s, k);
    lemma_request_line_persists(s.take(k), s.skip(k));
}

/// While only a part of a request has arrived, the verdict is `Incomplete`:
/// no buffer that ends before the end of an accepted request is accepted or
/// rejected.  So a request that arrives in pieces, wherever it is cut, is
/// accepted exactly when its last byte has come.
pub proof fn lemma_request_prefix_incomplete(s: Seq<u8>, k: int)
    requires
        spec_request(s) is Done,
        0 <= k < s.len() - spec_request(s)->rest.len(),
    ensures
        spec_request(s.take(k)) is Incomplete,
{
    lemma_split(s, k);
    lemma_request_persists(s.take(k), s.skip(k));
}

/// A buffer that holds the beginning of a method and nothing else, that is
/// token bytes alone or nothing at all, is neither accepted nor rejected.
pub proof fn lemma_truncated_method_incomplete(s: Seq<u8>)
    requires
        ByteClass::Token.all(s),
    ensures
        spec_request_line(s) is Incomplete,
        spec_request(s) is Incomplete,
{
    lemma_take_while1_sound(s, ByteClass::Token);
    if let Parse::Done { rest, value } = spec_take_while1(s, ByteClass::Token) {
        assert(rest[0] == s[value.len() as int]);
    }
}

/// A header line without a colon is rejected: where a carriage return or a
/// line feed occurs in the buffer and no colon occurs before it, the header
/// grammar gives `Error`.
pub proof fn lemma_header_without_colon_rejected(s: Seq<u8>, k: int)
    requires
        0 <= k < s.len(),
        s[k] == CR || s[k] == LF,
        forall|i: int| 0 <= i < k ==> s[i] != COLON,
    ensures
        spec_message_header(s) is Error,
{
    lemma_take_while1_sound(s, ByteClass::Token);
    match spec_take_while1(s, ByteClass::Token) {
        Parse::Done { rest, value } => {
            let n = value.len() as int;
            if n > k {
                assert(value[k] == s[k]);
            }
            assert(rest[0] == s[n]);
            lemma_tag_sound(rest, seq![COLON]);
            if spec_tag(rest, seq![COLON]) is Done {
                assert((seq![COLON] + spec_tag(rest, seq![COLON])->rest)[0] == COLON);
            }
        },
        Parse::Error => {},
        Parse::Incomplete => {},
    }
}

/// What begins with a byte that is no token byte begins no header.
pub proof fn lemma_header_needs_name(s: Seq<u8>)
    requires
        s.len() > 0,
        !ByteClass::Token.contains(s[0]),
    ensures
        spec_message_header(s) is Error,
{
    lemma_take_while1_sound(s, ByteClass::Token);
}

/// Where no header follows the request line, the request is rejected.
pub proof fn lemma_request_needs_header(s: Seq<u8>)
    requires
        spec_request_line(s) is Done,
        spec_message_header(spec_request_line(s)->rest) is Error,
    ensures
        spec_request(s) is Error,
{
}

/// A request without any header is rejected: a well-formed request line
/// that is followed at once by the empty line is an `Error`, whatever comes
/// after.
pub proof fn lemma_request_without_headers_rejected(
    line: RequestLine,
    gap1: Seq<u8>,
    gap2: Seq<u8>,
    end: Seq<u8>,
    blank: Seq<u8>,
    rest: Seq<u8>,
)
    requires
        line.wf(),
        ByteClass::Space.word(gap1),
        ByteClass::Space.word(gap2),
        is_line_ending(end),
        is_line_ending(blank),
    ensures
        spec_request(line.bytes(gap1, gap2, end) + blank + rest) is Error,
{
    let s1 = blank + rest;
    lemma_assoc(line.bytes(gap1, gap2, end), blank, rest);
    lemma_request_line_accepts(line, gap1, gap2, end, s1);
    lemma_first(blank, rest);
    lemma_header_needs_name(s1);
    lemma_request_needs_header(line.bytes(gap1, gap2, end) + s1);
}

/// Parsing has no memory: the verdict on a request line depends on the
/// bytes of the buffer alone.  Whatever the parser of request lines returns
/// for two buffers that hold the same bytes, or for one buffer twice, stands
/// for the same verdict, with the same bytes in every part.
pub proof fn lemma_request_line_repeatable(
    a: &[u8],
    b: &[u8],
    first: Outcome<Request>,
    second: Outcome<Request>,
)
    requires
        a@ == b@,
        first@ == spec_request_line(a@),
        second@ == spec_request_line(b@),
    ensures
        first@ == second@,
{
}

/// Parsing has no memory: whatever the parser of headers returns for two
/// buffers that hold the same bytes, or for one buffer twice, stands for the
/// same verdict, with the same bytes in every part.
pub proof fn lemma_message_header_repeatable(
    a: &[u8],
    b: &[u8],
    first: Outcome<Header>,
    second: Outcome<Header>,
)
    requires
        a@ == b@,
        first@ == spec_message_header(a@),
        second@ == spec_message_header(b@),
    ensures
        first@ == second@,
{
}

/// Parsing has no memory: whatever the parser of requests returns for two
/// buffers that hold the same bytes, or for one buffer twice, stands for the
/// same verdict, with the same bytes in every part.
pub proof fn lemma_request_repeatable(
    a: &[u8],
    b: &[u8],
    first: Outcome<(Request, Vec<Header>)>,
    second: Outcome<(Request, Vec<Header>)>,
)
    requires
        a@ == b@,
        request_view(first) == spec_request(a@),
        request_view(second) == spec_request(b@),
    ensures
        request_view(first) == request_view(second),
{
}

} // verus!
