//! Every `Incomplete` verdict can still become `Done`: the grammars never
//! ask for more bytes in vain.
//!
//! Together with the other laws this says what each verdict means.  A
//! buffer is `Done` if and only if it begins with something well formed, it
//! is `Error` if and only if no bytes that may still arrive can make it so,
//! and it is `Incomplete` in the one case that is left: it is not yet well
//! formed, and some continuation of it is.

use crate::bytes::{ByteClass, COLON, CR, LF, SP};
use crate::concat::{
    lemma_after3, lemma_after4, lemma_after5, lemma_after7, lemma_after_nothing, lemma_assoc,
    lemma_nothing, lemma_pair, lemma_prefix_rest,
};
use crate::outcome::Parse;
use crate::primitive::{spec_line_ending, spec_many0, spec_many1, spec_tag, spec_take_while1};
use crate::primitive::laws::{
    lemma_line_ending_accepts, lemma_line_ending_completes, lemma_line_ending_sound,
    lemma_many1_persists, lemma_tag_persists, lemma_tag_sound, lemma_take_while1_completes,
    lemma_take_while1_incomplete, lemma_take_while1_persists, lemma_take_while1_sound,
};
use crate::request::grammar::{
    header_item, header_value_item, http_prefix, spec_http_version, spec_message_header,
    spec_message_header_value, spec_request, spec_request_line, HeaderField, RequestLine,
};
use crate::request::laws::{
    lemma_header_item, lemma_message_header_persists, lemma_message_header_sound,
    lemma_message_header_value_accepts, lemma_message_header_value_persists,
    lemma_message_header_value_sound, lemma_request_line_accepts, lemma_request_line_persists,
    lemma_request_persists,
};
use crate::request::written::{
    begins_with_header, begins_with_request, begins_with_request_line, ends_headers, ends_value,
    lemma_line_ending_ends_headers, lemma_message_header_accepts, lemma_message_header_done,
    lemma_request_done, lemma_request_line_done, lemma_unindented_ends_value, lines_bytes,
    HeaderText, ValueLine,
};
use vstd::prelude::*;

verus! {

/// A target that is a word of its class: `/`.
spec fn some_uri() -> Seq<u8> {
    seq![0x2fu8]
}

/// A version number that is a word of its class: `1`.
spec fn some_version() -> Seq<u8> {
    seq![0x31u8]
}

/// A request line of which only the beginning of the method is written, or
/// nothing at all, can be completed.
proof fn lemma_line_after_method(m: Seq<u8>, f: Seq<u8>) -> (t: Seq<u8>)
    requires
        ByteClass::Token.all(m),
    ensures
        spec_request_line(m + t + f).leaves(f),
{
    let sp = seq![SP];
    let lf = seq![LF];
    lemma_take_while1_incomplete(m, ByteClass::Token);
    let t0 = lemma_take_while1_completes(m, ByteClass::Token, sp);
    let line = RequestLine { method: m + t0, uri: some_uri(), version: some_version() };
    lemma_request_line_accepts(line, sp, sp, lf, f);
    lemma_after7(m, t0, sp, some_uri(), sp, http_prefix(), some_version(), lf);
    t0 + sp + some_uri() + sp + http_prefix() + some_version() + lf
}

/// A request line that is written up to some of the spaces after the method
/// can be completed.
proof fn lemma_line_after_gap1(m: Seq<u8>, g1: Seq<u8>, f: Seq<u8>) -> (t: Seq<u8>)
    requires
        ByteClass::Token.word(m),
        ByteClass::Space.word(g1),
    ensures
        spec_request_line(m + g1 + t + f).leaves(f),
{
    let sp = seq![SP];
    let lf = seq![LF];
    let line = RequestLine { method: m, uri: some_uri(), version: some_version() };
    lemma_request_line_accepts(line, g1, sp, lf, f);
    lemma_after5(m + g1, some_uri(), sp, http_prefix(), some_version(), lf);
    some_uri() + sp + http_prefix() + some_version() + lf
}

/// A request line that is written up to a part of the target can be
/// completed.
proof fn lemma_line_after_uri(m: Seq<u8>, g1: Seq<u8>, u: Seq<u8>, f: Seq<u8>) -> (t: Seq<u8>)
    requires
        ByteClass::Token.word(m),
        ByteClass::Space.word(g1),
        ByteClass::NotSpace.word(u),
    ensures
        spec_request_line(m + g1 + u + t + f).leaves(f),
{
    let sp = seq![SP];
    let lf = seq![LF];
    let line = RequestLine { method: m, uri: u, version: some_version() };
    lemma_request_line_accepts(line, g1, sp, lf, f);
    lemma_after4(m + g1 + u, sp, http_prefix(), some_version(), lf);
    sp + http_prefix() + some_version() + lf
}

/// A request line that is written up to some of the spaces after the target
/// can be completed.
proof fn lemma_line_after_gap2(
    m: Seq<u8>,
    g1: Seq<u8>,
    u: Seq<u8>,
    g2: Seq<u8>,
    f: Seq<u8>,
) -> (t: Seq<u8>)
    requires
        ByteClass::Token.word(m),
        ByteClass::Space.word(g1),
        ByteClass::NotSpace.word(u),
        ByteClass::Space.word(g2),
    ensures
        spec_request_line(m + g1 + u + g2 + t + f).leaves(f),
{
    let lf = seq![LF];
    let line = RequestLine { method: m, uri: u, version: some_version() };
    lemma_request_line_accepts(line, g1, g2, lf, f);
    lemma_after3(m + g1 + u + g2, http_prefix(), some_version(), lf);
    http_prefix() + some_version() + lf
}

/// A request line that is written up to a part of `HTTP/` can be completed.
proof fn lemma_line_after_prefix(
    m: Seq<u8>,
    g1: Seq<u8>,
    u: Seq<u8>,
    g2: Seq<u8>,
    p: Seq<u8>,
    f: Seq<u8>,
) -> (t: Seq<u8>)
    requires
        ByteClass::Token.word(m),
        ByteClass::Space.word(g1),
        ByteClass::NotSpace.word(u),
        ByteClass::Space.word(g2),
        p.is_prefix_of(http_prefix()),
    ensures
        spec_request_line(m + g1 + u + g2 + p + t + f).leaves(f),
{
    let lf = seq![LF];
    let line = RequestLine { method: m, uri: u, version: some_version() };
    lemma_request_line_accepts(line, g1, g2, lf, f);
    let q = http_prefix().skip(p.len() as int);
    lemma_prefix_rest(p, http_prefix());
    lemma_after3(m + g1 + u + g2 + p, q, some_version(), lf);
    lemma_assoc(m + g1 + u + g2, p, q);
    q + some_version() + lf
}

/// A request line that is written up to a part of the version number, or
/// up to `HTTP/`, can be completed.
proof fn lemma_line_after_version(
    m: Seq<u8>,
    g1: Seq<u8>,
    u: Seq<u8>,
    g2: Seq<u8>,
    v: Seq<u8>,
    f: Seq<u8>,
) -> (t: Seq<u8>)
    requires
        ByteClass::Token.word(m),
        ByteClass::Space.word(g1),
        ByteClass::NotSpace.word(u),
        ByteClass::Space.word(g2),
        ByteClass::Version.all(v),
    ensures
        spec_request_line(m + g1 + u + g2 + http_prefix() + v + t + f).leaves(f),
{
    let lf = seq![LF];
    lemma_take_while1_incomplete(v, ByteClass::Version);
    let t0 = lemma_take_while1_completes(v, ByteClass::Version, lf);
    let line = RequestLine { method: m, uri: u, version: v + t0 };
    lemma_request_line_accepts(line, g1, g2, lf, f);
    lemma_assoc(m + g1 + u + g2 + http_prefix() + v, t0, lf);
    lemma_assoc(m + g1 + u + g2 + http_prefix(), v, t0);
    t0 + lf
}

/// A request line that is written up to the carriage return can be
/// completed.
proof fn lemma_line_after_cr(
    m: Seq<u8>,
    g1: Seq<u8>,
    u: Seq<u8>,
    g2: Seq<u8>,
    v: Seq<u8>,
    f: Seq<u8>,
)
    requires
        ByteClass::Token.word(m),
        ByteClass::Space.word(g1),
        ByteClass::NotSpace.word(u),
        ByteClass::Space.word(g2),
        ByteClass::Version.word(v),
    ensures
        spec_request_line(
            m + g1 + u + g2 + http_prefix() + v + seq![CR] + seq![LF] + f,
        ).leaves(f),
{
    let line = RequestLine { method: m, uri: u, version: v };
    lemma_request_line_accepts(line, g1, g2, seq![CR, LF], f);
    lemma_pair(CR, LF);
    lemma_assoc(m + g1 + u + g2 + http_prefix() + v, seq![CR], seq![LF]);
}

/// A request line that is `Incomplete` can be completed: there are bytes
/// `t` such that the buffer, followed by `t` and by any bytes `f`, is
/// accepted with `f` left.
pub proof fn lemma_request_line_completes(s: Seq<u8>, f: Seq<u8>) -> (t: Seq<u8>)
    requires
        spec_request_line(s) is Incomplete,
    ensures
        spec_request_line(s + t + f).leaves(f),
{
    let method = spec_take_while1(s, ByteClass::Token);
    lemma_take_while1_sound(s, ByteClass::Token);
    if method is Incomplete {
        lemma_line_after_method(s, f)
    } else {
        let m = method->value;
        let gap1 = spec_take_while1(method->rest, ByteClass::Space);
        lemma_take_while1_sound(method->rest, ByteClass::Space);
        if gap1 is Incomplete {
            lemma_line_after_gap1(m, method->rest, f)
        } else {
            let g1 = gap1->value;
            lemma_assoc(m, g1, gap1->rest);
            let uri = spec_take_while1(gap1->rest, ByteClass::NotSpace);
            lemma_take_while1_sound(gap1->rest, ByteClass::NotSpace);
            if uri is Incomplete {
                lemma_line_after_uri(m, g1, gap1->rest, f)
            } else {
                let u = uri->value;
                lemma_assoc(m + g1, u, uri->rest);
                let gap2 = spec_take_while1(uri->rest, ByteClass::Space);
                lemma_take_while1_sound(uri->rest, ByteClass::Space);
                if gap2 is Incomplete {
                    lemma_line_after_gap2(m, g1, u, uri->rest, f)
                } else {
                    let g2 = gap2->value;
                    lemma_assoc(m + g1 + u, g2, gap2->rest);
                    lemma_line_after_gaps(m, g1, u, g2, gap2->rest, f)
                }
            }
        }
    }
}

/// A request line that is written beyond the spaces after the target, and
/// is `Incomplete` in what `tail` holds of the version or the line ending,
/// can be completed.
proof fn lemma_line_after_gaps(
    m: Seq<u8>,
    g1: Seq<u8>,
    u: Seq<u8>,
    g2: Seq<u8>,
    tail: Seq<u8>,
    f: Seq<u8>,
) -> (t: Seq<u8>)
    requires
        ByteClass::Token.word(m),
        ByteClass::Space.word(g1),
        ByteClass::NotSpace.word(u),
        ByteClass::Space.word(g2),
        spec_http_version(tail) is Incomplete || (spec_http_version(tail) is Done
            && spec_line_ending(spec_http_version(tail)->rest) is Incomplete),
    ensures
        spec_request_line(m + g1 + u + g2 + tail + t + f).leaves(f),
{
    let c = m + g1 + u + g2;
    let prefix = spec_tag(tail, http_prefix());
    lemma_tag_sound(tail, http_prefix());
    if prefix is Incomplete {
        lemma_line_after_prefix(m, g1, u, g2, tail, f)
    } else {
        let number = spec_take_while1(prefix->rest, ByteClass::Version);
        lemma_take_while1_sound(prefix->rest, ByteClass::Version);
        lemma_assoc(c, http_prefix(), prefix->rest);
        if number is Incomplete {
            lemma_line_after_version(m, g1, u, g2, prefix->rest, f)
        } else {
            lemma_line_ending_sound(number->rest);
            lemma_assoc(c + http_prefix(), number->value, number->rest);
            lemma_line_after_cr(m, g1, u, g2, number->value, f);
            seq![LF]
        }
    }
}

/// A value that is well formed: `x`.
spec fn some_value() -> Seq<u8> {
    seq![0x78u8]
}

/// A line of a header's value that is `Incomplete` can be completed: there
/// are bytes `t` such that the buffer, followed by `t` and by any bytes `f`,
/// is accepted with `f` left.
pub proof fn lemma_message_header_value_completes(s: Seq<u8>, f: Seq<u8>) -> (t: Seq<u8>)
    requires
        spec_message_header_value(s) is Incomplete,
    ensures
        spec_message_header_value(s + t + f).leaves(f),
{
    let lf = seq![LF];
    let indent = spec_take_while1(s, ByteClass::HorizontalSpace);
    lemma_take_while1_sound(s, ByteClass::HorizontalSpace);
    if indent is Incomplete {
        let t0 = lemma_take_while1_completes(s, ByteClass::HorizontalSpace, some_value());
        lemma_message_header_value_accepts(s + t0, some_value(), lf, f);
        lemma_after3(s, t0, some_value(), lf);
        t0 + some_value() + lf
    } else {
        let data = spec_take_while1(indent->rest, ByteClass::NotLineEnding);
        lemma_take_while1_sound(indent->rest, ByteClass::NotLineEnding);
        if data is Incomplete {
            lemma_message_header_value_accepts(indent->value, indent->rest, lf, f);
            lf
        } else {
            lemma_line_ending_sound(data->rest);
            assert(data->value[0] == indent->rest[0]);
            lemma_message_header_value_accepts(indent->value, data->value, seq![CR, LF], f);
            lemma_assoc(indent->value, data->value, data->rest);
            lemma_pair(CR, LF);
            lemma_assoc(indent->value + data->value, seq![CR], lf);
            lf
        }
    }
}

/// A repetition of value lines that is `Incomplete` can be completed: there
/// are bytes `t` such that the buffer, followed by `t` and by any bytes `f`
/// that end the value, is accepted with `f` left.
pub proof fn lemma_lines_complete(s: Seq<u8>, f: Seq<u8>) -> (t: Seq<u8>)
    requires
        spec_many0(header_value_item(), s) is Incomplete,
        ends_value(f),
    ensures
        spec_many0(header_value_item(), s + t + f).leaves(f),
    decreases s.len(),
{
    let item = header_value_item();
    if item(s) is Incomplete {
        let t = lemma_message_header_value_completes(s, f);
        assert(spec_many0(item, f) == (Parse::Done { rest: f, value: Seq::<Seq<u8>>::empty() }));
        assert((s + t + f).len() > f.len());
        t
    } else {
        let written = lemma_message_header_value_sound(s);
        let t = lemma_lines_complete(item(s)->rest, f);
        lemma_message_header_value_persists(s, t + f);
        lemma_assoc(s, t, f);
        lemma_assoc(item(s)->rest, t, f);
        t
    }
}

/// One or more value lines that are `Incomplete` can be completed.
pub proof fn lemma_header_lines_complete(s: Seq<u8>, f: Seq<u8>) -> (t: Seq<u8>)
    requires
        spec_many1(header_value_item(), s) is Incomplete,
        ends_value(f),
    ensures
        spec_many1(header_value_item(), s + t + f).leaves(f),
{
    let item = header_value_item();
    if item(s) is Incomplete {
        let t = lemma_message_header_value_completes(s, f);
        assert(spec_many0(item, f) == (Parse::Done { rest: f, value: Seq::<Seq<u8>>::empty() }));
        t
    } else {
        let t = lemma_lines_complete(item(s)->rest, f);
        lemma_message_header_value_persists(s, t + f);
        lemma_assoc(s, t, f);
        lemma_assoc(item(s)->rest, t, f);
        t
    }
}

/// A header with one line of value: `: x` and a line feed after the name.
spec fn some_header(name: Seq<u8>) -> HeaderText {
    HeaderText {
        name,
        lines: seq![ValueLine { indent: seq![SP], value: some_value(), end: seq![LF] }],
    }
}

/// The bytes of the header that [`some_header`] gives.
proof fn lemma_some_header(name: Seq<u8>)
    requires
        ByteClass::Token.word(name),
    ensures
        some_header(name).wf(),
        some_header(name).bytes() == name + seq![COLON] + seq![SP] + some_value() + seq![LF],
{
    let header = some_header(name);
    let line = header.lines[0];
    assert(header.lines.drop_first() =~= Seq::<ValueLine>::empty());
    assert(lines_bytes(Seq::<ValueLine>::empty()) == Seq::<u8>::empty());
    assert(lines_bytes(header.lines) == line.bytes() + Seq::<u8>::empty());
    lemma_nothing(line.bytes());
    lemma_after3(name + seq![COLON], seq![SP], some_value(), seq![LF]);
}

/// A header that is `Incomplete` can be completed: there are bytes `t` such
/// that the buffer, followed by `t` and by any bytes `f` that end the
/// header's value, is accepted with `f` left.
pub proof fn lemma_message_header_completes(s: Seq<u8>, f: Seq<u8>) -> (t: Seq<u8>)
    requires
        spec_message_header(s) is Incomplete,
        ends_value(f),
    ensures
        spec_message_header(s + t + f).leaves(f),
{
    let name = spec_take_while1(s, ByteClass::Token);
    lemma_take_while1_sound(s, ByteClass::Token);
    if name is Incomplete {
        let t0 = lemma_take_while1_completes(s, ByteClass::Token, seq![COLON]);
        lemma_some_header(s + t0);
        lemma_message_header_accepts(some_header(s + t0), f);
        lemma_after5(s, t0, seq![COLON], seq![SP], some_value(), seq![LF]);
        t0 + seq![COLON] + seq![SP] + some_value() + seq![LF]
    } else {
        let colon = spec_tag(name->rest, seq![COLON]);
        lemma_tag_sound(name->rest, seq![COLON]);
        let t = lemma_header_lines_complete(colon->rest, f);
        lemma_take_while1_persists(s, t + f, ByteClass::Token);
        lemma_tag_persists(name->rest, t + f, seq![COLON]);
        lemma_assoc(s, t, f);
        lemma_assoc(colon->rest, t, f);
        t
    }
}

/// Where the headers end, their repetition accepts nothing more.
proof fn lemma_headers_stop(f: Seq<u8>)
    requires
        ends_headers(f),
    ensures
        ends_value(f),
        spec_message_header(f) is Error,
        spec_many0(header_item(), f) == (Parse::Done {
            rest: f,
            value: Seq::<HeaderField>::empty(),
        }),
{
    lemma_unindented_ends_value(f);
    lemma_take_while1_sound(f, ByteClass::Token);
}

/// A repetition of headers that is `Incomplete` can be completed: there are
/// bytes `t` such that the buffer, followed by `t` and by any bytes `f` that
/// end the headers, is accepted with `f` left.
pub proof fn lemma_headers_complete(s: Seq<u8>, f: Seq<u8>) -> (t: Seq<u8>)
    requires
        spec_many0(header_item(), s) is Incomplete,
        ends_headers(f),
    ensures
        spec_many0(header_item(), s + t + f).leaves(f),
    decreases s.len(),
{
    let item = header_item();
    lemma_headers_stop(f);
    if item(s) is Incomplete {
        let t = lemma_message_header_completes(s, f);
        assert((s + t + f).len() > f.len());
        t
    } else {
        lemma_message_header_sound(s);
        let t = lemma_headers_complete(item(s)->rest, f);
        lemma_message_header_persists(s, t + f);
        lemma_assoc(s, t, f);
        lemma_assoc(item(s)->rest, t, f);
        t
    }
}

/// One or more headers that are `Incomplete` can be completed.
pub proof fn lemma_request_headers_complete(s: Seq<u8>, f: Seq<u8>) -> (t: Seq<u8>)
    requires
        spec_many1(header_item(), s) is Incomplete,
        ends_headers(f),
    ensures
        spec_many1(header_item(), s + t + f).leaves(f),
{
    let item = header_item();
    lemma_headers_stop(f);
    if item(s) is Incomplete {
        lemma_message_header_completes(s, f)
    } else {
        lemma_message_header_sound(s);
        let t = lemma_headers_complete(item(s)->rest, f);
        lemma_message_header_persists(s, t + f);
        lemma_assoc(s, t, f);
        lemma_assoc(item(s)->rest, t, f);
        t
    }
}

/// A repetition of value lines that accepted its buffer up to the last byte
/// accepts the same when bytes are appended that are no further line.
proof fn lemma_lines_resume(s: Seq<u8>, t: Seq<u8>)
    requires
        spec_many0(header_value_item(), s).leaves_nothing(),
        t.len() > 0,
        ends_value(t),
    ensures
        spec_many0(header_value_item(), s + t) == (Parse::Done {
            rest: t,
            value: spec_many0(header_value_item(), s)->value,
        }),
    decreases s.len(),
{
    let item = header_value_item();
    if s.len() == 0 {
        lemma_after_nothing(s, t);
    } else {
        let written = lemma_message_header_value_sound(s);
        lemma_message_header_value_persists(s, t);
        lemma_lines_resume(item(s)->rest, t);
    }
}

/// A header that reached the last byte of its buffer is accepted as the same
/// header when bytes are appended that are no further line of its value.
pub proof fn lemma_message_header_resumes(s: Seq<u8>, t: Seq<u8>)
    requires
        spec_message_header(s).leaves_nothing(),
        t.len() > 0,
        ends_value(t),
    ensures
        spec_message_header(s + t) == (Parse::Done {
            rest: t,
            value: spec_message_header(s)->value,
        }),
{
    let item = header_value_item();
    let name = spec_take_while1(s, ByteClass::Token);
    lemma_take_while1_persists(s, t, ByteClass::Token);
    let colon = spec_tag(name->rest, seq![COLON]);
    lemma_tag_persists(name->rest, t, seq![COLON]);
    let first = item(colon->rest);
    lemma_message_header_value_persists(colon->rest, t);
    lemma_lines_resume(first->rest, t);
}

/// A repetition of headers that accepted its buffer up to the last byte
/// accepts the same when bytes are appended that end the headers.
proof fn lemma_headers_resume(s: Seq<u8>, t: Seq<u8>)
    requires
        spec_many0(header_item(), s).leaves_nothing(),
        ends_headers(t),
    ensures
        spec_many0(header_item(), s + t) == (Parse::Done {
            rest: t,
            value: spec_many0(header_item(), s)->value,
        }),
    decreases s.len(),
{
    let item = header_item();
    lemma_headers_stop(t);
    if s.len() == 0 {
        lemma_after_nothing(s, t);
    } else {
        lemma_message_header_sound(s);
        let rest = item(s)->rest;
        if rest.len() == 0 {
            lemma_message_header_resumes(s, t);
            lemma_after_nothing(rest, t);
        } else {
            lemma_message_header_persists(s, t);
            lemma_headers_resume(rest, t);
        }
    }
}

/// The headers of a request that were accepted are accepted as the same
/// headers when bytes are appended that end the headers, wherever the
/// headers stopped.
proof fn lemma_request_headers_stay(s: Seq<u8>, t: Seq<u8>)
    requires
        spec_many1(header_item(), s) is Done,
        ends_headers(spec_many1(header_item(), s)->rest + t),
    ensures
        spec_many1(header_item(), s + t) == (Parse::Done {
            rest: spec_many1(header_item(), s)->rest + t,
            value: spec_many1(header_item(), s)->value,
        }),
{
    let item = header_item();
    let found = spec_many1(item, s);
    if found->rest.len() > 0 {
        lemma_header_item();
        lemma_many1_persists(item, s, t);
    } else {
        lemma_after_nothing(found->rest, t);
        lemma_headers_stop(t);
        lemma_message_header_sound(s);
        let rest = item(s)->rest;
        if rest.len() == 0 {
            lemma_message_header_resumes(s, t);
            lemma_after_nothing(rest, t);
        } else {
            lemma_message_header_persists(s, t);
            lemma_headers_resume(rest, t);
        }
    }
}

/// A request that is `Incomplete` can be completed: there are bytes `t`
/// such that the buffer, followed by `t` and by any bytes `f`, is accepted
/// with `f` left.
pub proof fn lemma_request_completes(s: Seq<u8>, f: Seq<u8>) -> (t: Seq<u8>)
    requires
        spec_request(s) is Incomplete,
    ensures
        spec_request(s + t + f).leaves(f),
{
    let item = header_item();
    let blank = seq![LF];
    let end = blank + f;
    lemma_line_ending_ends_headers(blank, f);
    lemma_headers_stop(end);
    lemma_line_ending_accepts(blank, f);
    let line = spec_request_line(s);
    if line is Incomplete {
        let header = some_header(seq![0x41u8]);
        lemma_some_header(seq![0x41u8]);
        lemma_message_header_accepts(header, end);
        let t1 = lemma_request_line_completes(s, header.bytes() + end);
        lemma_assoc(header.bytes(), blank, f);
        lemma_assoc(s + t1, header.bytes() + blank, f);
        lemma_assoc(s + t1, header.bytes(), blank);
        lemma_after3(s, t1, header.bytes(), blank);
        t1 + header.bytes() + blank
    } else {
        let found = spec_many1(item, line->rest);
        if found is Incomplete {
            let t2 = lemma_request_headers_complete(line->rest, end);
            lemma_request_line_persists(s, t2 + end);
            lemma_assoc(line->rest, t2, end);
            lemma_assoc(s, t2, end);
            lemma_assoc(s + t2, blank, f);
            lemma_assoc(s, t2, blank);
            t2 + blank
        } else {
            lemma_line_ending_completes(found->rest, f);
            lemma_assoc(found->rest, blank, f);
            assert(ends_headers(found->rest + end)) by {
                lemma_line_ending_sound(found->rest);
                assert((found->rest + end)[0] == (found->rest + blank)[0]);
            }
            lemma_request_headers_stay(line->rest, end);
            lemma_request_line_persists(s, end);
            lemma_assoc(s, blank, f);
            blank
        }
    }
}

/// Whether `s`, as it is or after some bytes that may still arrive, begins
/// with a well-formed request line.
pub open spec fn may_become_request_line(s: Seq<u8>) -> bool {
    exists|t: Seq<u8>| begins_with_request_line(#[trigger] (s + t))
}

/// Whether `s`, as it is or after some bytes that may still arrive, begins
/// with a well-formed header.
pub open spec fn may_become_header(s: Seq<u8>) -> bool {
    exists|t: Seq<u8>| begins_with_header(#[trigger] (s + t))
}

/// Whether `s`, as it is or after some bytes that may still arrive, begins
/// with a well-formed request.
pub open spec fn may_become_request(s: Seq<u8>) -> bool {
    exists|t: Seq<u8>| begins_with_request(#[trigger] (s + t))
}

/// What each verdict on a request line means: `Done`, that the buffer
/// begins with a well-formed request line; `Error`, that it never will,
/// whatever bytes arrive; `Incomplete`, that it does not yet but still may.
pub proof fn lemma_request_line_verdict(s: Seq<u8>)
    ensures
        spec_request_line(s) is Done <==> begins_with_request_line(s),
        spec_request_line(s) is Error <==> !may_become_request_line(s),
        spec_request_line(s) is Incomplete <==> !begins_with_request_line(s)
            && may_become_request_line(s),
{
    let nothing = Seq::<u8>::empty();
    lemma_request_line_done(s);
    match spec_request_line(s) {
        Parse::Done { rest, value } => {
            lemma_nothing(s);
            assert(begins_with_request_line(s + nothing));
        },
        Parse::Error => {
            assert forall|t: Seq<u8>| !begins_with_request_line(#[trigger] (s + t)) by {
                lemma_request_line_persists(s, t);
                lemma_request_line_done(s + t);
            }
        },
        Parse::Incomplete => {
            let t = lemma_request_line_completes(s, nothing);
            lemma_nothing(s + t);
            lemma_request_line_done(s + t);
        },
    }
}

/// What each verdict on a header means: `Done`, that the buffer begins with
/// a well-formed header; `Error`, that it never will, whatever bytes arrive;
/// `Incomplete`, that it does not yet but still may.
pub proof fn lemma_message_header_verdict(s: Seq<u8>)
    ensures
        spec_message_header(s) is Done <==> begins_with_header(s),
        spec_message_header(s) is Error <==> !may_become_header(s),
        spec_message_header(s) is Incomplete <==> !begins_with_header(s) && may_become_header(s),
{
    let nothing = Seq::<u8>::empty();
    lemma_message_header_done(s);
    match spec_message_header(s) {
        Parse::Done { rest, value } => {
            lemma_nothing(s);
            assert(begins_with_header(s + nothing));
        },
        Parse::Error => {
            assert forall|t: Seq<u8>| !begins_with_header(#[trigger] (s + t)) by {
                lemma_message_header_persists(s, t);
                lemma_message_header_done(s + t);
            }
        },
        Parse::Incomplete => {
            let t = lemma_message_header_completes(s, nothing);
            lemma_nothing(s + t);
            lemma_message_header_done(s + t);
        },
    }
}

/// What each verdict on a request means: `Done`, that the buffer begins
/// with a well-formed request; `Error`, that it never will, whatever bytes
/// arrive; `Incomplete`, that it does not yet but still may.
pub proof fn lemma_request_verdict(s: Seq<u8>)
    ensures
        spec_request(s) is Done <==> begins_with_request(s),
        spec_request(s) is Error <==> !may_become_request(s),
        spec_request(s) is Incomplete <==> !begins_with_request(s) && may_become_request(s),
{
    let nothing = Seq::<u8>::empty();
    lemma_request_done(s);
    match spec_request(s) {
        Parse::Done { rest, value } => {
            lemma_nothing(s);
            assert(begins_with_request(s + nothing));
        },
        Parse::Error => {
            assert forall|t: Seq<u8>| !begins_with_request(#[trigger] (s + t)) by {
                lemma_request_persists(s, t);
                lemma_request_done(s + t);
            }
        },
        Parse::Incomplete => {
            let t = lemma_request_completes(s, nothing);
            lemma_nothing(s + t);
            lemma_request_done(s + t);
        },
    }
}

} // verus!
