use rusttp::bytes::ByteClass;
use rusttp::outcome::Outcome;
use rusttp::primitive::{line_ending, tag, take_while1};

fn done<'a>(rest: &'a [u8], value: &'a [u8]) -> Outcome<'a, &'a [u8]> {
    Outcome::Done(rest, value)
}

#[test]
fn run_ends_at_first_byte_outside_the_class() {
    assert_eq!(take_while1(b"GET /", ByteClass::Token), done(b" /", b"GET"));
    assert_eq!(take_while1(b"  x", ByteClass::Space), done(b"x", b"  "));
    assert_eq!(take_while1(b"/a b", ByteClass::NotSpace), done(b" b", b"/a"));
    assert_eq!(take_while1(b" \t v", ByteClass::HorizontalSpace), done(b"v", b" \t "));
    assert_eq!(take_while1(b"1.10\r\n", ByteClass::Version), done(b"\r\n", b"1.10"));
    assert_eq!(take_while1(b"a b\tc\n", ByteClass::NotLineEnding), done(b"\n", b"a b\tc"));
}

#[test]
fn run_of_one_byte() {
    assert_eq!(take_while1(b"G ", ByteClass::Token), done(b" ", b"G"));
}

#[test]
fn run_that_cannot_start_is_an_error() {
    assert_eq!(take_while1(b" GET", ByteClass::Token), Outcome::Error);
    assert_eq!(take_while1(b"x ", ByteClass::Space), Outcome::Error);
    assert_eq!(take_while1(b" /", ByteClass::NotSpace), Outcome::Error);
    assert_eq!(take_while1(b"\r\n", ByteClass::NotLineEnding), Outcome::Error);
    assert_eq!(take_while1(b"x1", ByteClass::Version), Outcome::Error);
}

#[test]
fn run_on_empty_buffer_is_incomplete() {
    assert_eq!(take_while1(b"", ByteClass::Token), Outcome::Incomplete);
    assert_eq!(take_while1(b"", ByteClass::NotSpace), Outcome::Incomplete);
}

#[test]
fn run_that_reaches_the_end_is_incomplete() {
    assert_eq!(take_while1(b"GET", ByteClass::Token), Outcome::Incomplete);
    assert_eq!(take_while1(b"   ", ByteClass::Space), Outcome::Incomplete);
    assert_eq!(take_while1(b"1.1", ByteClass::Version), Outcome::Incomplete);
}

#[test]
fn tag_matches_whole_pattern() {
    assert_eq!(tag(b"HTTP/1.1", b"HTTP/"), done(b"1.1", b"HTTP/"));
    assert_eq!(tag(b"HTTP/", b"HTTP/"), done(b"", b"HTTP/"));
    assert_eq!(tag(b":x", b":"), done(b"x", b":"));
}

#[test]
fn tag_of_empty_pattern_consumes_nothing() {
    assert_eq!(tag(b"abc", b""), done(b"abc", b""));
    assert_eq!(tag(b"", b""), done(b"", b""));
}

#[test]
fn tag_mismatch_is_an_error() {
    assert_eq!(tag(b"HTTQ/1.1", b"HTTP/"), Outcome::Error);
    assert_eq!(tag(b"http/1.1", b"HTTP/"), Outcome::Error);
    assert_eq!(tag(b"HTTP-1.1", b"HTTP/"), Outcome::Error);
}

#[test]
fn tag_mismatch_in_short_buffer_is_an_error() {
    assert_eq!(tag(b"HX", b"HTTP/"), Outcome::Error);
    assert_eq!(tag(b"X", b"HTTP/"), Outcome::Error);
}

#[test]
fn tag_proper_prefix_is_incomplete() {
    assert_eq!(tag(b"", b"HTTP/"), Outcome::Incomplete);
    assert_eq!(tag(b"H", b"HTTP/"), Outcome::Incomplete);
    assert_eq!(tag(b"HTTP", b"HTTP/"), Outcome::Incomplete);
}

#[test]
fn line_ending_accepts_lf() {
    assert_eq!(line_ending(b"\n"), done(b"", b"\n"));
    assert_eq!(line_ending(b"\nrest"), done(b"rest", b"\n"));
}

#[test]
fn line_ending_accepts_crlf() {
    assert_eq!(line_ending(b"\r\n"), done(b"", b"\r\n"));
    assert_eq!(line_ending(b"\r\nrest"), done(b"rest", b"\r\n"));
}

#[test]
fn line_ending_consumes_one_ending_only() {
    assert_eq!(line_ending(b"\n\n"), done(b"\n", b"\n"));
    assert_eq!(line_ending(b"\r\n\r\n"), done(b"\r\n", b"\r\n"));
    assert_eq!(line_ending(b"\n\r"), done(b"\r", b"\n"));
}

#[test]
fn line_ending_on_empty_buffer_is_incomplete() {
    assert_eq!(line_ending(b""), Outcome::Incomplete);
}

#[test]
fn line_ending_lone_cr_at_end_is_incomplete() {
    assert_eq!(line_ending(b"\r"), Outcome::Incomplete);
}

#[test]
fn line_ending_cr_without_lf_is_an_error() {
    assert_eq!(line_ending(b"\rx"), Outcome::Error);
    assert_eq!(line_ending(b"\r\r\n"), Outcome::Error);
}

#[test]
fn line_ending_other_byte_is_an_error() {
    assert_eq!(line_ending(b"x"), Outcome::Error);
    assert_eq!(line_ending(b" \r\n"), Outcome::Error);
}
