use rusttp::outcome::Outcome;
use rusttp::request::{
    http_version, message_header, message_header_value, request, request_line, Header, Request,
};

const FULL: &[u8] = b"GET /hello.htm HTTP/1.1\r\n\
User-Agent: Mozilla/4.0 (compatible; MSIE5.01; Windows NT)\r\n\
Host: www.tutorialspoint.com\r\n\
Accept-Language: en-us\r\n\
Accept-Encoding: gzip, deflate\r\n\
Connection: Keep-Alive\r\n\
\r\n";

#[test]
fn test_parse_method() {
    match request_line(b"GET /hello.htm HTTP/1.1\r\n") {
        Outcome::Done(_, request) => {
            assert_eq!(b"GET", request.method);
            assert_eq!(b"/hello.htm", request.uri);
            assert_eq!(b"1.1", request.version);
        }
        Outcome::Incomplete => panic!("Incomplete"),
        _ => panic!("Error while parsing request line"),
    }
}

#[test]
fn test_parse_headers() {
    match message_header(b"Host: www.tutorialspoint.com\r\n") {
        Outcome::Done(_, header) => {
            assert_eq!(b"Host", header.name);
            assert_eq!(b"www.tutorialspoint.com", header.value[0]);
        }
        Outcome::Incomplete => panic!("Incomplete"),
        _ => panic!("Error while parsing Header"),
    };
}

#[test]
fn test_parse_request() {
    let req = b"GET /hello.htm HTTP/1.1
User-Agent: Mozilla/4.0 (compatible; MSIE5.01; Windows NT)
Host: www.tutorialspoint.com
Accept-Language: en-us
Accept-Encoding: gzip, deflate
Connection: Keep-Alive\r\n\r\n";

    match request(req) {
        Outcome::Done(_, (request, headers)) => {
            assert_eq!(b"GET", request.method);
            assert_eq!(b"/hello.htm", request.uri);
            assert_eq!(b"1.1", request.version);

            let header = &headers[0];
            assert_eq!(header.name, b"User-Agent");
            assert_eq!(
                "Mozilla/4.0 (compatible; MSIE5.01; Windows NT)".as_bytes(),
                header.value[0]
            );
        }
        Outcome::Incomplete => panic!("Incomplete"),
        _ => panic!("Error while parsing request line"),
    }
}

#[test]
fn request_line_gives_the_three_parts_and_an_empty_rest() {
    assert_eq!(
        request_line(b"GET /hello.htm HTTP/1.1\r\n"),
        Outcome::Done(
            b"".as_slice(),
            Request { method: b"GET", uri: b"/hello.htm", version: b"1.1" }
        )
    );
}

#[test]
fn request_line_parts_equal_what_was_written() {
    let methods: [&[u8]; 4] = [b"GET", b"POST", b"M-SEARCH", b"x"];
    let uris: [&[u8]; 4] = [b"/", b"*", b"http://a.example/b?c=d#e", b"/a\tb"];
    let versions: [&[u8]; 4] = [b"1.1", b"1.0", b"2", b"..9"];
    for method in methods {
        for uri in uris {
            for version in versions {
                let mut buffer = Vec::new();
                buffer.extend_from_slice(method);
                buffer.push(b' ');
                buffer.extend_from_slice(uri);
                buffer.push(b' ');
                buffer.extend_from_slice(b"HTTP/");
                buffer.extend_from_slice(version);
                buffer.extend_from_slice(b"\r\n");
                assert_eq!(
                    request_line(&buffer),
                    Outcome::Done(b"".as_slice(), Request { method, uri, version })
                );
            }
        }
    }
}

#[test]
fn request_line_parts_lie_inside_the_buffer() {
    let buffer = b"GET /hello.htm HTTP/1.1\r\nrest".to_vec();
    let range = buffer.as_ptr_range();
    match request_line(&buffer) {
        Outcome::Done(rest, line) => {
            for part in [line.method, line.uri, line.version, rest] {
                let inner = part.as_ptr_range();
                assert!(range.start <= inner.start && inner.end <= range.end);
            }
            assert_eq!(line.method.as_ptr(), buffer[0..].as_ptr());
            assert_eq!(line.uri.as_ptr(), buffer[4..].as_ptr());
            assert_eq!(line.version.as_ptr(), buffer[20..].as_ptr());
            assert_eq!(rest.as_ptr(), buffer[25..].as_ptr());
        }
        other => panic!("{:?}", other),
    }
}

#[test]
fn request_line_accepts_several_spaces_and_bare_line_feed() {
    assert_eq!(
        request_line(b"GET   /a    HTTP/1.0\nnext"),
        Outcome::Done(b"next".as_slice(), Request { method: b"GET", uri: b"/a", version: b"1.0" })
    );
}

#[test]
fn request_line_target_may_hold_any_byte_but_space() {
    assert_eq!(
        request_line(b"GET /a\r\nb HTTP/1.1\r\n"),
        Outcome::Done(
            b"".as_slice(),
            Request { method: b"GET", uri: b"/a\r\nb", version: b"1.1" }
        )
    );
}

#[test]
fn request_line_twice_gives_the_same_outcome() {
    for buffer in [
        b"GET /hello.htm HTTP/1.1\r\n".as_slice(),
        b"GE",
        b"GET /hello.htm FTP/1.1\r\n",
        b"",
    ] {
        assert_eq!(request_line(buffer), request_line(buffer));
        assert_eq!(request_line(buffer), request_line(&buffer.to_vec()));
    }
}

#[test]
fn request_twice_gives_the_same_outcome() {
    for buffer in [FULL, &FULL[..40], b"GET / HTTP/1.1\r\n\r\n", b""] {
        assert_eq!(request(buffer), request(buffer));
        assert_eq!(request(buffer), request(&buffer.to_vec()));
    }
}

#[test]
fn message_header_twice_gives_the_same_outcome() {
    for buffer in [b"Host: a\r\n".as_slice(), b"Host", b"BadHeader\r\n"] {
        assert_eq!(message_header(buffer), message_header(buffer));
    }
}

#[test]
fn truncated_method_is_incomplete() {
    assert_eq!(request_line(b"GE"), Outcome::Incomplete);
    assert_eq!(request_line(b"G"), Outcome::Incomplete);
    assert_eq!(request_line(b"GET"), Outcome::Incomplete);
    assert_eq!(request(b"GE"), Outcome::Incomplete);
}

#[test]
fn empty_buffer_is_incomplete() {
    assert_eq!(request_line(b""), Outcome::Incomplete);
    assert_eq!(message_header(b""), Outcome::Incomplete);
    assert_eq!(message_header_value(b""), Outcome::Incomplete);
    assert_eq!(http_version(b""), Outcome::Incomplete);
    assert_eq!(request(b""), Outcome::Incomplete);
}

#[test]
fn request_line_cut_anywhere_is_incomplete() {
    let whole = b"GET /hello.htm HTTP/1.1\r\n";
    for k in 0..whole.len() {
        assert_eq!(request_line(&whole[..k]), Outcome::Incomplete, "cut at {}", k);
    }
}

#[test]
fn request_line_errors() {
    assert_eq!(request_line(b" GET / HTTP/1.1\r\n"), Outcome::Error);
    assert_eq!(request_line(b"G^T / HTTP/1.1\r\n"), Outcome::Error);
    assert_eq!(request_line(b"GET\t/ HTTP/1.1\r\n"), Outcome::Error);
    assert_eq!(request_line(b"GET / http/1.1\r\n"), Outcome::Error);
    assert_eq!(request_line(b"GET / HTTP/\r\n"), Outcome::Error);
    assert_eq!(request_line(b"GET / HTTP/1.1 \r\n"), Outcome::Error);
    assert_eq!(request_line(b"GET / HTTP/1.1\rX"), Outcome::Error);
    assert_eq!(request_line(b"GET / \r\n"), Outcome::Error);
    assert_eq!(request_line(b"\r\n"), Outcome::Error);
}

#[test]
fn request_line_without_target_takes_the_version_for_the_target() {
    assert_eq!(request_line(b"GET HTTP/1.1\r\n"), Outcome::Incomplete);
    assert_eq!(request_line(b"GET HTTP/1.1\r\n x"), Outcome::Error);
    assert_eq!(
        request_line(b"GET HTTP/1.1\r\n HTTP/1.0\n"),
        Outcome::Done(
            b"".as_slice(),
            Request { method: b"GET", uri: b"HTTP/1.1\r\n", version: b"1.0" }
        )
    );
}

#[test]
fn http_version_gives_the_number() {
    assert_eq!(http_version(b"HTTP/1.1\r\n"), Outcome::Done(b"\r\n".as_slice(), b"1.1".as_slice()));
    assert_eq!(http_version(b"HTTP/10.25 x"), Outcome::Done(b" x".as_slice(), b"10.25".as_slice()));
}

#[test]
fn http_version_cut_in_prefix_or_number_is_incomplete() {
    assert_eq!(http_version(b"H"), Outcome::Incomplete);
    assert_eq!(http_version(b"HTTP"), Outcome::Incomplete);
    assert_eq!(http_version(b"HTTP/"), Outcome::Incomplete);
    assert_eq!(http_version(b"HTTP/1"), Outcome::Incomplete);
    assert_eq!(http_version(b"HTTP/1.1"), Outcome::Incomplete);
}

#[test]
fn http_version_errors() {
    assert_eq!(http_version(b"HTTX/1.1\r\n"), Outcome::Error);
    assert_eq!(http_version(b"HX"), Outcome::Error);
    assert_eq!(http_version(b"HTTP/x"), Outcome::Error);
    assert_eq!(http_version(b"HTTP/\r\n"), Outcome::Error);
}

#[test]
fn header_gives_name_and_single_value() {
    assert_eq!(
        message_header(b"Host: www.tutorialspoint.com\r\n"),
        Outcome::Done(
            b"".as_slice(),
            Header { name: b"Host", value: vec![b"www.tutorialspoint.com".as_slice()] }
        )
    );
}

#[test]
fn header_without_colon_is_an_error() {
    assert_eq!(message_header(b"BadHeader\r\n"), Outcome::Error);
    assert_eq!(message_header(b"BadHeader\n"), Outcome::Error);
    assert_eq!(message_header(b"Bad Header: x\r\n"), Outcome::Error);
    assert_eq!(message_header(b"Bad\r\nHost: x\r\n"), Outcome::Error);
}

#[test]
fn header_with_empty_name_is_an_error() {
    assert_eq!(message_header(b": value\r\n"), Outcome::Error);
    assert_eq!(message_header(b" Host: value\r\n"), Outcome::Error);
    assert_eq!(message_header(b"\r\n"), Outcome::Error);
}

#[test]
fn header_value_needs_horizontal_space_before_it() {
    assert_eq!(message_header(b"Host:value\r\n"), Outcome::Error);
    assert_eq!(message_header(b"Host:\r\n"), Outcome::Error);
}

#[test]
fn header_with_empty_value_is_an_error() {
    assert_eq!(message_header(b"Host: \r\n"), Outcome::Error);
    assert_eq!(message_header(b"Host:  \n"), Outcome::Error);
}

#[test]
fn header_cut_anywhere_before_its_end_is_incomplete() {
    let whole = b"Host: www.tutorialspoint.com\r\n";
    for k in 0..whole.len() {
        assert_eq!(message_header(&whole[..k]), Outcome::Incomplete, "cut at {}", k);
    }
}

#[test]
fn folded_header_has_one_value_per_line() {
    assert_eq!(
        message_header(b"X: a\r\n b\r\n"),
        Outcome::Done(
            b"".as_slice(),
            Header { name: b"X", value: vec![b"a".as_slice(), b"b".as_slice()] }
        )
    );
}

#[test]
fn folded_header_with_tabs_and_three_lines() {
    assert_eq!(
        message_header(b"Subject:\tone\n\t two words \r\n   three\nNext: x\r\n"),
        Outcome::Done(
            b"Next: x\r\n".as_slice(),
            Header {
                name: b"Subject",
                value: vec![b"one".as_slice(), b"two words ".as_slice(), b"three".as_slice()]
            }
        )
    );
}

#[test]
fn header_value_keeps_inner_and_trailing_space() {
    assert_eq!(
        message_header(b"X:   a  b \t\r\n"),
        Outcome::Done(b"".as_slice(), Header { name: b"X", value: vec![b"a  b \t".as_slice()] })
    );
}

#[test]
fn header_ends_before_what_is_no_value_line() {
    assert_eq!(
        message_header(b"X: a\r\n\r\nbody"),
        Outcome::Done(b"\r\nbody".as_slice(), Header { name: b"X", value: vec![b"a".as_slice()] })
    );
    assert_eq!(
        message_header(b"X: a\r\n \r\n"),
        Outcome::Done(b" \r\n".as_slice(), Header { name: b"X", value: vec![b"a".as_slice()] })
    );
}

#[test]
fn header_with_unfinished_further_line_is_incomplete() {
    assert_eq!(message_header(b"X: a\r\n "), Outcome::Incomplete);
    assert_eq!(message_header(b"X: a\r\n b"), Outcome::Incomplete);
    assert_eq!(message_header(b"X: a\r\n b\r"), Outcome::Incomplete);
}

#[test]
fn header_value_line() {
    assert_eq!(
        message_header_value(b" value\r\nrest"),
        Outcome::Done(b"rest".as_slice(), b"value".as_slice())
    );
    assert_eq!(
        message_header_value(b"\t \tvalue\n"),
        Outcome::Done(b"".as_slice(), b"value".as_slice())
    );
    assert_eq!(message_header_value(b"value\r\n"), Outcome::Error);
    assert_eq!(message_header_value(b" \r\n"), Outcome::Error);
    assert_eq!(message_header_value(b" value\rx"), Outcome::Error);
    assert_eq!(message_header_value(b" value"), Outcome::Incomplete);
    assert_eq!(message_header_value(b" value\r"), Outcome::Incomplete);
    assert_eq!(message_header_value(b" "), Outcome::Incomplete);
}

#[test]
fn full_request_gives_five_headers_in_order() {
    let expected = (
        Request { method: b"GET", uri: b"/hello.htm", version: b"1.1" },
        vec![
            Header {
                name: b"User-Agent",
                value: vec![b"Mozilla/4.0 (compatible; MSIE5.01; Windows NT)".as_slice()],
            },
            Header { name: b"Host", value: vec![b"www.tutorialspoint.com".as_slice()] },
            Header { name: b"Accept-Language", value: vec![b"en-us".as_slice()] },
            Header { name: b"Accept-Encoding", value: vec![b"gzip, deflate".as_slice()] },
            Header { name: b"Connection", value: vec![b"Keep-Alive".as_slice()] },
        ],
    );
    assert_eq!(request(FULL), Outcome::Done(b"".as_slice(), expected));
}

#[test]
fn request_without_headers_is_an_error() {
    assert_eq!(request(b"GET /hello.htm HTTP/1.1\r\n\r\n"), Outcome::Error);
    assert_eq!(request(b"GET /hello.htm HTTP/1.1\n\n"), Outcome::Error);
    assert_eq!(request(b"GET /hello.htm HTTP/1.1\r\n\r\nbody"), Outcome::Error);
}

#[test]
fn request_hands_back_what_follows_the_empty_line() {
    let buffer = b"POST /f HTTP/1.1\r\nContent-Length: 5\r\n\r\nhello";
    match request(buffer) {
        Outcome::Done(rest, (line, headers)) => {
            assert_eq!(rest, b"hello");
            assert_eq!(buffer.len() - rest.len(), 39);
            assert_eq!(line.method, b"POST");
            assert_eq!(headers.len(), 1);
            assert_eq!(headers[0].name, b"Content-Length");
            assert_eq!(headers[0].value, vec![b"5".as_slice()]);
        }
        other => panic!("{:?}", other),
    }
}

#[test]
fn pipelined_requests_are_parsed_one_after_the_other() {
    let buffer = b"GET /a HTTP/1.1\r\nHost: x\r\n\r\nGET /b HTTP/1.0\nHost: y\n\n";
    let rest = match request(buffer) {
        Outcome::Done(rest, (line, headers)) => {
            assert_eq!(line.uri, b"/a");
            assert_eq!(headers[0].value[0], b"x");
            rest
        }
        other => panic!("{:?}", other),
    };
    match request(rest) {
        Outcome::Done(rest, (line, headers)) => {
            assert_eq!(line.uri, b"/b");
            assert_eq!(line.version, b"1.0");
            assert_eq!(headers[0].value[0], b"y");
            assert!(rest.is_empty());
        }
        other => panic!("{:?}", other),
    }
}

#[test]
fn request_with_folded_header() {
    let buffer = b"GET / HTTP/1.1\r\nX: a\r\n b\r\nY: c\r\n\r\n";
    let expected = (
        Request { method: b"GET", uri: b"/", version: b"1.1" },
        vec![
            Header { name: b"X", value: vec![b"a".as_slice(), b"b".as_slice()] },
            Header { name: b"Y", value: vec![b"c".as_slice()] },
        ],
    );
    assert_eq!(request(buffer), Outcome::Done(b"".as_slice(), expected));
}

#[test]
fn request_errors() {
    assert_eq!(request(b"GET / HTTP/1.1\r\nBadHeader\r\n\r\n"), Outcome::Error);
    assert_eq!(request(b"GET / HTTP/1.1\r\nHost: a\r\nBadHeader\r\n\r\n"), Outcome::Error);
    assert_eq!(request(b"GET / HTTP/1.1\r\nHost: a\r\n \r\n\r\n"), Outcome::Error);
    assert_eq!(request(b"GET / HTTP/1.1\r\nHost: a\r\nx"), Outcome::Incomplete);
    assert_eq!(request(b"GET / HTTP/1.1\r\nHost: a\r\n\rx"), Outcome::Error);
    assert_eq!(request(b"bad\r\n"), Outcome::Error);
}
