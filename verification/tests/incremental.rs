use rusttp::outcome::Outcome;
use rusttp::request::{message_header, request, request_line};

const FULL: &[u8] = b"GET /hello.htm HTTP/1.1\r\n\
User-Agent: Mozilla/4.0 (compatible; MSIE5.01; Windows NT)\r\n\
Host: www.tutorialspoint.com\r\n\
Accept-Language: en-us\r\n\
Accept-Encoding: gzip, deflate\r\n\
Connection: Keep-Alive\r\n\
\r\n";

#[test]
fn request_cut_anywhere_is_incomplete() {
    for k in 0..FULL.len() {
        assert_eq!(request(&FULL[..k]), Outcome::Incomplete, "cut at {}", k);
    }
    assert!(matches!(request(FULL), Outcome::Done(_, _)));
}

#[test]
fn request_split_inside_a_line_ending_succeeds_in_the_end() {
    let whole = b"GET / HTTP/1.1\r\nHost: a\r\n\r\n";
    for cut in [15, 24, 26] {
        assert_eq!(whole[cut - 1], b'\r');
        let mut buffer = whole[..cut].to_vec();
        assert_eq!(request(&buffer), Outcome::Incomplete);
        buffer.extend_from_slice(&whole[cut..]);
        match request(&buffer) {
            Outcome::Done(rest, (line, headers)) => {
                assert!(rest.is_empty());
                assert_eq!(line.method, b"GET");
                assert_eq!(headers.len(), 1);
            }
            other => panic!("{:?}", other),
        }
    }
}

#[test]
fn request_fed_byte_by_byte() {
    let mut buffer = Vec::new();
    let mut done = 0;
    for byte in FULL {
        buffer.push(*byte);
        match request(&buffer) {
            Outcome::Incomplete => {}
            Outcome::Done(rest, (_, headers)) => {
                assert!(rest.is_empty());
                assert_eq!(headers.len(), 5);
                done += 1;
            }
            Outcome::Error => panic!("rejected after {} bytes", buffer.len()),
        }
    }
    assert_eq!(done, 1);
    assert_eq!(buffer.len(), FULL.len());
}

#[test]
fn accepted_request_stays_accepted_when_bytes_follow() {
    let first = request(FULL);
    for tail in [b"x".as_slice(), b"\r\n", b" ", b"GET / HTTP/1.1\r\n", b"\0\xff"] {
        let mut buffer = FULL.to_vec();
        buffer.extend_from_slice(tail);
        match (&first, request(&buffer)) {
            (Outcome::Done(_, before), Outcome::Done(rest, after)) => {
                assert_eq!(rest, tail);
                assert_eq!(before, &after);
            }
            other => panic!("{:?}", other),
        }
    }
}

#[test]
fn rejected_request_stays_rejected_when_bytes_follow() {
    for bad in [
        b"GET / HTTP/1.1\r\n\r\n".as_slice(),
        b" ",
        b"GET / HTTP/1.1\r\nBadHeader\r\n",
        b"GET / FTP",
        b"GET / HTTP/1.1\rx",
    ] {
        assert_eq!(request(bad), Outcome::Error);
        for tail in [b"x".as_slice(), b"\r\n\r\n", b": a\r\n\r\n"] {
            let mut buffer = bad.to_vec();
            buffer.extend_from_slice(tail);
            assert_eq!(request(&buffer), Outcome::Error);
        }
    }
}

#[test]
fn accepted_request_line_stays_accepted_when_bytes_follow() {
    let mut buffer = b"GET /hello.htm HTTP/1.1\r\n".to_vec();
    let parts = match request_line(&buffer) {
        Outcome::Done(rest, line) => {
            assert!(rest.is_empty());
            (line.method.to_vec(), line.uri.to_vec(), line.version.to_vec())
        }
        other => panic!("{:?}", other),
    };
    buffer.extend_from_slice(b"Host: a");
    match request_line(&buffer) {
        Outcome::Done(rest, line) => {
            assert_eq!(rest, b"Host: a");
            assert_eq!(line.method, parts.0);
            assert_eq!(line.uri, parts.1);
            assert_eq!(line.version, parts.2);
        }
        other => panic!("{:?}", other),
    }
}

#[test]
fn header_that_reaches_the_end_may_grow_by_a_line() {
    let mut buffer = b"X: a\r\n".to_vec();
    match message_header(&buffer) {
        Outcome::Done(rest, header) => {
            assert!(rest.is_empty());
            assert_eq!(header.value.len(), 1);
        }
        other => panic!("{:?}", other),
    }
    buffer.extend_from_slice(b" b\r\n");
    match message_header(&buffer) {
        Outcome::Done(rest, header) => {
            assert!(rest.is_empty());
            assert_eq!(header.value, vec![b"a".as_slice(), b"b".as_slice()]);
        }
        other => panic!("{:?}", other),
    }
}

#[test]
fn header_that_stops_short_of_the_end_stays_as_it_is() {
    let mut buffer = b"X: a\r\nY".to_vec();
    for tail in [b"".as_slice(), b": b\r\n", b"\r\n", b" "] {
        buffer.extend_from_slice(tail);
        match message_header(&buffer) {
            Outcome::Done(rest, header) => {
                assert_eq!(rest, &buffer[6..]);
                assert_eq!(header.name, b"X");
                assert_eq!(header.value, vec![b"a".as_slice()]);
            }
            other => panic!("{:?}", other),
        }
    }
}

#[test]
fn incomplete_request_line_can_be_completed() {
    let cases: [(&[u8], &[u8]); 9] = [
        (b"", b"A / HTTP/1\n"),
        (b"GE", b" / HTTP/1\n"),
        (b"GET ", b"/ HTTP/1\n"),
        (b"GET /x", b" HTTP/1\n"),
        (b"GET /x  ", b"HTTP/1\n"),
        (b"GET /x HT", b"TP/1\n"),
        (b"GET /x HTTP/", b"1\n"),
        (b"GET /x HTTP/1.", b"\n"),
        (b"GET /x HTTP/1.1\r", b"\n"),
    ];
    for (begun, more) in cases {
        assert_eq!(request_line(begun), Outcome::Incomplete);
        for follow in [b"".as_slice(), b"Host: a\r\n", b"\0"] {
            let mut buffer = begun.to_vec();
            buffer.extend_from_slice(more);
            buffer.extend_from_slice(follow);
            match request_line(&buffer) {
                Outcome::Done(rest, _) => assert_eq!(rest, follow),
                other => panic!("{:?}", other),
            }
        }
    }
}

#[test]
fn incomplete_header_can_be_completed() {
    let cases: [(&[u8], &[u8]); 7] = [
        (b"", b"A: x\n"),
        (b"Hos", b": x\n"),
        (b"Host:", b" x\n"),
        (b"Host: \t", b"x\n"),
        (b"Host: a b", b"\n"),
        (b"Host: a\r", b"\n"),
        (b"Host: a\r\n b\r", b"\n"),
    ];
    for (begun, more) in cases {
        assert_eq!(message_header(begun), Outcome::Incomplete);
        for follow in [b"".as_slice(), b"\r\n", b"Next: b\r\n"] {
            let mut buffer = begun.to_vec();
            buffer.extend_from_slice(more);
            buffer.extend_from_slice(follow);
            match message_header(&buffer) {
                Outcome::Done(rest, _) => assert_eq!(rest, follow),
                other => panic!("{:?}", other),
            }
        }
    }
}

#[test]
fn incomplete_request_can_be_completed() {
    let cases: [(&[u8], &[u8]); 8] = [
        (b"", b"A / HTTP/1\nA: x\n\n"),
        (b"GET / HT", b"TP/1\nA: x\n\n"),
        (b"GET / HTTP/1.1\r\n", b"A: x\n\n"),
        (b"GET / HTTP/1.1\r\nHo", b": x\n\n"),
        (b"GET / HTTP/1.1\r\nHost: a", b"\n\n"),
        (b"GET / HTTP/1.1\r\nHost: a\r\n", b"\n"),
        (b"GET / HTTP/1.1\r\nHost: a\r\n\r", b"\n"),
        (b"GET / HTTP/1.1\r\nHost: a\r\n b\r\nNext: c\r\n d", b"\n\n"),
    ];
    for (begun, more) in cases {
        assert_eq!(request(begun), Outcome::Incomplete);
        for follow in [b"".as_slice(), b"body", b"GET / HTTP/1.1\r\n"] {
            let mut buffer = begun.to_vec();
            buffer.extend_from_slice(more);
            buffer.extend_from_slice(follow);
            match request(&buffer) {
                Outcome::Done(rest, _) => assert_eq!(rest, follow),
                other => panic!("{:?}", other),
            }
        }
    }
}
