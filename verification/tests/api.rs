use rusttp::{message_header, request, request_line, Header, Outcome, Request};

#[test]
fn entry_points_are_exported_at_the_root() {
    let buffer = b"GET / HTTP/1.1\r\nHost: a\r\n\r\n";
    let line = Request { method: b"GET", uri: b"/", version: b"1.1" };
    let host = Header { name: b"Host", value: vec![b"a".as_slice()] };
    assert_eq!(request_line(buffer), Outcome::Done(&buffer[16..], line));
    assert_eq!(message_header(&buffer[16..]), Outcome::Done(&buffer[25..], host.clone()));
    assert_eq!(request(buffer), Outcome::Done(&buffer[27..], (line, vec![host])));
}

#[test]
fn outcomes_can_be_cloned_compared_and_printed() {
    let done = request_line(b"GET / HTTP/1.1\n");
    assert_eq!(done.clone(), done);
    assert_ne!(done, Outcome::Error);
    assert_ne!(done, Outcome::Incomplete);
    assert_eq!(format!("{:?}", request_line(b"GE")), "Incomplete");
    assert_eq!(format!("{:?}", request_line(b" ")), "Error");
    assert!(format!("{:?}", done).starts_with("Done("));
}
