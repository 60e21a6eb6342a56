use fraud_detection::http::{
    checked_content_length, find_header_end, parse_content_length, Action, Connection, BUF_LEN,
};

fn feed(conn: &mut Connection, bytes: &[u8]) {
    conn.buf[conn.filled..conn.filled + bytes.len()].copy_from_slice(bytes);
    conn.advance(bytes.len());
}

#[test]
fn header_ends() {
    assert_eq!(find_header_end(b""), None);
    assert_eq!(find_header_end(b"\r\n\r"), None);
    assert_eq!(find_header_end(b"\r\n\r\n"), Some(4));
    assert_eq!(find_header_end(b"GET /ready HTTP/1.1\r\n\r\nrest\r\n\r\n"), Some(23));
    assert_eq!(find_header_end(b"GET /ready HTTP/1.1\r\nHost: x\r\n"), None);
}

#[test]
fn content_lengths() {
    assert_eq!(parse_content_length(b"POST / HTTP/1.1\r\nContent-Length: 42\r\n\r\n"), 42);
    assert_eq!(parse_content_length(b"POST / HTTP/1.1\r\ncontent-length: 7\r\n\r\n"), 7);
    assert_eq!(parse_content_length(b"POST / HTTP/1.1\r\nHost: x\r\n\r\n"), 0);
    assert_eq!(parse_content_length(b"Content-Length: x"), 0);
    assert_eq!(parse_content_length(b"Content-Length: "), 0);
    assert_eq!(parse_content_length(b"Content-Length: 1\r\nContent-Length: 2\r\n"), 1);
    assert_eq!(
        checked_content_length(b"Content-Length: 18446744073709551615\r\n"),
        Some(18446744073709551615)
    );
    assert_eq!(checked_content_length(b"Content-Length: 18446744073709551616\r\n"), None);
}

#[test]
fn a_get_is_answered_when_its_headers_are_complete() {
    let mut conn = Connection::new();
    assert!(matches!(conn.decide(), Action::Read));
    feed(&mut conn, b"GET /ready HTTP/1.1\r\n");
    assert!(matches!(conn.decide(), Action::Read));
    feed(&mut conn, b"Content-Length: 5\r\n\r\n");
    assert!(matches!(conn.decide(), Action::Ready));
    assert!(conn.consume());
    assert_eq!(conn.filled, 0);
}

#[test]
fn a_request_with_a_body_waits_for_it() {
    let mut conn = Connection::new();
    let head = b"PUT /fraud-score HTTP/1.1\r\nContent-Length: 9\r\n\r\n";
    feed(&mut conn, head);
    assert!(matches!(conn.decide(), Action::Read));
    feed(&mut conn, b"{\"a\":1}");
    assert!(matches!(conn.decide(), Action::Read));
    feed(&mut conn, b"  GET");
    match conn.decide() {
        Action::Score { start, end } => {
            assert_eq!(start, head.len());
            assert_eq!(&conn.buf[start..end], b"{\"a\":1}  ");
        }
        _ => panic!("the body is complete"),
    }
    assert!(conn.consume());
    assert_eq!(conn.filled, 3);
    assert_eq!(&conn.buf[..3], b"GET");
}

#[test]
fn the_sixth_byte_tells_what_is_scored() {
    let mut conn = Connection::new();
    feed(&mut conn, b"PATCHf HTTP/1.1\r\n\r\n");
    assert!(matches!(conn.decide(), Action::Score { start: 19, end: 19 }));

    let mut conn = Connection::new();
    feed(&mut conn, b"POST /fraud-score HTTP/1.1\r\n\r\n");
    assert!(matches!(conn.decide(), Action::NotFound));
}

#[test]
fn more_bytes_do_not_change_an_answer() {
    let mut conn = Connection::new();
    feed(&mut conn, b"PUT /fraud HTTP/1.1\r\nContent-Length: 2\r\n\r\n{}");
    assert!(matches!(conn.decide(), Action::Score { .. }));
    feed(&mut conn, b"GET / HTTP/1.1\r\n\r\n");
    assert!(matches!(conn.decide(), Action::Score { .. }));
    assert!(conn.consume());
    assert!(matches!(conn.decide(), Action::Ready));
}

#[test]
fn buffered_requests_are_answered_in_turn() {
    let mut conn = Connection::new();
    feed(
        &mut conn,
        b"GET / HTTP/1.1\r\n\r\nPUT /f HTTP/1.1\r\nContent-Length: 2\r\n\r\n{}DELETE / HTTP/1.1\r\n\r\nGET",
    );
    assert!(matches!(conn.decide(), Action::Ready));
    assert!(conn.consume());
    match conn.decide() {
        Action::Score { start, end } => assert_eq!(&conn.buf[start..end], b"{}"),
        _ => panic!("the second request is complete"),
    }
    assert!(conn.consume());
    assert!(matches!(conn.decide(), Action::NotFound));
    assert!(conn.consume());
    assert!(matches!(conn.decide(), Action::Read));
    assert_eq!(&conn.buf[..conn.filled], b"GET");
}

#[test]
fn a_bare_p_goes_by_the_byte_behind_it() {
    let mut conn = Connection::new();
    feed(&mut conn, b"P\r\n\r\n");
    assert!(matches!(conn.decide(), Action::NotFound));
    feed(&mut conn, b"f");
    assert!(matches!(conn.decide(), Action::Score { start: 5, end: 5 }));
}

#[test]
fn what_an_earlier_request_left_does_not_count() {
    let mut conn = Connection::new();
    feed(&mut conn, b"PUT /fraud HTTP/1.1\r\nContent-Length: 2\r\n\r\n{}");
    assert!(conn.consume());
    assert_eq!(conn.filled, 0);
    let request = b"PUT /other HTTP/1.1\r\n\r\n";
    let mut fresh = Connection::new();
    for byte in request {
        feed(&mut conn, &[*byte]);
        feed(&mut fresh, &[*byte]);
        if conn.filled < request.len() {
            assert!(matches!((conn.decide(), fresh.decide()), (Action::Read, Action::Read)));
        }
    }
    assert!(matches!(conn.decide(), Action::NotFound));
    assert!(matches!(fresh.decide(), Action::NotFound));
}

#[test]
fn other_requests_are_turned_down() {
    let mut conn = Connection::new();
    feed(&mut conn, b"POST /other HTTP/1.1\r\nContent-Length: 1\r\n\r\nx");
    assert!(matches!(conn.decide(), Action::NotFound));
    assert!(conn.consume());
    // The body is not waited for, but it is dropped as far as it is there.
    feed(&mut conn, b"DELETE / HTTP/1.1\r\nContent-Length: 4\r\n\r\nab");
    assert!(matches!(conn.decide(), Action::NotFound));
    assert!(conn.consume());
    assert_eq!(conn.filled, 0);
}

#[test]
fn requests_that_do_not_fit_end_the_connection() {
    let mut conn = Connection::new();
    feed(&mut conn, &[b'x'; BUF_LEN]);
    assert!(matches!(conn.decide(), Action::Close));

    let mut conn = Connection::new();
    feed(&mut conn, b"POST /fraud HTTP/1.1\r\nContent-Length: 4096\r\n\r\n");
    assert!(matches!(conn.decide(), Action::Read));
    let rest = vec![b' '; BUF_LEN - conn.filled];
    feed(&mut conn, &rest);
    assert!(matches!(conn.decide(), Action::Close));
}

#[test]
fn lengths_that_do_not_fit() {
    let mut conn = Connection::new();
    feed(&mut conn, b"POST /fraud HTTP/1.1\r\nContent-Length: 18446744073709551615\r\n\r\n");
    assert!(matches!(conn.decide(), Action::Overflow));

    let mut conn = Connection::new();
    feed(&mut conn, b"PUT /fraud HTTP/1.1\r\nContent-Length: 99999999999999999999\r\n\r\n");
    assert!(matches!(conn.decide(), Action::Overflow));

    let mut conn = Connection::new();
    feed(&mut conn, b"DELETE / HTTP/1.1\r\nContent-Length: 99999999999999999999\r\n\r\n");
    assert!(matches!(conn.decide(), Action::NotFound));
    let filled = conn.filled;
    assert!(!conn.consume());
    assert_eq!(conn.filled, filled);
}
