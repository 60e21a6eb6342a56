use fraud_detection::response::{not_found_response, ready_response, verdict_response};

const RESP_OK: [&[u8]; 6] = [
    b"HTTP/1.1 200 OK\r\nContent-Type: application/json\r\nContent-Length: 33\r\nConnection: keep-alive\r\n\r\n{\"approved\":true,\"fraud_score\":0}",
    b"HTTP/1.1 200 OK\r\nContent-Type: application/json\r\nContent-Length: 35\r\nConnection: keep-alive\r\n\r\n{\"approved\":true,\"fraud_score\":0.2}",
    b"HTTP/1.1 200 OK\r\nContent-Type: application/json\r\nContent-Length: 35\r\nConnection: keep-alive\r\n\r\n{\"approved\":true,\"fraud_score\":0.4}",
    b"HTTP/1.1 200 OK\r\nContent-Type: application/json\r\nContent-Length: 36\r\nConnection: keep-alive\r\n\r\n{\"approved\":false,\"fraud_score\":0.6}",
    b"HTTP/1.1 200 OK\r\nContent-Type: application/json\r\nContent-Length: 36\r\nConnection: keep-alive\r\n\r\n{\"approved\":false,\"fraud_score\":0.8}",
    b"HTTP/1.1 200 OK\r\nContent-Type: application/json\r\nContent-Length: 34\r\nConnection: keep-alive\r\n\r\n{\"approved\":false,\"fraud_score\":1}",
];

const RESP_READY: &[u8] = b"HTTP/1.1 200 OK\r\nContent-Type: text/plain\r\nContent-Length: 2\r\nConnection: keep-alive\r\n\r\nOK";
const RESP_404: &[u8] =
    b"HTTP/1.1 404 Not Found\r\nContent-Length: 0\r\nConnection: keep-alive\r\n\r\n";

#[test]
fn verdicts() {
    for fraud in 0u32..6 {
        assert_eq!(verdict_response(fraud).as_bytes(), RESP_OK[fraud as usize]);
    }
}

#[test]
fn other_answers() {
    assert_eq!(ready_response().as_bytes(), RESP_READY);
    assert_eq!(not_found_response().as_bytes(), RESP_404);
}

#[test]
fn stated_lengths_are_those_of_the_bodies() {
    for fraud in 0u32..6 {
        let resp = verdict_response(fraud);
        let (head, body) = resp.split_once("\r\n\r\n").unwrap();
        let stated = head.split_once("Content-Length: ").unwrap().1;
        let stated: usize = stated.split_once("\r\n").unwrap().0.parse().unwrap();
        assert_eq!(stated, body.len());
        let score: f64 = body
            .split_once("\"fraud_score\":")
            .unwrap()
            .1
            .trim_end_matches('}')
            .parse()
            .unwrap();
        assert_eq!(score, fraud as f64 / 5.0);
        assert_eq!(body.contains("\"approved\":true"), score < 0.6);
    }
}
