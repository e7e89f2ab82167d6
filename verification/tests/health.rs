//! The plain-HTTP health check that shares the WebSocket port.

use lightpolars::health::{health_answer, is_health_request};

#[test]
fn recognizes_health_requests() {
    assert!(is_health_request(b"GET /health HTTP/1.1"));
    assert!(is_health_request(b"HEAD /health HTTP/1"));
    assert!(is_health_request(b"GET /health?x=1 HT"));
}

#[test]
fn leaves_everything_else_to_the_websocket() {
    assert!(!is_health_request(b"GET / HTTP/1.1\r\n"));
    assert!(!is_health_request(b"GET /healthz HTTP/"));
    assert!(!is_health_request(b"POST /health HTTP"));
    assert!(!is_health_request(b"GET /heal"));
    assert!(!is_health_request(b""));
}

#[test]
fn a_health_check_is_answered_ok() {
    assert_eq!(
        health_answer(b"GET /health HTTP/1.1\r\n\r\n"),
        "HTTP/1.1 200 OK\r\nContent-Type: text/plain\r\nContent-Length: 2\r\nConnection: close\r\n\r\nok"
    );
}

#[test]
fn a_head_request_gets_no_body() {
    assert_eq!(
        health_answer(b"HEAD /health HTTP/1.1\r\n\r\n"),
        "HTTP/1.1 200 OK\r\nContent-Type: text/plain\r\nContent-Length: 2\r\nConnection: close\r\n\r\n"
    );
}
