use settings_core::hostname::{parse_http_response, Imds, IMDS_URL_V4, IMDS_URL_V6};

#[test]
fn endpoint_prefers_ipv6_when_reachable() {
    assert_eq!(Imds::new(true).0, IMDS_URL_V6);
    assert_eq!(Imds::new(false).0, IMDS_URL_V4);
    let chosen = Imds::with_override(false, "[::1]:80", "127.0.0.1:80");
    assert_eq!(chosen.0, "127.0.0.1:80");
}

#[test]
fn the_newer_protocol_answers_unauthorized() {
    let imds = Imds::new(false);
    assert!(imds.is_v2(401));
    assert!(!imds.is_v2(404));
    assert!(!imds.is_v2(200));
}

#[test]
fn response_status_and_body_are_read() {
    let raw = b"HTTP/1.1 200 OK\r\nContent-Type: text/plain\r\n\r\ntest";
    let (status, body) = parse_http_response(raw).unwrap();
    assert_eq!(status, 200);
    assert_eq!(body, b"test".to_vec());
}

#[test]
fn response_status_is_read_without_a_body() {
    let raw = b"HTTP/1.1 404 Not Found\r\n\r\n";
    let (status, body) = parse_http_response(raw).unwrap();
    assert_eq!(status, 404);
    assert!(body.is_empty());
}

#[test]
fn response_without_complete_headers_has_no_body() {
    // headers never end: trailing bytes after the last full line are dropped
    let raw = b"HTTP/1.1 200 OK\r\nContent-Type";
    let (status, body) = parse_http_response(raw).unwrap();
    assert_eq!(status, 200);
    assert!(body.is_empty());
}

#[test]
fn malformed_responses_are_refused() {
    // no line at all
    assert!(parse_http_response(b"garbage with no line break").is_none());
    // an empty first line
    assert!(parse_http_response(b"\r\nrest").is_none());
    // a status line with one word
    assert!(parse_http_response(b"HTTP/1.1\r\n\r\n").is_none());
    // a status that is not a number
    assert!(parse_http_response(b"HTTP/1.1 OK\r\n\r\n").is_none());
    // a status too long to be a number the caller could hold
    assert!(parse_http_response(b"HTTP/1.1 99999999999999999999 X\r\n\r\n").is_none());
}
