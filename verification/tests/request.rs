use fastforward::message::HttpVersion;
use fastforward::request::{append_body, parse_http_request, parse_request_head, RequestError};
use fastforward::grammar::ParseError;

fn padded(msg: &[u8]) -> Vec<u8> {
    let mut buf = vec![0u8; 1024];
    buf[..msg.len()].copy_from_slice(msg);
    buf
}

#[test]
fn reads_a_request_with_a_body() {
    let buf = padded(b"POST /foo/bar HTTP/1.1\r\nHost: example.net\r\nContent-Length: 5\r\n\r\nhello");
    let parsed = parse_http_request(&buf).unwrap();
    assert_eq!(parsed.missing, 0);
    let r = parsed.request;
    assert_eq!(r.method, b"POST".to_vec());
    assert_eq!(r.target, b"/foo/bar".to_vec());
    assert_eq!(r.version, HttpVersion::Http11);
    assert_eq!(r.headers.len(), 2);
    assert_eq!(r.headers[0].name, b"Host".to_vec());
    assert_eq!(r.headers[0].value, b"example.net".to_vec());
    assert_eq!(r.body, b"hello".to_vec());
}

#[test]
fn minimal_get_request() {
    let buf = padded(b"GET /hello HTTP/1.1\r\n\r\n");
    let r = parse_http_request(&buf).unwrap().request;
    assert_eq!(r.method, b"GET".to_vec());
    assert_eq!(r.target, b"/hello".to_vec());
    assert!(r.headers.is_empty());
    assert!(r.body.is_empty());
}

#[test]
fn version_two_is_kept_and_others_default() {
    let r = parse_http_request(&padded(b"GET / HTTP/2.0\r\n\r\n")).unwrap().request;
    assert_eq!(r.version, HttpVersion::H2);
    let r = parse_http_request(&padded(b"GET / HTTP/1.0\r\n\r\n")).unwrap().request;
    assert_eq!(r.version, HttpVersion::Http11);
}

#[test]
fn missing_body_bytes_are_counted_and_appended() {
    let msg = b"PUT /x HTTP/1.1\r\ncontent-length: 10\r\n\r\nabcd";
    let parsed = parse_http_request(msg).unwrap();
    assert_eq!(parsed.missing, 6);
    let mut r = parsed.request;
    assert_eq!(r.body, b"abcd".to_vec());
    append_body(&mut r, b"efghij");
    assert_eq!(r.body, b"abcdefghij".to_vec());
}

#[test]
fn request_errors() {
    assert_eq!(parse_http_request(b"GET / HTTP/1.1\r\n\r\n\xff\x00").unwrap_err(), RequestError::InvalidUtf8);
    assert_eq!(
        parse_http_request(&padded(b"BREW / HTTP/1.1\r\n\r\n")).unwrap_err(),
        RequestError::RequestLine(ParseError::Invalid)
    );
    assert_eq!(
        parse_http_request(b"GET / HTTP/1.1\r\nHost: a").unwrap_err(),
        RequestError::Headers(ParseError::Incomplete)
    );
    assert_eq!(
        parse_http_request(&padded(b"GET / HTTP/1.1\r\nContent-Length: ten\r\n\r\n")).unwrap_err(),
        RequestError::ContentLength
    );
    assert_eq!(
        parse_http_request(b"GET / HTTP/1.1\r\n\r\nbody").unwrap_err(),
        RequestError::Body(ParseError::Incomplete)
    );
    assert_eq!(
        parse_http_request(&padded(b"GET /a\x7fb HTTP/1.1\r\n\r\n")).unwrap_err(),
        RequestError::InvalidTarget
    );
    assert_eq!(
        parse_http_request(&padded(b"GET / HTTP/1.1\r\n: v\r\n\r\n")).unwrap_err(),
        RequestError::InvalidHeaderName
    );
}

#[test]
fn request_heads_with_single_spaces() {
    let buf = padded(b"GET /index HTTP/1.1\r\nAccept: */*\r\n\r\nignored");
    let r = parse_request_head(&buf).unwrap();
    assert_eq!(r.method, b"GET".to_vec());
    assert_eq!(r.target, b"/index".to_vec());
    assert_eq!(r.headers.len(), 1);
    assert!(r.body.is_empty());
    assert_eq!(
        parse_request_head(&padded(b"GET  /index HTTP/1.1\r\n\r\n")).unwrap_err(),
        RequestError::RequestLine(ParseError::Invalid)
    );
    assert_eq!(
        parse_request_head(&padded(b"GET / HTTP/1.1\r\ncontent_length: 3\r\n\r\n")).unwrap_err(),
        RequestError::ContentLength
    );
}
