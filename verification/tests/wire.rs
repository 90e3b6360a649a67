use fastforward::message::{Header, HttpRequest, HttpResponse, HttpVersion};
use fastforward::proxy::{empty_response, handle_request_response, send_request_response, UpstreamOutcome};
use fastforward::request::parse_http_request;
use fastforward::wire::{request_bytes, response_bytes};

fn header(name: &str, value: &str) -> Header {
    Header { name: name.as_bytes().to_vec(), value: value.as_bytes().to_vec() }
}

#[test]
fn forwarded_request_bytes() {
    let req = HttpRequest {
        method: b"POST".to_vec(),
        target: b"/foo".to_vec(),
        version: HttpVersion::Http11,
        headers: vec![
            header("host", "127.0.0.1:4000"),
            header("user-agent", "curl"),
            header("content-length", "99"),
        ],
        body: b"hello".to_vec(),
    };
    let bytes = request_bytes(&req);
    assert_eq!(
        bytes,
        b"POST /foo HTTP/1.1\r\nhost: 127.0.0.1:4000\r\ncontent-length: 5\r\n\r\nhello".to_vec()
    );
    let mut buf = bytes.clone();
    buf.push(0);
    let back = parse_http_request(&buf).unwrap();
    assert_eq!(back.missing, 0);
    assert_eq!(back.request.method, req.method);
    assert_eq!(back.request.target, req.target);
    assert_eq!(back.request.body, req.body);
    assert_eq!(back.request.headers.len(), 2);
}

#[test]
fn returned_response_bytes() {
    let resp = HttpResponse {
        status: 200,
        version: HttpVersion::Http11,
        headers: vec![header("content-length", "0"), header("server", "x")],
        body: b"ok".to_vec(),
    };
    assert_eq!(
        response_bytes(&resp),
        b"HTTP/1.1 200 OK\r\ncontent-length: 2\r\nserver: x\r\n\r\nok".to_vec()
    );
    let gateway = empty_response(502);
    assert_eq!(response_bytes(&gateway), b"HTTP/1.1 502 Bad Gateway\r\n\r\n".to_vec());
    let odd = empty_response(599);
    assert_eq!(response_bytes(&odd), b"HTTP/1.1 599 \r\n\r\n".to_vec());
    let mut v2 = empty_response(404);
    v2.version = HttpVersion::H2;
    assert_eq!(response_bytes(&v2), b"HTTP/2.0 404 Not Found\r\n\r\n".to_vec());
}

#[test]
fn upstream_outcomes() {
    assert_eq!(send_request_response(UpstreamOutcome::ConnectFailed).status, 502);
    assert_eq!(send_request_response(UpstreamOutcome::WriteFailed).status, 500);
    assert_eq!(send_request_response(UpstreamOutcome::ReadFailed).status, 500);
    let ok = send_request_response(UpstreamOutcome::Received(empty_response(204)));
    assert_eq!(ok.status, 204);
    assert!(handle_request_response(UpstreamOutcome::ConnectFailed).is_none());
    assert!(handle_request_response(UpstreamOutcome::WriteFailed).is_none());
    assert_eq!(handle_request_response(UpstreamOutcome::ReadFailed).unwrap().status, 500);
    let r = handle_request_response(UpstreamOutcome::Received(empty_response(301))).unwrap();
    assert_eq!(r.status, 301);
    assert!(r.headers.is_empty() && r.body.is_empty());
    assert_eq!(r.version, HttpVersion::Http11);
}

#[test]
fn forwarded_request_reads_back() {
    let req = HttpRequest {
        method: b"PATCH".to_vec(),
        target: b"/items/7?x=1".to_vec(),
        version: HttpVersion::H2,
        headers: vec![
            header("accept", "*/*"),
            header("content-length", "3"),
            header("user-agent", "tester"),
            header("x-trace", "a b\tc"),
        ],
        body: b"{\"n\":7}".to_vec(),
    };
    let mut buf = request_bytes(&req);
    buf.extend_from_slice(&[0u8; 16]);
    let back = parse_http_request(&buf).unwrap();
    assert_eq!(back.missing, 0);
    let r = back.request;
    assert_eq!(r.method, req.method);
    assert_eq!(r.target, req.target);
    assert_eq!(r.version, HttpVersion::H2);
    assert_eq!(r.body, req.body);
    let names: Vec<Vec<u8>> = r.headers.iter().map(|h| h.name.clone()).collect();
    assert_eq!(names, vec![b"accept".to_vec(), b"content-length".to_vec(), b"x-trace".to_vec()]);
    assert_eq!(r.headers[1].value, b"7".to_vec());
    assert_eq!(r.headers[2].value, b"a b\tc".to_vec());
}
