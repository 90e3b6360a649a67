use fastforward::grammar::{
    all_headers, http_method, parse_response_line, read_first_line, read_header,
    read_request_line, tag, take_while, ByteClass, ParseError,
};

#[test]
fn tags_are_streaming() {
    assert_eq!(tag(b"\r\nx", 0, b"\r\n"), Ok(2));
    assert_eq!(tag(b"\r", 0, b"\r\n"), Err(ParseError::Incomplete));
    assert_eq!(tag(b"\n\r", 0, b"\r\n"), Err(ParseError::Invalid));
    assert_eq!(take_while(ByteClass::Digit, b"123a", 0), Ok(3));
    assert_eq!(take_while(ByteClass::Digit, b"123", 0), Err(ParseError::Incomplete));
}

#[test]
fn methods() {
    assert_eq!(http_method(b"GET /", 0), Ok(3));
    assert_eq!(http_method(b"PUT /", 0), Ok(3));
    assert_eq!(http_method(b"PATCH /", 0), Ok(5));
    assert_eq!(http_method(b"GE", 0), Err(ParseError::Incomplete));
    assert_eq!(http_method(b"FETCH /", 0), Err(ParseError::Invalid));
}

#[test]
fn request_lines() {
    let line = b"GET  /hello \tHTTP/1.1\r\nrest";
    let l = read_request_line(line, 0).unwrap();
    assert_eq!(&line[..l.method_end], b"GET");
    assert_eq!(&line[l.target_start..l.target_end], b"/hello");
    assert_eq!(&line[l.version_start..l.version_end], b"1.1");
    assert_eq!(l.end, 23);
    assert_eq!(read_first_line(line, 0).unwrap_err(), ParseError::Invalid);
    let strict = b"POST /a HTTP/1.0\r\n";
    let l = read_first_line(strict, 0).unwrap();
    assert_eq!(&strict[l.target_start..l.target_end], b"/a");
    assert_eq!(read_request_line(b"GET /a HTTP/1.1", 0).unwrap_err(), ParseError::Incomplete);
}

#[test]
fn header_lines() {
    let buf = b"Host: example.net\r\nX-A: 1 2\r\n\r\nbody";
    let h = read_header(buf, 0).unwrap();
    assert_eq!(&buf[h.name_start..h.name_end], b"Host");
    assert_eq!(&buf[h.value_start..h.value_end], b"example.net");
    let (hs, end) = all_headers(buf, 0).unwrap();
    assert_eq!(hs.len(), 2);
    assert_eq!(&buf[hs[1].value_start..hs[1].value_end], b"1 2");
    assert_eq!(&buf[end..], b"body");
    assert_eq!(read_header(b"Host:example\r\n", 0).unwrap_err(), ParseError::Invalid);
    assert_eq!(all_headers(b"Host: a\r\nX", 0).unwrap_err(), ParseError::Incomplete);
}

#[test]
fn status_lines() {
    let line = b"HTTP/1.1 404 NotFound\r\n";
    let l = parse_response_line(line, 0).unwrap();
    assert_eq!(&line[l.version_start..l.version_end], b"1.1");
    assert_eq!(&line[l.status_start..l.status_end], b"404");
    assert_eq!(parse_response_line(b"HTTP/1.1 404 Not Found\r\n", 0).unwrap_err(), ParseError::Invalid);
    assert_eq!(parse_response_line(b"HTTP/1.1 200 OK", 0).unwrap_err(), ParseError::Incomplete);
}
