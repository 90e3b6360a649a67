use fastforward::grammar::ParseError;
use fastforward::message::{Header, HttpResponse, HttpVersion};
use fastforward::wire::response_bytes;
use fastforward::response::{
    copy_body_chunk, finish_response, header_line_step, new_body, new_response_head,
    status_line_step, ResponseError,
};

#[test]
fn minimal_response_head() {
    let mut head = new_response_head();
    status_line_step(&mut head, b"HTTP/1.1 200 OK\r\n").unwrap();
    assert_eq!(header_line_step(&mut head, b"content-length: 0\r\n"), Ok(false));
    assert_eq!(header_line_step(&mut head, b"\r\n"), Ok(true));
    assert_eq!(head.status, 200);
    assert_eq!(head.version, HttpVersion::Http11);
    assert_eq!(head.content_length, 0);
    let resp = finish_response(head, new_body(0)).unwrap();
    assert_eq!(resp.headers[0].value, b"0".to_vec());
    assert!(resp.body.is_empty());
}

#[test]
fn response_with_body_read_in_chunks() {
    let mut head = new_response_head();
    status_line_step(&mut head, b"HTTP/1.0 201 Created\r\n").unwrap();
    assert_eq!(header_line_step(&mut head, b"Content-Length: 10\r\n"), Ok(false));
    assert_eq!(header_line_step(&mut head, b"X-Thing: a b\r\n"), Ok(false));
    assert_eq!(header_line_step(&mut head, b"\r\n"), Ok(true));
    assert_eq!(head.status, 201);
    assert_eq!(head.version, HttpVersion::Http10);
    let mut body = new_body(head.content_length);
    let mut read = copy_body_chunk(&mut body, 0, b"0123");
    assert_eq!(read, 4);
    read = copy_body_chunk(&mut body, read, b"456789XYZ");
    assert_eq!(read, 13);
    assert_eq!(body, b"0123456789".to_vec());
    let resp = finish_response(head, body).unwrap();
    assert_eq!(resp.headers.len(), 2);
    assert_eq!(resp.body, b"0123456789".to_vec());
}

#[test]
fn unknown_version_keeps_the_default() {
    let mut head = new_response_head();
    status_line_step(&mut head, b"HTTP/9.9 500 Oops\r\n").unwrap();
    assert_eq!(head.version, HttpVersion::Http11);
    assert_eq!(head.status, 500);
}

#[test]
fn response_errors() {
    let mut head = new_response_head();
    assert_eq!(
        status_line_step(&mut head, b"HTTP/1.1 404 Not Found\r\n"),
        Err(ResponseError::StatusLine(ParseError::Invalid))
    );
    assert_eq!(status_line_step(&mut head, b"HTTP/1.1 099 X\r\n"), Err(ResponseError::InvalidStatus));
    assert_eq!(status_line_step(&mut head, b"HTTP/1.1 2000 X\r\n"), Err(ResponseError::InvalidStatus));
    assert_eq!(head.status, 200);
    assert_eq!(
        header_line_step(&mut head, b"Bad Header\r\n"),
        Err(ResponseError::HeaderLine(ParseError::Invalid))
    );
    assert_eq!(header_line_step(&mut head, b""), Err(ResponseError::HeaderLine(ParseError::Incomplete)));
    assert_eq!(header_line_step(&mut head, b"Content-Length: x\r\n"), Err(ResponseError::ContentLength));
    assert_eq!(header_line_step(&mut head, b": empty\r\n"), Ok(false));
    assert_eq!(finish_response(head, Vec::new()).unwrap_err(), ResponseError::InvalidHeaderName);
}

fn split_lines(bytes: &[u8]) -> Vec<Vec<u8>> {
    let mut lines = Vec::new();
    let mut start = 0;
    for i in 0..bytes.len() {
        if bytes[i] == b'\n' {
            lines.push(bytes[start..=i].to_vec());
            start = i + 1;
        }
    }
    lines.push(bytes[start..].to_vec());
    lines
}

#[test]
fn returned_response_reads_back() {
    let resp = HttpResponse {
        status: 200,
        version: HttpVersion::H2,
        headers: vec![
            Header { name: b"server".to_vec(), value: b"upstream".to_vec() },
            Header { name: b"content-length".to_vec(), value: b"1".to_vec() },
        ],
        body: b"0123456789".to_vec(),
    };
    let bytes = response_bytes(&resp);
    let lines = split_lines(&bytes);
    assert_eq!(lines.len(), 5);
    let mut head = new_response_head();
    status_line_step(&mut head, &lines[0]).unwrap();
    assert_eq!(header_line_step(&mut head, &lines[1]), Ok(false));
    assert_eq!(header_line_step(&mut head, &lines[2]), Ok(false));
    assert_eq!(header_line_step(&mut head, &lines[3]), Ok(true));
    assert_eq!(head.status, 200);
    assert_eq!(head.version, HttpVersion::H2);
    assert_eq!(head.content_length, 10);
    let mut body = new_body(head.content_length);
    let read = copy_body_chunk(&mut body, 0, &lines[4]);
    assert_eq!(read, 10);
    let back = finish_response(head, body).unwrap();
    assert_eq!(back.body, resp.body);
    assert_eq!(back.headers[0].value, b"upstream".to_vec());
    assert_eq!(back.headers[1].value, b"10".to_vec());
}

#[test]
fn response_without_length_reads_back_without_body() {
    let resp = HttpResponse { status: 202, version: HttpVersion::Http10, headers: vec![], body: b"x".to_vec() };
    let bytes = response_bytes(&resp);
    let lines = split_lines(&bytes);
    let mut head = new_response_head();
    status_line_step(&mut head, &lines[0]).unwrap();
    assert_eq!(header_line_step(&mut head, &lines[1]), Ok(true));
    assert_eq!(head.status, 202);
    assert_eq!(head.version, HttpVersion::Http10);
    assert_eq!(head.content_length, 0);
}

#[test]
fn reason_of_two_words_does_not_read_back() {
    let resp = HttpResponse { status: 204, version: HttpVersion::Http11, headers: vec![], body: vec![] };
    let bytes = response_bytes(&resp);
    let lines = split_lines(&bytes);
    let mut head = new_response_head();
    assert_eq!(status_line_step(&mut head, &lines[0]), Err(ResponseError::StatusLine(ParseError::Invalid)));
}

#[test]
fn chunks_fill_the_body_up_to_its_length() {
    let mut body = new_body(6);
    let mut read = copy_body_chunk(&mut body, 0, b"");
    assert_eq!(read, 0);
    read = copy_body_chunk(&mut body, read, b"ab");
    read = copy_body_chunk(&mut body, read, b"cdef");
    assert_eq!(read, 6);
    assert_eq!(body, b"abcdef".to_vec());
    let mut body = new_body(3);
    let read = copy_body_chunk(&mut body, 0, b"xyz123");
    assert_eq!(read, 6);
    assert_eq!(body, b"xyz".to_vec());
}
