use fastforward::filters::{remove_hop_by_hop_headers, set_host_header, try_set_host_header};
use fastforward::proxy::upstream_address;
use hyper::header::{self, HeaderValue};
use hyper::HeaderMap;

#[test]
/// Per RFC 2616 Section 13.5.1 - MUST remove hop-by-hop headers
/// Per RFC 7230 Section 6.1 - MUST remove Connection and Connection option headers
fn test_filter_frontend_request_headers() {
    let mut headers = HeaderMap::new();
    headers.insert(header::TRANSFER_ENCODING, HeaderValue::from_static("chunked"));
    headers.insert(header::UPGRADE, HeaderValue::from_static("HTTP/2.0, IRC/6.9, RTA/x11, SHTTP/1.3"));

    let filtered_headers = remove_hop_by_hop_headers(&headers);
    assert_ne!(None, headers.get(header::TRANSFER_ENCODING));
    assert_eq!(None, filtered_headers.get(header::TRANSFER_ENCODING));

    assert_ne!(None, headers.get(header::UPGRADE));
    assert_eq!(None, filtered_headers.get(header::UPGRADE));
}

#[test]
fn connection_options_are_removed_and_others_kept() {
    let mut headers = HeaderMap::new();
    headers.insert(header::HOST, HeaderValue::from_static("example.net"));
    headers.insert(header::CONNECTION, HeaderValue::from_static("Keep-Alive, Foo"));
    headers.insert("bar", HeaderValue::from_static("abc"));
    headers.insert("foo", HeaderValue::from_static("def"));
    headers.insert("keep-alive", HeaderValue::from_static("timeout=30"));
    headers.insert(header::TRANSFER_ENCODING, HeaderValue::from_static("chunked"));

    let filtered = remove_hop_by_hop_headers(&headers);
    assert_eq!(filtered.get(header::HOST).unwrap(), "example.net");
    assert_eq!(filtered.get("bar").unwrap(), "abc");
    assert_eq!(None, filtered.get("foo"));
    assert_eq!(None, filtered.get("keep-alive"));
    assert_eq!(None, filtered.get(header::CONNECTION));
    assert_eq!(None, filtered.get(header::TRANSFER_ENCODING));
    assert_eq!(filtered.len(), 2);
    // the original map is left as it was
    assert_eq!(headers.len(), 6);
}

#[test]
fn connection_option_pieces_are_trimmed_and_empty_ones_ignored() {
    let mut headers = HeaderMap::new();
    headers.insert(header::CONNECTION, HeaderValue::from_static(" x-one ,,\tX-Two"));
    headers.insert("x-one", HeaderValue::from_static("1"));
    headers.insert("x-two", HeaderValue::from_static("2"));
    headers.insert("x-three", HeaderValue::from_static("3"));
    let filtered = remove_hop_by_hop_headers(&headers);
    assert_eq!(None, filtered.get("x-one"));
    assert_eq!(None, filtered.get("x-two"));
    assert_eq!(filtered.get("x-three").unwrap(), "3");
    assert_eq!(filtered.len(), 1);
}

#[test]
fn connection_value_that_is_not_text_names_nothing() {
    let mut headers = HeaderMap::new();
    headers.insert(header::CONNECTION, HeaderValue::from_bytes(b"foo\xff").unwrap());
    headers.insert("foo", HeaderValue::from_static("kept"));
    let filtered = remove_hop_by_hop_headers(&headers);
    assert_eq!(filtered.get("foo").unwrap(), "kept");
    assert_eq!(None, filtered.get(header::CONNECTION));
}

#[test]
fn filtering_twice_changes_nothing() {
    let mut headers = HeaderMap::new();
    headers.insert(header::CONNECTION, HeaderValue::from_static("a"));
    headers.insert("a", HeaderValue::from_static("1"));
    headers.insert("b", HeaderValue::from_static("2"));
    headers.insert(header::UPGRADE, HeaderValue::from_static("h2c"));
    let once = remove_hop_by_hop_headers(&headers);
    let twice = remove_hop_by_hop_headers(&once);
    assert_eq!(once, twice);
}

#[test]
fn host_header_is_replaced() {
    let mut headers = HeaderMap::new();
    headers.insert(header::HOST, HeaderValue::from_static("client.example"));
    headers.append(header::HOST, HeaderValue::from_static("second.example"));
    headers.insert("accept", HeaderValue::from_static("*/*"));
    set_host_header(&mut headers, b"127.0.0.1:4000");
    let hosts: Vec<&HeaderValue> = headers.get_all(header::HOST).iter().collect();
    assert_eq!(hosts.len(), 1);
    assert_eq!(hosts[0], "127.0.0.1:4000");
    assert_eq!(headers.get("accept").unwrap(), "*/*");
}

#[test]
fn upstream_address_is_the_host_field() {
    let mut headers = HeaderMap::new();
    assert_eq!(upstream_address(&headers), None);
    headers.insert(header::HOST, HeaderValue::from_static("127.0.0.1:4000"));
    assert_eq!(upstream_address(&headers), Some(b"127.0.0.1:4000".to_vec()));
    headers.insert(header::HOST, HeaderValue::from_bytes(b"\xff\xfe").unwrap());
    assert_eq!(upstream_address(&headers), None);
}

#[test]
fn request_goes_to_the_host_that_was_set() {
    let mut headers = HeaderMap::new();
    headers.insert("accept", HeaderValue::from_static("*/*"));
    set_host_header(&mut headers, b"10.0.0.2:8000");
    assert_eq!(upstream_address(&headers), Some(b"10.0.0.2:8000".to_vec()));
    headers.insert(header::HOST, HeaderValue::from_bytes(b"\xff").unwrap());
    set_host_header(&mut headers, b"127.0.0.1:4000");
    assert_eq!(upstream_address(&headers), Some(b"127.0.0.1:4000".to_vec()));
}

#[test]
fn te_is_removed() {
    let mut headers = HeaderMap::new();
    headers.insert(header::TE, HeaderValue::from_static("trailers"));
    headers.insert(header::HOST, HeaderValue::from_static("h"));
    let filtered = remove_hop_by_hop_headers(&headers);
    assert_eq!(filtered.len(), 1);
    assert_eq!(filtered.get(header::HOST).unwrap(), "h");
}

#[test]
fn options_of_every_connection_value_are_removed() {
    let mut headers = HeaderMap::new();
    headers.append(header::CONNECTION, HeaderValue::from_static("Foo"));
    headers.append(header::CONNECTION, HeaderValue::from_static("Bar"));
    headers.insert("foo", HeaderValue::from_static("1"));
    headers.insert("bar", HeaderValue::from_static("2"));
    headers.insert(header::HOST, HeaderValue::from_static("h"));
    let filtered = remove_hop_by_hop_headers(&headers);
    assert_eq!(filtered.len(), 1);
    assert_eq!(filtered.get(header::HOST).unwrap(), "h");
    let again = remove_hop_by_hop_headers(&filtered);
    assert_eq!(again, filtered);
}

#[test]
fn host_is_set_below_the_field_bound() {
    let mut headers = HeaderMap::new();
    headers.insert(header::HOST, HeaderValue::from_static("old"));
    assert!(try_set_host_header(&mut headers, b"127.0.0.1:4000"));
    assert_eq!(headers.get(header::HOST).unwrap(), "127.0.0.1:4000");
    let mut big = HeaderMap::new();
    for i in 0..3000 {
        big.insert(header::HeaderName::from_bytes(format!("x-{}", i).as_bytes()).unwrap(), HeaderValue::from_static("v"));
    }
    assert!(!try_set_host_header(&mut big, b"127.0.0.1:4000"));
    assert_eq!(big.keys_len(), 3000);
    assert!(big.get(header::HOST).is_none());
}
