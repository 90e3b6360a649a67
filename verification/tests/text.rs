use fastforward::text::{eq_lowercase, parse_usize, usize_to_decimal};

#[test]
fn decimal_numerals() {
    assert_eq!(usize_to_decimal(0), b"0".to_vec());
    assert_eq!(usize_to_decimal(1234), b"1234".to_vec());
    assert_eq!(parse_usize(b"1234"), Some(1234));
    assert_eq!(parse_usize(b"+7"), Some(7));
    assert_eq!(parse_usize(b"007"), Some(7));
    assert_eq!(parse_usize(b""), None);
    assert_eq!(parse_usize(b"+"), None);
    assert_eq!(parse_usize(b"-1"), None);
    assert_eq!(parse_usize(b"1 "), None);
    assert_eq!(parse_usize(b"99999999999999999999999"), None);
    assert_eq!(parse_usize(usize::MAX.to_string().as_bytes()), Some(usize::MAX));
    for n in [0usize, 9, 10, 4096, usize::MAX] {
        assert_eq!(parse_usize(&usize_to_decimal(n)), Some(n));
        assert_eq!(usize_to_decimal(n), n.to_string().into_bytes());
    }
}

#[test]
fn lowercase_comparison() {
    assert!(eq_lowercase(b"Content-Length", b"content-length"));
    assert!(eq_lowercase(b"CONTENT-LENGTH", b"content-length"));
    assert!(!eq_lowercase(b"Content-Lengt", b"content-length"));
}
