use fastforward::combinators::{
    array_to_vec, is_body_value_char, is_digit_char, is_header_value_char,
    is_header_value_char_tolerant, is_http_header_name_char, is_space, is_token_char,
};

#[test]
fn digit_chars() {
    for c in 0u8..=255 {
        assert_eq!(is_digit_char(c), b"0123456789".contains(&c));
    }
}

#[test]
fn header_value_chars() {
    assert!(is_header_value_char(9));
    assert!(is_header_value_char(b' '));
    assert!(is_header_value_char(b'~'));
    assert!(!is_header_value_char(127));
    assert!(!is_header_value_char(b'\r'));
    assert!(!is_header_value_char(160));
    assert!(is_header_value_char_tolerant(160));
    assert!(is_header_value_char_tolerant(255));
    assert!(!is_header_value_char_tolerant(159));
    assert!(!is_header_value_char_tolerant(b'\n'));
}

#[test]
fn token_and_name_chars() {
    for c in 0u8..=255 {
        let expected = c.is_ascii_alphanumeric() || b"!#$%&'*+-.^_`|~".contains(&c);
        assert_eq!(is_token_char(c), expected);
        assert_eq!(is_http_header_name_char(c), expected);
    }
    assert!(!is_token_char(b':'));
    assert!(!is_token_char(b' '));
}

#[test]
fn body_and_space_chars() {
    assert!(!is_body_value_char(0));
    assert!(is_body_value_char(1));
    assert!(is_space(b' '));
    assert!(is_space(b'\t'));
    assert!(!is_space(b'\n'));
}

#[test]
fn array_to_vec_copies() {
    assert_eq!(array_to_vec(b"abc"), b"abc".to_vec());
    assert_eq!(array_to_vec(b""), Vec::<u8>::new());
}
