use fastforward::streambuf::{new, read_once_until};

#[test]
fn test_read_once_until() {
    {
        let text = String::from("Hello World");
        let haystack: Vec<u8> = text.into_bytes();
        assert_eq!(read_once_until(&mut haystack.to_vec(), b"not there"), None);
    }

    {
        let text = String::from("Hello World");
        let mut haystack: Vec<u8> = text.into_bytes();
        let resp = read_once_until(&mut haystack, b"Wo");
        assert_eq!(resp.unwrap().as_slice(), b"Hello Wo");
        assert_eq!(haystack.as_slice(), b"rld");
    }

    {
        let text = String::from("Hello World");
        let mut haystack: Vec<u8> = text.into_bytes();
        let resp = read_once_until(&mut haystack, b"Hello");
        assert_eq!(resp.unwrap().as_slice(), b"Hello");
        assert_eq!(haystack.as_slice(), b" World");
    }

    {
        let text = String::from("Foo Bar Bar Foo");
        let mut haystack: Vec<u8> = text.into_bytes();
        let resp = read_once_until(&mut haystack, b"Bar");
        assert_eq!(resp.unwrap().as_slice(), b"Foo Bar");
        assert_eq!(haystack.as_slice(), b" Bar Foo");
    }

    {
        let text = String::from("XYYZ");
        let mut haystack: Vec<u8> = text.into_bytes();
        let resp = read_once_until(&mut haystack, b"Y");
        assert_eq!(resp.unwrap().as_slice(), b"XY");
        assert_eq!(haystack.as_slice(), b"YZ");
    }
}

#[test]
fn read_once_until_edge_cases() {
    let mut short = b"ab".to_vec();
    assert_eq!(read_once_until(&mut short, b"abc"), None);
    assert_eq!(short, b"ab".to_vec());

    let mut whole = b"abc".to_vec();
    assert_eq!(read_once_until(&mut whole, b"abc"), Some(b"abc".to_vec()));
    assert!(whole.is_empty());

    let mut any = b"xyz".to_vec();
    assert_eq!(read_once_until(&mut any, b""), Some(Vec::new()));
    assert_eq!(any, b"xyz".to_vec());
}

#[test]
fn lines_are_taken_as_reads_arrive() {
    let mut stream = new();
    assert_eq!(stream.read_line(b"GET / HT"), None);
    assert_eq!(stream.buffered(), b"GET / HT");
    assert_eq!(stream.read_line(b"TP/1.1\r\nHost: a\r"), Some(b"GET / HTTP/1.1\r\n".to_vec()));
    assert_eq!(stream.read_line(b"\n"), Some(b"Host: a\r\n".to_vec()));
    assert_eq!(stream.read_line(b""), None);
    assert!(stream.buffered().is_empty());
}

#[test]
fn read_until_and_read_num_bytes() {
    let mut stream = new();
    assert_eq!(stream.read_until(b"a;b;", b";"), Some(b"a;".to_vec()));
    assert_eq!(stream.read_until(b"", b";"), Some(b"b;".to_vec()));
    assert_eq!(stream.read_num_bytes(b"123", 5), None);
    assert_eq!(stream.read_num_bytes(b"45678", 5), Some(b"12345".to_vec()));
    assert_eq!(stream.buffered(), b"678");
}
