use toy_dns_server::{parse_dns_name, serialize_dns_name};

#[test]
fn test_parse_dns_name() {
    let mut buf: &[u8] = b"\x07example\x03com\x00";
    assert_eq!(parse_dns_name(&mut buf).unwrap(), "example.com");
}

#[test]
fn test_serialize_dns_name() {
    let buf = serialize_dns_name("example.com");
    assert_eq!(buf, b"\x07example\x03com\x00");
}

#[test]
fn parse_name_leaves_the_rest() {
    let mut buf: &[u8] = b"\x03www\x07example\x03com\x00\xaa\xbb";
    assert_eq!(parse_dns_name(&mut buf).unwrap(), "www.example.com");
    assert_eq!(buf, &[0xaa, 0xbb]);
}

#[test]
fn parse_root_name_is_empty() {
    let mut buf: &[u8] = b"\x00";
    assert_eq!(parse_dns_name(&mut buf).unwrap(), "");
    assert!(buf.is_empty());
}

#[test]
fn compressed_name_is_rejected() {
    let mut buf: &[u8] = b"\xc0\x0c";
    assert!(parse_dns_name(&mut buf).is_err());
}

#[test]
fn compression_after_a_label_is_rejected() {
    let mut buf: &[u8] = b"\x03www\xc0\x0c";
    assert!(parse_dns_name(&mut buf).is_err());
}

#[test]
fn either_high_bit_is_rejected() {
    let mut buf: &[u8] = b"\x40abc\x00";
    assert!(parse_dns_name(&mut buf).is_err());
    let mut buf: &[u8] = b"\x80abc\x00";
    assert!(parse_dns_name(&mut buf).is_err());
}

#[test]
fn truncated_name_is_rejected() {
    let mut buf: &[u8] = b"\x07exam";
    assert!(parse_dns_name(&mut buf).is_err());
    let mut buf: &[u8] = b"\x03com";
    assert!(parse_dns_name(&mut buf).is_err());
    let mut buf: &[u8] = b"";
    assert!(parse_dns_name(&mut buf).is_err());
}

#[test]
fn invalid_utf8_label_is_rejected() {
    let mut buf: &[u8] = b"\x02\xff\xfe\x00";
    let err = parse_dns_name(&mut buf).unwrap_err();
    assert!(!err.message().is_empty());
}

#[test]
fn utf8_label_is_kept() {
    let mut buf: &[u8] = b"\x05\xc3\xa9t\xc3\xa9\x00";
    assert_eq!(parse_dns_name(&mut buf).unwrap(), "\u{e9}t\u{e9}");
}

#[test]
fn serialize_root_and_trailing_dot() {
    assert_eq!(serialize_dns_name(""), vec![0, 0]);
    assert_eq!(serialize_dns_name("com."), b"\x03com\x00\x00".to_vec());
}

#[test]
fn serialize_then_parse() {
    let bytes = serialize_dns_name("a.b-c.example");
    let mut buf: &[u8] = &bytes;
    assert_eq!(parse_dns_name(&mut buf).unwrap(), "a.b-c.example");
    assert!(buf.is_empty());
}
