use toy_dns_server::{parse_dns_answer, Class, DnsAnswer, RData, Type};

#[test]
fn test_parse_a_record() {
    let mut buf: &[u8] = b"\x07example\x03com\x00\x00\x01\x00\x01\x00\x00\
                           \x00\x3c\x00\x04\x5d\xb8\xd8\x22";
    let answer = parse_dns_answer(&mut buf).unwrap();
    assert_eq!(answer.name, "example.com");
    assert_eq!(answer.rtype, Type::A);
    assert_eq!(answer.rclass, Class::IN);
    assert_eq!(answer.ttl, 60);
    assert_eq!(answer.rdata, RData::A([93, 184, 216, 34]));
}

#[test]
fn test_serialize_a_record() {
    let answer = DnsAnswer {
        name: "example.com".to_string(),
        rtype: Type::A,
        rclass: Class::IN,
        ttl: 60,
        rdata: RData::A([93, 184, 216, 34]),
    };
    let buf = answer.serialize();
    assert_eq!(
        buf,
        b"\x07example\x03com\x00\x00\x01\x00\x01\x00\x00\x00\x3c\x00\
          \x04\x5d\xb8\xd8\x22"
    );
}

#[test]
fn a_record_of_wrong_length_is_rejected() {
    let mut buf: &[u8] = b"\x01a\x00\x00\x01\x00\x01\x00\x00\x00\x3c\x00\x05\x01\x02\x03\x04\x05";
    assert!(parse_dns_answer(&mut buf).is_err());
    let mut buf: &[u8] = b"\x01a\x00\x00\x01\x00\x01\x00\x00\x00\x3c\x00\x03\x01\x02\x03";
    assert!(parse_dns_answer(&mut buf).is_err());
}

#[test]
fn aaaa_record_of_wrong_length_is_rejected() {
    let mut buf: &[u8] = b"\x01a\x00\x00\x1c\x00\x01\x00\x00\x00\x3c\x00\x04\x01\x02\x03\x04";
    assert!(parse_dns_answer(&mut buf).is_err());
}

#[test]
fn aaaa_record_is_parsed() {
    let mut bytes = b"\x01a\x00\x00\x1c\x00\x01\x00\x00\x01\x00\x00\x10".to_vec();
    bytes.extend(1u8..=16);
    let mut buf: &[u8] = &bytes;
    let answer = parse_dns_answer(&mut buf).unwrap();
    assert_eq!(answer.rtype, Type::AAAA);
    assert_eq!(answer.ttl, 256);
    assert_eq!(
        answer.rdata,
        RData::AAAA([1, 2, 3, 4, 5, 6, 7, 8, 9, 10, 11, 12, 13, 14, 15, 16])
    );
    assert!(buf.is_empty());
}

#[test]
fn rdata_longer_than_buffer_is_rejected() {
    let mut buf: &[u8] = b"\x01a\x00\x00\x63\x00\x01\x00\x00\x00\x3c\x00\x09\x01\x02";
    assert!(parse_dns_answer(&mut buf).is_err());
}

#[test]
fn other_kind_keeps_its_bytes() {
    let mut buf: &[u8] = b"\x01a\x00\x00\x10\x00\x03\x00\x00\x00\x3c\x00\x03xyz\x99";
    let answer = parse_dns_answer(&mut buf).unwrap();
    assert_eq!(answer.rtype, Type::Other(16));
    assert_eq!(answer.rclass, Class::Other(3));
    assert_eq!(answer.rdata, RData::Other(b"xyz".to_vec()));
    assert_eq!(buf, &[0x99]);
    assert_eq!(
        answer.serialize(),
        b"\x01a\x00\x00\x10\x00\x03\x00\x00\x00\x3c\x00\x03xyz".to_vec()
    );
}

#[test]
fn cname_record_round_trips() {
    let answer = DnsAnswer {
        name: "alias.example.org".to_string(),
        rtype: Type::CNAME,
        rclass: Class::IN,
        ttl: 7,
        rdata: RData::CNAME("something-else.example.org".to_string()),
    };
    let bytes = answer.serialize();
    let mut buf: &[u8] = &bytes;
    assert_eq!(parse_dns_answer(&mut buf).unwrap(), answer);
    assert!(buf.is_empty());
}

#[test]
fn fixed_fields_cut_short_are_rejected() {
    let mut buf: &[u8] = b"\x01a\x00\x00\x01\x00\x01\x00";
    assert!(parse_dns_answer(&mut buf).is_err());
}
