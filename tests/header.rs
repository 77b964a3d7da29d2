use toy_dns_server::{
    parse_dns_header, parse_dns_question, Class, DnsHeader, DnsQuestion, OpCode, RCode, Type,
};

#[test]
fn header_bits_are_decoded() {
    let mut buf: &[u8] = &[0xab, 0xcd, 0x97, 0xa5, 0, 1, 0, 2, 0, 3, 0, 4, 0xee];
    let h = parse_dns_header(&mut buf).unwrap();
    assert_eq!(h.transaction_id, 0xabcd);
    assert!(h.response);
    assert_eq!(h.opcode, OpCode::STATUS);
    assert!(h.authoritative_answer);
    assert!(h.truncation);
    assert!(h.recursion_desired);
    assert!(h.recursion_available);
    assert!(!h._reserved);
    assert!(h.authenticated_data);
    assert!(!h.checking_disabled);
    assert_eq!(h.rcode, RCode::Refused);
    assert_eq!((h.qd_count, h.an_count, h.ns_count, h.ar_count), (1, 2, 3, 4));
    assert_eq!(buf, &[0xee]);
    assert_eq!(h.serialize(), vec![0xab, 0xcd, 0x97, 0xa5, 0, 1, 0, 2, 0, 3, 0, 4]);
}

#[test]
fn reserved_bit_is_rejected() {
    let mut buf: &[u8] = &[0, 0, 0, 0x40, 0, 0, 0, 0, 0, 0, 0, 0];
    assert!(parse_dns_header(&mut buf).is_err());
}

#[test]
fn checking_disabled_is_accepted() {
    let mut buf: &[u8] = &[0, 0, 0, 0x10, 0, 0, 0, 0, 0, 0, 0, 0];
    let h = parse_dns_header(&mut buf).unwrap();
    assert!(h.checking_disabled);
}

#[test]
fn short_header_is_rejected() {
    let mut buf: &[u8] = &[0; 11];
    assert!(parse_dns_header(&mut buf).is_err());
}

#[test]
fn unknown_codes_collapse() {
    let mut buf: &[u8] = &[0, 0, 0x78, 0x0b, 0, 0, 0, 0, 0, 0, 0, 0];
    let h = parse_dns_header(&mut buf).unwrap();
    assert_eq!(h.opcode, OpCode::RESERVED);
    assert_eq!(h.rcode, RCode::RESERVED);
    assert_eq!(OpCode::RESERVED.to_u8(), 3);
    assert_eq!(RCode::RESERVED.to_u8(), 15);
    assert_eq!(RCode::NXDomain.to_u8(), 3);
}

#[test]
fn header_serialization_is_exact() {
    let h = DnsHeader {
        transaction_id: 0x0102,
        response: true,
        opcode: OpCode::IQUERY,
        authoritative_answer: false,
        truncation: false,
        recursion_desired: true,
        recursion_available: false,
        _reserved: false,
        authenticated_data: false,
        checking_disabled: true,
        rcode: RCode::NXDomain,
        qd_count: 0x0304,
        an_count: 0,
        ns_count: 0xffff,
        ar_count: 1,
    };
    assert_eq!(h.serialize(), vec![1, 2, 0x89, 0x13, 3, 4, 0, 0, 0xff, 0xff, 0, 1]);
}

#[test]
fn question_round_trip() {
    let mut buf: &[u8] = b"\x03www\x07example\x03com\x00\x00\x1c\x00\x01\x42";
    let q = parse_dns_question(&mut buf).unwrap();
    assert_eq!(
        q,
        DnsQuestion { qname: "www.example.com".to_string(), qtype: Type::AAAA, qclass: Class::IN }
    );
    assert_eq!(buf, &[0x42]);
    assert_eq!(q.serialize(), b"\x03www\x07example\x03com\x00\x00\x1c\x00\x01".to_vec());
}

#[test]
fn question_without_codes_is_rejected() {
    let mut buf: &[u8] = b"\x03com\x00\x00\x01\x00";
    assert!(parse_dns_question(&mut buf).is_err());
}

#[test]
fn codes_map_both_ways() {
    assert_eq!(Type::parse(1), Type::A);
    assert_eq!(Type::parse(2), Type::NS);
    assert_eq!(Type::parse(5), Type::CNAME);
    assert_eq!(Type::parse(28), Type::AAAA);
    assert_eq!(Type::parse(99), Type::Other(99));
    assert_eq!(Type::Other(99).to_u16(), 99);
    assert_eq!(Type::AAAA.to_u16(), 28);
    assert_eq!(Class::parse(1), Class::IN);
    assert_eq!(Class::parse(254), Class::Other(254));
    assert_eq!(Class::IN.to_u16(), 1);
}
