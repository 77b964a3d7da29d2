use toy_dns_server::{
    construct_reply, parse_dns_query, Class, DnsAnswer, DnsHeader, DnsPacket, DnsQuestion, OpCode,
    RCode, RData, Record, Type, Zone, ZoneConfig,
};

fn v6(segments: [u16; 8]) -> [u8; 16] {
    let mut octets = [0u8; 16];
    for (i, s) in segments.iter().enumerate() {
        octets[2 * i] = (s >> 8) as u8;
        octets[2 * i + 1] = (s & 0xff) as u8;
    }
    octets
}

fn record(name: &str, record_type: Type, rdata: RData) -> Record {
    Record { name: name.to_string(), record_type, rdata }
}

fn example_zone() -> ZoneConfig {
    let mut config = ZoneConfig::new();
    config.insert(
        "example.com".to_string(),
        Zone {
            ttl: None,
            records: vec![
                record("", Type::A, RData::A([23, 192, 228, 80])),
                record("", Type::A, RData::A([23, 192, 228, 84])),
                record(
                    "",
                    Type::AAAA,
                    RData::AAAA(v6([0x2600, 0x1406, 0x5e00, 0x6, 0, 0, 0x17ce, 0xbc1b])),
                ),
                record(
                    "",
                    Type::AAAA,
                    RData::AAAA(v6([0x2600, 0x1406, 0xbc00, 0x53, 0, 0, 0xb81e, 0x94c8])),
                ),
                record("", Type::NS, RData::NS("a.iana-servers.net.".to_string())),
                record("", Type::NS, RData::NS("b.iana-servers.net.".to_string())),
            ],
        },
    );
    config.insert(
        "example.org".to_string(),
        Zone {
            ttl: Some(7),
            records: vec![
                record("", Type::A, RData::A([104, 20, 26, 109])),
                record("subdomain", Type::A, RData::A([172, 66, 157, 88])),
                record(
                    "alias",
                    Type::CNAME,
                    RData::CNAME("something-else.example.org".to_string()),
                ),
            ],
        },
    );
    config
}

fn example_query_bytes() -> Vec<u8> {
    let mut data = vec![0x75, 0x1e, 0x01, 0x00, 0x00, 0x01, 0x00, 0x00, 0x00, 0x00, 0x00, 0x01];
    data.extend_from_slice(b"\x07example\x03com\x00\x00\x01\x00\x01");
    data.extend_from_slice(&[0, 0, 41, 5, 192, 0, 0, 0, 0, 0, 0]);
    data
}

fn query_header(transaction_id: u16) -> DnsHeader {
    DnsHeader {
        transaction_id,
        response: false,
        opcode: OpCode::QUERY,
        authoritative_answer: false,
        truncation: false,
        recursion_desired: true,
        recursion_available: false,
        _reserved: false,
        authenticated_data: false,
        checking_disabled: false,
        rcode: RCode::NoError,
        qd_count: 1,
        an_count: 0,
        ns_count: 0,
        ar_count: 0,
    }
}

fn reply_header(transaction_id: u16, an_count: u16) -> DnsHeader {
    DnsHeader {
        transaction_id,
        response: true,
        opcode: OpCode::QUERY,
        authoritative_answer: false,
        truncation: false,
        recursion_desired: true,
        recursion_available: false,
        _reserved: false,
        authenticated_data: false,
        checking_disabled: false,
        rcode: RCode::NoError,
        qd_count: 1,
        an_count,
        ns_count: 0,
        ar_count: 0,
    }
}

fn question(name: &str, qtype: Type) -> DnsQuestion {
    DnsQuestion { qname: name.to_string(), qtype, qclass: Class::IN }
}

fn query_for(transaction_id: u16, name: &str, qtype: Type) -> DnsPacket {
    DnsPacket {
        header: query_header(transaction_id),
        questions: vec![question(name, qtype)],
        answers: vec![],
        unparsed: vec![],
    }
}

fn answer(name: &str, rtype: Type, ttl: u32, rdata: RData) -> DnsAnswer {
    DnsAnswer { name: name.to_string(), rclass: Class::IN, rtype, ttl, rdata }
}

#[test]
fn test_packet_parsing() {
    let data = example_query_bytes();
    let packet = parse_dns_query(&data).expect("Failed to parse DNS query");

    let mut header = query_header(0x751e);
    header.ar_count = 1;
    let expected = DnsPacket {
        header,
        questions: vec![question("example.com", Type::A)],
        answers: vec![],
        unparsed: vec![0, 0, 41, 5, 192, 0, 0, 0, 0, 0, 0],
    };

    assert_eq!(packet, expected);
}

#[test]
fn test_packet_serialization_roundtrip() {
    let data = example_query_bytes();
    let packet = parse_dns_query(&data).expect("Failed to parse DNS query");
    let serialized = packet.serialize();
    assert_eq!(serialized.as_slice(), data);
}

#[test]
fn test_reply_to_example() {
    let config = example_zone();
    let data = example_query_bytes();
    let query = parse_dns_query(&data).expect("Failed to parse DNS query");
    let reply = construct_reply(&config, &query).expect("Should construct a reply");

    let expected = DnsPacket {
        header: reply_header(0x751e, 2),
        questions: vec![question("example.com", Type::A)],
        answers: vec![
            answer("example.com", Type::A, 5, RData::A([23, 192, 228, 80])),
            answer("example.com", Type::A, 5, RData::A([23, 192, 228, 84])),
        ],
        unparsed: Vec::new(),
    };

    assert_eq!(reply, expected);
}

#[test]
fn test_reply_to_example_serialization_roundtrip() {
    let config = example_zone();
    let data = example_query_bytes();
    let query = parse_dns_query(&data).expect("Failed to parse DNS query");
    let reply = construct_reply(&config, &query).expect("Should construct a reply");

    let reply_serialized = reply.serialize();
    let reply_deserialized = parse_dns_query(&reply_serialized).unwrap();

    assert_eq!(reply, reply_deserialized);
}

#[test]
fn test_reply_aaaa_query() {
    let config = example_zone();
    let query = query_for(0x1234, "example.com", Type::AAAA);
    let reply = construct_reply(&config, &query).expect("Should construct a reply");

    let expected = DnsPacket {
        header: reply_header(0x1234, 2),
        questions: vec![question("example.com", Type::AAAA)],
        answers: vec![
            answer(
                "example.com",
                Type::AAAA,
                5,
                RData::AAAA(v6([0x2600, 0x1406, 0x5e00, 0x6, 0, 0, 0x17ce, 0xbc1b])),
            ),
            answer(
                "example.com",
                Type::AAAA,
                5,
                RData::AAAA(v6([0x2600, 0x1406, 0xbc00, 0x53, 0, 0, 0xb81e, 0x94c8])),
            ),
        ],
        unparsed: vec![],
    };

    assert_eq!(reply, expected);
}

#[test]
fn test_reply_ns_query() {
    let config = example_zone();
    let query = query_for(0x1234, "example.com", Type::NS);
    let reply = construct_reply(&config, &query).expect("Should construct a reply");

    let expected = DnsPacket {
        header: reply_header(0x1234, 2),
        questions: vec![question("example.com", Type::NS)],
        answers: vec![
            answer("example.com", Type::NS, 5, RData::NS("a.iana-servers.net.".to_string())),
            answer("example.com", Type::NS, 5, RData::NS("b.iana-servers.net.".to_string())),
        ],
        unparsed: vec![],
    };

    assert_eq!(reply, expected);
}

#[test]
fn test_reply_example_org_custom_ttl() {
    let config = example_zone();
    let query = query_for(0x5678, "example.org", Type::A);
    let reply = construct_reply(&config, &query).expect("Should construct a reply");

    let expected = DnsPacket {
        header: reply_header(0x5678, 1),
        questions: vec![question("example.org", Type::A)],
        answers: vec![answer("example.org", Type::A, 7, RData::A([104, 20, 26, 109]))],
        unparsed: vec![],
    };

    assert_eq!(reply, expected);
}

#[test]
fn test_reply_subdomain_query() {
    let config = example_zone();
    let query = query_for(0x9abc, "subdomain.example.org", Type::A);
    let reply = construct_reply(&config, &query).expect("Should construct a reply");

    let expected = DnsPacket {
        header: reply_header(0x9abc, 1),
        questions: vec![question("subdomain.example.org", Type::A)],
        answers: vec![answer(
            "subdomain.example.org",
            Type::A,
            7,
            RData::A([172, 66, 157, 88]),
        )],
        unparsed: vec![],
    };

    assert_eq!(reply, expected);
}

#[test]
fn test_reply_cname_query() {
    let config = example_zone();
    let query = query_for(0xdef0, "alias.example.org", Type::CNAME);
    let reply = construct_reply(&config, &query).expect("Should construct a reply");

    let expected = DnsPacket {
        header: reply_header(0xdef0, 1),
        questions: vec![question("alias.example.org", Type::CNAME)],
        answers: vec![answer(
            "alias.example.org",
            Type::CNAME,
            7,
            RData::CNAME("something-else.example.org".to_string()),
        )],
        unparsed: vec![],
    };

    assert_eq!(reply, expected);
}

#[test]
fn reply_for_unknown_name_is_nxdomain() {
    let config = example_zone();
    let query = query_for(0x0101, "nonexistent.com", Type::A);
    let reply = construct_reply(&config, &query).expect("Should construct a reply");
    assert_eq!(reply.header.rcode, RCode::NXDomain);
    assert!(reply.answers.is_empty());
    assert_eq!(reply.header.an_count, 0);
    assert_eq!(reply.header.qd_count, 1);
    assert!(reply.header.response);
}

#[test]
fn reply_to_two_questions_is_not_implemented() {
    let config = example_zone();
    let mut query = query_for(0x0202, "example.com", Type::A);
    query.questions.push(question("example.org", Type::A));
    query.header.qd_count = 2;
    let reply = construct_reply(&config, &query).expect("Should construct a reply");
    assert_eq!(reply.header.rcode, RCode::NotImp);
    assert!(reply.answers.is_empty());
    assert_eq!(reply.header.qd_count, 2);
    assert_eq!(reply.questions, query.questions);
}

#[test]
fn reply_to_no_question_is_not_implemented() {
    let config = example_zone();
    let mut query = query_for(0x0203, "example.com", Type::A);
    query.questions.clear();
    let reply = construct_reply(&config, &query).expect("Should construct a reply");
    assert_eq!(reply.header.rcode, RCode::NotImp);
    assert_eq!(reply.header.qd_count, 0);
}

#[test]
fn reply_to_other_class_is_refused() {
    let config = example_zone();
    let mut query = query_for(0x0303, "example.com", Type::A);
    query.questions[0].qclass = Class::Other(3);
    let reply = construct_reply(&config, &query).expect("Should construct a reply");
    assert_eq!(reply.header.rcode, RCode::Refused);
    assert!(reply.answers.is_empty());
}

#[test]
fn response_gets_no_reply() {
    let config = example_zone();
    let mut query = query_for(0x0404, "example.com", Type::A);
    query.header.response = true;
    assert!(construct_reply(&config, &query).is_none());
}

#[test]
fn reply_to_a_reply_is_none() {
    let config = example_zone();
    let query = query_for(0x0405, "example.com", Type::A);
    let reply = construct_reply(&config, &query).unwrap();
    assert!(construct_reply(&config, &reply).is_none());
}

#[test]
fn reply_clears_flags_and_keeps_identity() {
    let config = example_zone();
    let mut query = query_for(0x0506, "example.com", Type::A);
    query.header.opcode = OpCode::STATUS;
    query.header.authoritative_answer = true;
    query.header.truncation = true;
    query.header.recursion_desired = false;
    query.header.recursion_available = true;
    query.header.authenticated_data = true;
    query.header.checking_disabled = true;
    query.header.ns_count = 3;
    query.header.ar_count = 4;
    query.unparsed = vec![1, 2, 3];
    let reply = construct_reply(&config, &query).unwrap();
    assert_eq!(reply.header.transaction_id, 0x0506);
    assert_eq!(reply.header.opcode, OpCode::STATUS);
    assert!(!reply.header.authoritative_answer);
    assert!(!reply.header.truncation);
    assert!(!reply.header.recursion_desired);
    assert!(!reply.header.recursion_available);
    assert!(!reply.header.authenticated_data);
    assert!(!reply.header.checking_disabled);
    assert_eq!(reply.header.ns_count, 0);
    assert_eq!(reply.header.ar_count, 0);
    assert!(reply.unparsed.is_empty());
}

#[test]
fn reply_is_wire_exact() {
    let config = example_zone();
    let query = query_for(0x0607, "example.org", Type::A);
    let reply = construct_reply(&config, &query).unwrap();
    let mut expected = vec![0x06, 0x07, 0x81, 0x00, 0x00, 0x01, 0x00, 0x01, 0x00, 0x00, 0x00, 0x00];
    expected.extend_from_slice(b"\x07example\x03org\x00\x00\x01\x00\x01");
    expected.extend_from_slice(b"\x07example\x03org\x00\x00\x01\x00\x01\x00\x00\x00\x07\x00\x04");
    expected.extend_from_slice(&[104, 20, 26, 109]);
    assert_eq!(reply.serialize(), expected);
}

#[test]
fn subdomain_matches_only_its_full_name() {
    let config = example_zone();
    let reply = construct_reply(&config, &query_for(1, "subdomain.example.org", Type::A)).unwrap();
    assert_eq!(reply.answers.len(), 1);
    assert_eq!(reply.answers[0].rdata, RData::A([172, 66, 157, 88]));

    let reply = construct_reply(&config, &query_for(2, "example.org", Type::A)).unwrap();
    assert_eq!(reply.answers.len(), 1);
    assert_eq!(reply.answers[0].rdata, RData::A([104, 20, 26, 109]));

    let reply =
        construct_reply(&config, &query_for(3, "other.subdomain.example.org", Type::A)).unwrap();
    assert_eq!(reply.header.rcode, RCode::NXDomain);
    assert!(reply.answers.is_empty());
}
