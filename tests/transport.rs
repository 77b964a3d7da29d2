use toy_dns_server::{
    after_work, answer_frame, answer_message, frame_message, parse_dns_query, LoopAction, RData,
    Record, StreamBuffer, StreamError, Type, WorkKind, Zone, ZoneConfig,
};

fn store() -> ZoneConfig {
    let mut config = ZoneConfig::new();
    config.insert(
        "example.com".to_string(),
        Zone {
            ttl: None,
            records: vec![Record {
                name: "".to_string(),
                record_type: Type::A,
                rdata: RData::A([23, 192, 228, 80]),
            }],
        },
    );
    config
}

fn query_bytes(flags: u8) -> Vec<u8> {
    let mut data = vec![0x12, 0x34, flags, 0x00, 0x00, 0x01, 0x00, 0x00, 0x00, 0x00, 0x00, 0x00];
    data.extend_from_slice(b"\x07example\x03com\x00\x00\x01\x00\x01");
    data
}

#[test]
fn datagram_gets_its_reply() {
    let out = answer_message(&store(), &query_bytes(0x01)).unwrap().unwrap();
    let reply = parse_dns_query(&out).unwrap();
    assert_eq!(reply.header.transaction_id, 0x1234);
    assert!(reply.header.response);
    assert_eq!(reply.answers.len(), 1);
    assert_eq!(reply.answers[0].rdata, RData::A([23, 192, 228, 80]));
}

#[test]
fn response_datagram_gets_nothing() {
    assert_eq!(answer_message(&store(), &query_bytes(0x80)).unwrap(), None);
}

#[test]
fn malformed_datagram_is_an_error() {
    assert!(answer_message(&store(), &[0x12, 0x34, 0x01]).is_err());
    let mut data = query_bytes(0x01);
    data[3] = 0x40;
    assert!(answer_message(&store(), &data).is_err());
}

#[test]
fn frames_carry_their_length() {
    assert_eq!(frame_message(&[7, 8, 9]), vec![0, 3, 7, 8, 9]);
    assert_eq!(frame_message(&[]), vec![0, 0]);
}

#[test]
fn stream_frames_are_split() {
    let mut stream = StreamBuffer::new();
    stream.push(&[0, 2, 0xaa]);
    assert_eq!(stream.next_frame(), None);
    stream.push(&[0xbb, 0, 1, 0xcc, 0]);
    assert_eq!(stream.next_frame(), Some(vec![0xaa, 0xbb]));
    assert_eq!(stream.next_frame(), Some(vec![0xcc]));
    assert_eq!(stream.next_frame(), None);
    assert_eq!(stream.pending, vec![0]);
}

#[test]
fn stream_closed_mid_frame_is_unexpected_eof() {
    let mut stream = StreamBuffer::new();
    stream.push(&[0, 5, 1, 2, 3]);
    assert_eq!(stream.next_frame(), None);
    assert_eq!(stream.finish(), Err(StreamError::UnexpectedEof));
}

#[test]
fn stream_closed_between_frames_is_clean() {
    let mut stream = StreamBuffer::new();
    assert_eq!(stream.finish(), Ok(()));
    stream.push(&[0, 1, 9]);
    assert_eq!(stream.next_frame(), Some(vec![9]));
    assert_eq!(stream.finish(), Ok(()));
}

#[test]
fn stream_frame_is_answered_with_a_frame() {
    let query = query_bytes(0x01);
    let mut stream = StreamBuffer::new();
    stream.push(&frame_message(&query));
    let frame = stream.next_frame().unwrap();
    let out = answer_frame(&store(), &frame).unwrap().unwrap();
    let len = (out[0] as usize) * 256 + out[1] as usize;
    assert_eq!(len, out.len() - 2);
    let reply = parse_dns_query(&out[2..]).unwrap();
    assert_eq!(reply.answers.len(), 1);
}

#[test]
fn malformed_stream_frame_ends_the_connection() {
    match answer_frame(&store(), &[1, 2, 3]) {
        Err(StreamError::Malformed(_)) => {}
        other => panic!("unexpected {:?}", other),
    }
}

#[test]
fn datagram_failure_stops_serving() {
    assert_eq!(after_work(WorkKind::Datagram, true), LoopAction::Stop);
    assert_eq!(after_work(WorkKind::Datagram, false), LoopAction::KeepServing);
    assert_eq!(after_work(WorkKind::Stream, true), LoopAction::KeepServing);
    assert_eq!(after_work(WorkKind::Stream, false), LoopAction::KeepServing);
}
