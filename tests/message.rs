use nsm::message::{decode, encode, header_from_tag, tag_of, u64_to_be_bytes, Message, MessageHeader, ProtocolError};

fn msg(header: MessageHeader, body: &[u8]) -> Message {
    Message { header, body: body.to_vec() }
}

#[test]
fn encode_exact_bytes() {
    let bytes = encode(&msg(MessageHeader::HB, b"xy"));
    assert_eq!(bytes, vec![3, 0, 0, 0, 0, 0, 0, 0, 2, b'x', b'y']);
    let empty = encode(&msg(MessageHeader::PUB, b""));
    assert_eq!(empty, vec![0, 0, 0, 0, 0, 0, 0, 0, 0]);
}

#[test]
fn round_trip_every_header() {
    let headers = [
        MessageHeader::PUB,
        MessageHeader::CLAIM,
        MessageHeader::ACK,
        MessageHeader::HB,
        MessageHeader::NULL,
    ];
    for h in headers {
        let m = msg(h, b"{\"key\":42}");
        let bytes = encode(&m);
        let (back, n) = decode(&bytes).unwrap();
        assert_eq!(back.header, h);
        assert_eq!(back.body, m.body);
        assert_eq!(n, bytes.len());
    }
}

#[test]
fn round_trip_leaves_following_bytes() {
    let mut bytes = encode(&msg(MessageHeader::CLAIM, b"abc"));
    let first_len = bytes.len();
    bytes.extend(encode(&msg(MessageHeader::ACK, b"")));
    let (m, n) = decode(&bytes).unwrap();
    assert_eq!(m.header, MessageHeader::CLAIM);
    assert_eq!(m.body, b"abc".to_vec());
    assert_eq!(n, first_len);
    let (m2, n2) = decode(&bytes[n..]).unwrap();
    assert_eq!(m2.header, MessageHeader::ACK);
    assert!(m2.body.is_empty());
    assert_eq!(n2, 9);
}

#[test]
fn decode_empty_input() {
    assert_eq!(decode(&[]).unwrap_err(), ProtocolError::MissingHeader);
}

#[test]
fn decode_unknown_header() {
    assert_eq!(decode(&[9, 0, 0, 0, 0, 0, 0, 0, 0]).unwrap_err(), ProtocolError::UnknownHeader(9));
}

#[test]
fn decode_truncated_length() {
    assert_eq!(decode(&[3, 0, 0, 0]).unwrap_err(), ProtocolError::TruncatedLength);
}

#[test]
fn decode_truncated_body() {
    assert_eq!(decode(&[3, 0, 0, 0, 0, 0, 0, 0, 3, b'x']).unwrap_err(), ProtocolError::TruncatedBody);
    let huge = [3, 255, 255, 255, 255, 255, 255, 255, 255];
    assert_eq!(decode(&huge).unwrap_err(), ProtocolError::TruncatedBody);
}

#[test]
fn tags_round_trip() {
    assert_eq!(tag_of(MessageHeader::NULL), 4);
    assert_eq!(header_from_tag(1), Some(MessageHeader::CLAIM));
    assert_eq!(header_from_tag(5), None);
}

#[test]
fn big_endian_bytes() {
    assert_eq!(u64_to_be_bytes(0x0102030405060708), vec![1, 2, 3, 4, 5, 6, 7, 8]);
    assert_eq!(u64_to_be_bytes(1), vec![0, 0, 0, 0, 0, 0, 0, 1]);
}

#[test]
fn prefix_gives_body_length() {
    let bytes = encode(&msg(MessageHeader::ACK, b"hello"));
    assert_eq!(nsm::message::decode_prefix(&bytes[..9]).unwrap(), (MessageHeader::ACK, 5));
    assert_eq!(nsm::message::decode_prefix(&bytes[..4]).unwrap_err(), ProtocolError::TruncatedLength);
}
