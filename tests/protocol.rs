use broker::protocol::{
    Header, Message, MessageType, ProtocolError, Tlv, HEADER_LEN, MAGIC, VERSION,
};

fn job_push_header() -> Header {
    Header {
        magic: MAGIC,
        version: VERSION,
        msg_type: MessageType::JobPush,
        flags: 0,
        payload_len: 0,
    }
}

#[test]
fn test_header_encode() {
    let header = Header {
        magic: MAGIC,
        version: VERSION,
        msg_type: MessageType::JobAck,
        flags: 0,
        payload_len: 0,
    };

    let mut encoded_header: Vec<u8> = Vec::new();
    header.encode(&mut encoded_header);

    let expected: Vec<u8> = vec![
        b'R',
        b'B',
        b'Q',
        b'1',
        VERSION,
        MessageType::JobAck.to_u8(),
        0x00,
        0x00,
        0x00,
        0x00,
        0x00,
        0x00,
    ];

    assert_eq!(
        encoded_header, expected,
        "Encoded header did not match expected bytes"
    );
}

#[test]
fn test_header_decode() {
    let encoded: Vec<u8> = vec![
        b'R',
        b'B',
        b'Q',
        b'1',
        VERSION,
        MessageType::JobAck.to_u8(),
        0x00,
        0x00,
        0x00,
        0x00,
        0x00,
        0x00,
    ];
    let header = Header::decode(&encoded).unwrap();
    let expected = Header {
        magic: MAGIC,
        version: VERSION,
        msg_type: MessageType::JobAck,
        flags: 0,
        payload_len: 0,
    };
    assert_eq!(header, expected, "decoded was not matched");
}

#[test]
fn test_header_decode_with_wrong_magic() {
    let encoded: Vec<u8> = vec![
        b'B',
        b'A',
        b'A',
        b'D',
        VERSION,
        MessageType::JobAck.to_u8(),
        0x00,
        0x00,
        0x00,
        0x00,
        0x00,
        0x00,
    ];
    let header = Header::decode(&encoded);
    assert!(header.is_err());
}

#[test]
fn test_tlv_encode() {
    let tlv = Tlv {
        tag: 1,
        value: b"hello".to_vec(),
    };
    let mut buf = Vec::new();
    tlv.encode(&mut buf);
    let expected: Vec<u8> = vec![1, 0x00, 0x05, b'h', b'e', b'l', b'l', b'o'];
    assert_eq!(buf, expected, "encoded was not matched");
}

#[test]
fn test_tlv_decode() {
    let expected = vec![Tlv {
        tag: 1,
        value: b"hello".to_vec(),
    }];
    let encode: Vec<u8> = vec![1, 0x00, 0x05, b'h', b'e', b'l', b'l', b'o'];
    let decode = Tlv::decode(&encode).unwrap();
    assert_eq!(decode, expected, "encoded was not matched");
}

#[test]
fn test_roundtrip_job_push() {
    let msg = Message {
        header: job_push_header(),
        tlvs: vec![
            Tlv {
                tag: 0x01,
                value: b"job1".to_vec(),
            },
            Tlv {
                tag: 0x03,
                value: 100i32.to_be_bytes().to_vec(),
            },
            Tlv {
                tag: 0x07,
                value: 1u64.to_be_bytes().to_vec(),
            },
        ],
    };

    let encoded = msg.encode();
    let decoded = Message::decode(&encoded).unwrap();

    assert_eq!(decoded.header.msg_type, MessageType::JobPush);
    assert_eq!(decoded.tlvs[0].tag, 0x01);
    assert_eq!(String::from_utf8_lossy(&decoded.tlvs[0].value), "job1");
}

#[test]
fn message_round_trip_recomputes_payload_len() {
    let msg = Message {
        header: Header {
            magic: MAGIC,
            version: VERSION,
            msg_type: MessageType::JobAck,
            flags: 0,
            payload_len: 0,
        },
        tlvs: vec![
            Tlv { tag: 1, value: b"job1".to_vec() },
            Tlv { tag: 3, value: 100i32.to_be_bytes().to_vec() },
        ],
    };
    let encoded = msg.encode();
    assert_eq!(encoded.len(), HEADER_LEN + 3 + 4 + 3 + 4);
    let decoded = Message::decode(&encoded).unwrap();
    assert_eq!(decoded.header.payload_len, 14);
    assert_eq!(decoded.header.msg_type, MessageType::JobAck);
    assert_eq!(decoded.header.flags, 0);
    assert_eq!(decoded.header.magic, MAGIC);
    assert_eq!(decoded.tlvs, msg.tlvs);
}

#[test]
fn message_encode_exact_bytes() {
    let msg = Message {
        header: Header {
            magic: MAGIC,
            version: VERSION,
            msg_type: MessageType::Control,
            flags: 0x0102,
            payload_len: 999,
        },
        tlvs: vec![Tlv { tag: 9, value: vec![0xaa, 0xbb] }],
    };
    let expected: Vec<u8> = vec![
        0x52, 0x42, 0x51, 0x31, 0x01, 0x20, 0x01, 0x02, 0x00, 0x00, 0x00, 0x05, 0x09, 0x00,
        0x02, 0xaa, 0xbb,
    ];
    assert_eq!(msg.encode(), expected);
}

#[test]
fn message_without_fields_round_trips() {
    let msg = Message { header: job_push_header(), tlvs: vec![] };
    let encoded = msg.encode();
    assert_eq!(encoded.len(), 12);
    let decoded = Message::decode(&encoded).unwrap();
    assert!(decoded.tlvs.is_empty());
    assert_eq!(decoded.header.payload_len, 0);
}

#[test]
fn decode_leaves_trailing_bytes() {
    let msg = Message {
        header: job_push_header(),
        tlvs: vec![Tlv { tag: 1, value: b"a".to_vec() }],
    };
    let mut encoded = msg.encode();
    encoded.extend_from_slice(&[0xde, 0xad, 0xbe, 0xef]);
    let decoded = Message::decode(&encoded).unwrap();
    assert_eq!(decoded.tlvs.len(), 1);
    assert_eq!(decoded.tlvs[0].value, b"a".to_vec());
}

#[test]
fn header_flags_and_length_are_big_endian() {
    let header = Header {
        magic: MAGIC,
        version: VERSION,
        msg_type: MessageType::AiQuery,
        flags: 0xabcd,
        payload_len: 0x01020304,
    };
    let mut buf = Vec::new();
    header.encode(&mut buf);
    assert_eq!(&buf[4..], &[0x01, 0x10, 0xab, 0xcd, 0x01, 0x02, 0x03, 0x04]);
    assert_eq!(Header::decode(&buf).unwrap(), header);
}

fn valid_frame() -> Vec<u8> {
    Message {
        header: job_push_header(),
        tlvs: vec![Tlv { tag: 1, value: b"xy".to_vec() }],
    }
    .encode()
}

#[test]
fn decode_error_short_header() {
    let frame = valid_frame();
    assert_eq!(Message::decode(&frame[..11]).unwrap_err(), ProtocolError::ShortHeader);
    assert_eq!(Message::decode(&[]).unwrap_err(), ProtocolError::ShortHeader);
    assert_eq!(Header::decode(&frame[..5]).unwrap_err(), ProtocolError::ShortHeader);
}

#[test]
fn decode_error_bad_magic() {
    let mut frame = valid_frame();
    frame[3] = b'2';
    assert_eq!(Message::decode(&frame).unwrap_err(), ProtocolError::BadMagic);
}

#[test]
fn decode_error_wrong_version() {
    let mut frame = valid_frame();
    frame[4] = 2;
    assert_eq!(Message::decode(&frame).unwrap_err(), ProtocolError::WrongVersion);
}

#[test]
fn decode_error_unknown_type() {
    let mut frame = valid_frame();
    frame[5] = 0x05;
    assert_eq!(Message::decode(&frame).unwrap_err(), ProtocolError::UnknownType);
}

#[test]
fn decode_error_short_payload() {
    let frame = valid_frame();
    assert_eq!(
        Message::decode(&frame[..frame.len() - 1]).unwrap_err(),
        ProtocolError::ShortPayload
    );
}

#[test]
fn decode_error_short_tlv() {
    let mut frame = valid_frame();
    // announce a value one byte longer than the payload holds
    frame[14] = 3;
    assert_eq!(Message::decode(&frame).unwrap_err(), ProtocolError::ShortTlv);
    assert_eq!(Tlv::decode(&[1, 0]).unwrap_err(), ProtocolError::ShortTlv);
}

#[test]
fn tlv_decode_of_empty_payload_is_empty() {
    assert!(Tlv::decode(&[]).unwrap().is_empty());
}

#[test]
fn message_type_codes() {
    let all = [
        (MessageType::JobPush, 0x01u8),
        (MessageType::JobAck, 0x02),
        (MessageType::JobResult, 0x03),
        (MessageType::JobStatus, 0x04),
        (MessageType::AiQuery, 0x10),
        (MessageType::AiResponse, 0x11),
        (MessageType::Control, 0x20),
    ];
    for (t, b) in all {
        assert_eq!(t.to_u8(), b);
        assert_eq!(MessageType::from_u8(b), Some(t));
    }
    assert_eq!(MessageType::from_u8(0x00), None);
    assert_eq!(MessageType::from_u8(0x05), None);
    assert_eq!(MessageType::from_u8(0xff), None);
}

#[test]
fn storable_messages() {
    let ok = Message {
        header: job_push_header(),
        tlvs: vec![Tlv { tag: 1, value: b"k".to_vec() }],
    };
    assert!(ok.is_storable());
    let mut bad_magic = ok.clone();
    bad_magic.header.magic = *b"RBQ2";
    assert!(!bad_magic.is_storable());
    let mut bad_version = ok.clone();
    bad_version.header.version = 2;
    assert!(!bad_version.is_storable());
    let too_long = Message {
        header: job_push_header(),
        tlvs: vec![Tlv { tag: 1, value: vec![0; 0x10000] }],
    };
    assert!(!too_long.is_storable());
    let longest = Message {
        header: job_push_header(),
        tlvs: vec![Tlv { tag: 1, value: vec![7; 0xffff] }],
    };
    assert!(longest.is_storable());
    let decoded = Message::decode(&longest.encode()).unwrap();
    assert_eq!(decoded.tlvs[0].value.len(), 0xffff);
}
