use udp_client::consts::HEADER_SIZE;
use udp_client::packet::{Crc32Sum, Data, DecodeError, EncodeToVec, Header, Packet, PacketType};

fn put_packet(file_id: u64, seq: u32, total: u32, bytes: Vec<u8>) -> Packet {
    Packet {
        header: Header { seq_number: seq, seq_total: total, type_: PacketType::PUT, file_id },
        data: Data::Ref(bytes),
    }
}

#[test]
fn serialized_size_is_seventeen() {
    assert_eq!(Header::serialized_size(), 17);
    assert_eq!(HEADER_SIZE, 17);
}

#[test]
fn encode_put_exact_bytes() {
    let p = put_packet(3, 1, 2, vec![0xAB]);
    let bytes = p.encode_to_vec();
    assert_eq!(
        bytes,
        vec![0, 0, 0, 1, 0, 0, 0, 2, 1, 0, 0, 0, 0, 0, 0, 0, 3, 0xAB],
    );
}

#[test]
fn encode_ack_crc_exact_bytes() {
    let p = Packet {
        header: Header { seq_number: 0, seq_total: 1, type_: PacketType::ACK, file_id: 256 },
        data: Data::Crs32(0x01020304),
    };
    let bytes = p.encode_to_vec();
    assert_eq!(
        bytes,
        vec![0, 0, 0, 0, 0, 0, 0, 1, 0, 0, 0, 0, 0, 0, 0, 1, 0, 1, 2, 3, 4],
    );
}

#[test]
fn round_trip_put() {
    let p = put_packet(7, 1, 3, vec![1, 2, 3]);
    let bytes = p.encode_to_vec();
    let q = Packet::decode_from_slice(&bytes).expect("a PUT decodes");
    assert_eq!(q.header, p.header);
    match q.data {
        Data::Copy(v) => assert_eq!(v, vec![1, 2, 3]),
        _ => panic!("a decoded PUT payload is an owned copy"),
    }
}

#[test]
fn round_trip_put_empty_payload() {
    let p = put_packet(0, 0, 1, vec![]);
    let bytes = p.encode_to_vec();
    assert_eq!(bytes.len(), 17);
    let q = Packet::decode_from_slice(&bytes).expect("decodes");
    assert_eq!(q.header, p.header);
    match q.data {
        Data::Copy(v) => assert_eq!(v.len(), 0),
        _ => panic!("a decoded PUT payload is an owned copy"),
    }
}

#[test]
fn round_trip_ack_with_checksum() {
    let p = Packet {
        header: Header { seq_number: 4, seq_total: 9, type_: PacketType::ACK, file_id: 11 },
        data: Data::Crs32(0xDEADBEEF),
    };
    let bytes = p.encode_to_vec();
    assert_eq!(bytes.len(), 21);
    let q = Packet::decode_from_slice(&bytes).expect("an ACK decodes");
    assert_eq!(q.header, p.header);
    match q.data {
        Data::Crs32(c) => assert_eq!(c, 0xDEADBEEF),
        _ => panic!("four trailing bytes decode as a checksum"),
    }
}

#[test]
fn round_trip_ack_bare() {
    let p = Packet {
        header: Header { seq_number: 2, seq_total: 5, type_: PacketType::ACK, file_id: 1 },
        data: Data::Empty,
    };
    let bytes = p.encode_to_vec();
    assert_eq!(bytes.len(), 17);
    let q = Packet::decode_from_slice(&bytes).expect("a bare ACK decodes");
    assert_eq!(q.header, p.header);
    assert!(matches!(q.data, Data::Empty));
}

#[test]
fn decode_too_short_is_error() {
    let bytes = vec![0u8; 16];
    assert!(matches!(Packet::decode_from_slice(&bytes), Err(DecodeError::TooShort)));
    assert!(matches!(Packet::decode_from_slice(&[]), Err(DecodeError::TooShort)));
}

#[test]
fn decode_unknown_type_is_error() {
    let mut bytes = vec![0u8; 17];
    bytes[8] = 5;
    assert!(matches!(
        Packet::decode_from_slice(&bytes),
        Err(DecodeError::UnknownPacketType),
    ));
    bytes[8] = 0xff;
    assert!(matches!(
        Packet::decode_from_slice(&bytes),
        Err(DecodeError::UnknownPacketType),
    ));
}

#[test]
fn ack_with_short_trailer_is_bare() {
    let p = Packet {
        header: Header { seq_number: 0, seq_total: 1, type_: PacketType::ACK, file_id: 0 },
        data: Data::Empty,
    };
    let mut bytes = p.encode_to_vec();
    bytes.push(1);
    bytes.push(2);
    bytes.push(3);
    let q = Packet::decode_from_slice(&bytes).expect("decodes");
    assert!(matches!(q.data, Data::Empty));
}

#[test]
fn crc32_matches_known_check_value() {
    // The iSCSI (Castagnoli) CRC32 of "123456789" is the catalogued check
    // value 0xE3069283.
    let packets = vec![put_packet(0, 0, 1, b"123456789".to_vec())];
    assert_eq!(packets.crc32(), 0xE3069283);
}

#[test]
fn crc32_concatenates_chunks_in_order() {
    let packets = vec![
        put_packet(0, 0, 2, b"1234".to_vec()),
        put_packet(0, 1, 2, b"56789".to_vec()),
    ];
    assert_eq!(packets.crc32(), 0xE3069283);
    let reversed = vec![
        put_packet(0, 1, 2, b"56789".to_vec()),
        put_packet(0, 0, 2, b"1234".to_vec()),
    ];
    assert_ne!(reversed.crc32(), 0xE3069283);
}

#[test]
fn crc32_skips_non_chunk_payloads() {
    let packets = vec![
        put_packet(0, 0, 1, b"123456789".to_vec()),
        Packet {
            header: Header { seq_number: 0, seq_total: 1, type_: PacketType::ACK, file_id: 0 },
            data: Data::Crs32(77),
        },
        Packet {
            header: Header { seq_number: 0, seq_total: 1, type_: PacketType::ACK, file_id: 0 },
            data: Data::Empty,
        },
    ];
    assert_eq!(packets.crc32(), 0xE3069283);
}
