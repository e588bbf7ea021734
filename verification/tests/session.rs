use udp_client::consts::MAX_PACKET_DATA_SIZE;
use udp_client::packet::{Data, EncodeToVec, Header, Packet, PacketType};
use udp_client::packets_view::PacketsSource;
use udp_client::sender::{
    calc_hashes_for_files, collect_packets, OnePacketSender, PacketsSender, SenderAction,
    SenderEvent,
};

fn bytes_of_len(len: usize) -> Vec<u8> {
    (0..len).map(|i| (i % 251) as u8).collect()
}

fn put_packet(file_id: u64, seq: u32, total: u32, bytes: Vec<u8>) -> Packet {
    Packet {
        header: Header { seq_number: seq, seq_total: total, type_: PacketType::PUT, file_id },
        data: Data::Ref(bytes),
    }
}

fn ack_bytes(file_id: u64, seq: u32) -> Vec<u8> {
    Packet {
        header: Header { seq_number: seq, seq_total: 0, type_: PacketType::ACK, file_id },
        data: Data::Empty,
    }
    .encode_to_vec()
}

fn crc_ack_bytes(file_id: u64, crc: u32) -> Vec<u8> {
    Packet {
        header: Header { seq_number: 0, seq_total: 0, type_: PacketType::ACK, file_id },
        data: Data::Crs32(crc),
    }
    .encode_to_vec()
}

#[test]
fn expected_crc_is_order_independent() {
    let in_order = vec![
        put_packet(0, 0, 2, b"1234".to_vec()),
        put_packet(0, 1, 2, b"56789".to_vec()),
        put_packet(1, 0, 1, b"xyz".to_vec()),
    ];
    let shuffled = vec![
        put_packet(1, 0, 1, b"xyz".to_vec()),
        put_packet(0, 1, 2, b"56789".to_vec()),
        put_packet(0, 0, 2, b"1234".to_vec()),
    ];
    let h1 = calc_hashes_for_files(&in_order);
    let h2 = calc_hashes_for_files(&shuffled);
    assert_eq!(h1.get(&0), h2.get(&0));
    assert_eq!(h1.get(&1), h2.get(&1));
    // The chunks of file 0 hash in ascending sequence order in both cases.
    assert_eq!(h1.get(&0), Some(&0xE3069283));
}

#[test]
fn retransmit_after_timeout_then_complete() {
    // The first transmission is lost: the ack wait times out, the sender
    // retransmits once, and the ack of the retransmission completes it.
    let mut sender = OnePacketSender::new(put_packet(0, 0, 1, bytes_of_len(10)));
    assert!(matches!(sender.step(SenderEvent::Transmitted), SenderAction::WaitForAck));
    assert!(matches!(sender.step(SenderEvent::TimedOut), SenderAction::Retransmit));
    assert!(!sender.is_done());
    assert!(matches!(sender.step(SenderEvent::Transmitted), SenderAction::WaitForAck));
    assert!(matches!(sender.step(SenderEvent::AckArrived(0, 0)), SenderAction::Finish));
    assert!(sender.is_done());
}

#[test]
fn duplicate_ack_is_ignored() {
    let mut sender = OnePacketSender::new(put_packet(3, 2, 5, bytes_of_len(4)));
    assert!(matches!(sender.step(SenderEvent::Transmitted), SenderAction::WaitForAck));
    assert!(matches!(sender.step(SenderEvent::AckArrived(3, 2)), SenderAction::Finish));
    assert!(sender.is_done());
    // The duplicate is absorbed in silence: no action, no error, still done.
    assert!(matches!(sender.step(SenderEvent::AckArrived(3, 2)), SenderAction::Ignore));
    assert!(sender.is_done());
}

#[test]
fn wrong_key_ack_keeps_waiting() {
    let mut sender = OnePacketSender::new(put_packet(1, 1, 2, bytes_of_len(4)));
    assert!(matches!(sender.step(SenderEvent::Transmitted), SenderAction::WaitForAck));
    assert!(matches!(sender.step(SenderEvent::AckArrived(1, 0)), SenderAction::WarnWrongAck));
    assert!(!sender.is_done());
    assert!(matches!(sender.step(SenderEvent::AckArrived(1, 1)), SenderAction::Finish));
    assert!(sender.is_done());
}

#[test]
fn transmit_failure_is_fatal() {
    let mut sender = OnePacketSender::new(put_packet(0, 0, 1, bytes_of_len(4)));
    assert!(matches!(sender.step(SenderEvent::TransmitFailed), SenderAction::Fatal));
    assert!(sender.is_done());
}

#[test]
fn first_failure_wins() {
    let packets = vec![put_packet(0, 0, 1, bytes_of_len(4))];
    let mut session = PacketsSender::new(packets, 50);
    assert!(session.record_failure());
    // A later error is discarded.
    assert!(!session.record_failure());
}

#[test]
fn repeated_checksum_raises_one_diagnostic() {
    let packets = vec![put_packet(0, 0, 1, bytes_of_len(4))];
    let mut session = PacketsSender::new(packets, 50);
    assert!(session.record_received_crc(0, 123));
    assert!(!session.record_received_crc(0, 123));
    // A differing value is reported again; a repeat of it is not.
    assert!(session.record_received_crc(0, 124));
    assert!(!session.record_received_crc(0, 124));
}

#[test]
fn malformed_datagram_is_dropped() {
    let packets = vec![put_packet(0, 0, 1, bytes_of_len(4))];
    let mut session = PacketsSender::new(packets, 50);
    let out = session.handle_datagram(&[1, 2, 3]);
    assert!(out.decoded.is_none());
    assert!(out.diagnostic.is_none());
    assert!(out.route_to.is_none());
    let mut unknown_type = vec![0u8; 17];
    unknown_type[8] = 9;
    let out = session.handle_datagram(&unknown_type);
    assert!(out.decoded.is_none());
}

#[test]
fn unmatched_ack_is_not_routed() {
    let packets = vec![put_packet(0, 0, 1, bytes_of_len(4))];
    let mut session = PacketsSender::new(packets, 50);
    let out = session.handle_datagram(&ack_bytes(9, 9));
    assert!(out.decoded.is_some());
    assert!(out.route_to.is_none());
}

#[test]
fn scenario_immediate_acks_complete_session() {
    // Two files of 10 and 3000 bytes; the server acks every PUT at once and
    // sends one whole-file checksum per file. The session is complete when
    // the finished-sender count reaches the packet count, whatever order the
    // checksum acks arrive in.
    let files = vec![
        PacketsSource::new(0, MAX_PACKET_DATA_SIZE, bytes_of_len(10)),
        PacketsSource::new(1, MAX_PACKET_DATA_SIZE, bytes_of_len(3000)),
    ];
    let packets = collect_packets(&files);
    assert_eq!(packets.len(), 4);
    let mut session = PacketsSender::new(packets, 50);
    assert_eq!(session.timeout_ms(), 50);
    let n = session.num_senders();
    assert_eq!(n, 4);

    let keys: Vec<(u64, u32)> = (0..n)
        .map(|i| {
            let p = session.sender_packet(i);
            (p.header.file_id, p.header.seq_number)
        })
        .collect();

    for i in 0..n {
        assert!(matches!(session.step_sender(i, SenderEvent::Transmitted), SenderAction::WaitForAck));
    }
    for (f, q) in keys.iter() {
        let out = session.handle_datagram(&ack_bytes(*f, *q));
        assert!(out.diagnostic.is_none());
        let i = out.route_to.expect("every per-packet ack routes to its sender");
        assert!(matches!(
            session.step_sender(i, SenderEvent::AckArrived(*f, *q)),
            SenderAction::Finish,
        ));
        session.sender_finished();
    }
    // The whole-file checksums arrive late, file 1 before file 0.
    let e1 = session.expected_crc(1);
    let out = session.handle_datagram(&crc_ack_bytes(1, e1));
    assert_eq!(out.diagnostic, Some((1, e1, e1)));
    let e0 = session.expected_crc(0);
    let out = session.handle_datagram(&crc_ack_bytes(0, e0));
    assert_eq!(out.diagnostic, Some((0, e0, e0)));
    // Late deliveries reach a finished sender and are dropped in silence.
    if let Some(i) = out.route_to {
        assert!(matches!(
            session.step_sender(i, SenderEvent::AckArrived(0, 0)),
            SenderAction::Ignore,
        ));
    }
    assert!(session.all_sent());
}

#[test]
fn scenario_one_silent_key_blocks_completion() {
    // The server never acks packet (file 1, seq 2): every other sender
    // completes, the silent one retransmits without bound, and the session
    // never reaches completion by itself.
    let files = vec![
        PacketsSource::new(0, MAX_PACKET_DATA_SIZE, bytes_of_len(10)),
        PacketsSource::new(1, MAX_PACKET_DATA_SIZE, bytes_of_len(3000)),
    ];
    let packets = collect_packets(&files);
    let mut session = PacketsSender::new(packets, 50);
    let n = session.num_senders();

    let keys: Vec<(u64, u32)> = (0..n)
        .map(|i| {
            let p = session.sender_packet(i);
            (p.header.file_id, p.header.seq_number)
        })
        .collect();

    for i in 0..n {
        session.step_sender(i, SenderEvent::Transmitted);
    }
    for (i, (f, q)) in keys.iter().enumerate() {
        if *f == 1 && *q == 2 {
            continue;
        }
        let out = session.handle_datagram(&ack_bytes(*f, *q));
        let j = out.route_to.expect("acked packets route");
        assert_eq!(i, j);
        assert!(matches!(
            session.step_sender(j, SenderEvent::AckArrived(*f, *q)),
            SenderAction::Finish,
        ));
        session.sender_finished();
    }
    assert!(!session.all_sent());
    // The silent packet's sender keeps retrying on every timeout.
    let silent = keys.iter().position(|k| *k == (1, 2)).expect("key exists");
    for _ in 0..3 {
        assert!(matches!(
            session.step_sender(silent, SenderEvent::TimedOut),
            SenderAction::Retransmit,
        ));
        assert!(matches!(
            session.step_sender(silent, SenderEvent::Transmitted),
            SenderAction::WaitForAck,
        ));
    }
    assert!(!session.sender_done(silent));
    assert!(!session.all_sent());
}

#[test]
fn session_expected_crcs_match_files() {
    let files = vec![
        PacketsSource::new(0, 4, b"12345678".to_vec()),
        PacketsSource::new(1, 4, b"9".to_vec()),
    ];
    let packets = collect_packets(&files);
    assert_eq!(packets.len(), 3);
    let session = PacketsSender::new(packets, 1000);
    // Chunks hash in ascending sequence order: together the two files hold
    // "123456789" split as "1234", "5678" and "9".
    let whole = vec![put_packet(7, 0, 1, b"123456789".to_vec())];
    let expected_whole = calc_hashes_for_files(&whole);
    let h8 = calc_hashes_for_files(&vec![
        put_packet(0, 0, 2, b"1234".to_vec()),
        put_packet(0, 1, 2, b"5678".to_vec()),
    ]);
    assert_eq!(session.expected_crc(0), *h8.get(&0).unwrap());
    assert_eq!(*expected_whole.get(&7).unwrap(), 0xE3069283);
    // A file absent from the session reports zero.
    assert_eq!(session.expected_crc(9), 0);
}
