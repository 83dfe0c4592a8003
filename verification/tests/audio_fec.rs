use kymux::audio_fec::{
    AudioFecReceiver, AudioFecSender, AudioSend, AudioStep, DatagramMsg, PendingGroup,
    DATAGRAM_HEADER_SIZE,
};
use kymux::av::{
    AVPacket, CodecPacket, CodecPacketHeader, HolePacketHeader, MediaPacket, MediaPacketHeader,
    HEADER_SIZE,
};
use kymux::fec::{Oti, PayloadId, MAX_PENDING_OBJECTS};

fn media_bytes(size: usize) -> Vec<u8> {
    let header = MediaPacketHeader {
        is_config: false,
        is_key: true,
        pts: 123,
        size: size as u32,
    };
    let mut data = header.serialize().to_vec();
    data.extend((0..size).map(|i| (i % 251) as u8));
    data
}

fn oti_of(o: &raptorq::ObjectTransmissionInformation) -> Oti {
    Oti {
        transfer_length: o.transfer_length(),
        symbol_size: o.symbol_size(),
        source_blocks: o.source_blocks(),
        sub_blocks: o.sub_blocks(),
        symbol_alignment: o.symbol_alignment(),
    }
}

fn id_of(p: &raptorq::PayloadId) -> PayloadId {
    PayloadId {
        source_block_number: p.source_block_number(),
        encoding_symbol_id: p.encoding_symbol_id(),
    }
}

fn datagram(
    header_size: usize,
    oti: &raptorq::ObjectTransmissionInformation,
    packet: &raptorq::EncodingPacket,
) -> Vec<u8> {
    let mut bytes = vec![0; header_size - 16];
    bytes.extend(oti.serialize());
    bytes.extend(packet.serialize());
    bytes
}

fn codec(frame_size: u16) -> AVPacket {
    AVPacket::Codec(CodecPacket {
        header: CodecPacketHeader {
            codec: 1,
            rotation: 0,
            frame_size,
        },
    })
}

fn config(size: usize) -> AVPacket {
    AVPacket::Media(MediaPacket {
        header: MediaPacketHeader {
            is_config: true,
            is_key: false,
            pts: 0,
            size: size as u32,
        },
        payload: vec![7; size],
    })
}

#[test]
fn audio_parser_rejects_every_short_header() {
    for size in 0..DATAGRAM_HEADER_SIZE {
        assert!(DatagramMsg::parse(&vec![0; size]).is_err());
    }
}

#[test]
fn audio_repairs_loss_and_rejects_changing_metadata() {
    let data = media_bytes(1500);
    let encoder = raptorq::Encoder::with_defaults(&data, 128);
    let raw_oti = encoder.get_config();
    let oti = oti_of(&raw_oti);
    let mut group = PendingGroup::new();
    let packets = encoder.get_encoded_packets(4);
    let (id, bytes) = packets[0].clone().split();
    group.insert_datagram(1, oti, id_of(&id), bytes, 0).unwrap();
    let changed = oti_of(&raptorq::ObjectTransmissionInformation::with_defaults(1024, 128));
    assert!(group.insert_datagram(1, changed, id_of(&id), vec![0; 128], 0).is_err());
    // Drop two originals, reorder everything else, include a duplicate.
    for packet in packets
        .into_iter()
        .rev()
        .filter(|p| ![1, 3].contains(&p.payload_id().encoding_symbol_id()))
    {
        let msg = DatagramMsg::parse(&datagram(DATAGRAM_HEADER_SIZE, &raw_oti, &packet)).unwrap();
        group.insert_datagram(1, msg.oti, msg.payload_id, msg.data, 0).unwrap();
    }
    assert_eq!(group.segments_len(), 0);
    assert_eq!(group.datagrams_len(), 1);
    assert!(group.insert_datagram(1, changed, id_of(&id), vec![0; 128], 0).is_err());
    let AVPacket::Media(packet) = &group.datagram_at(0).packet else {
        panic!("media missing");
    };
    assert_eq!(&packet.payload[..], &data[HEADER_SIZE..]);
}

#[test]
fn audio_object_budget_and_reconstructed_header_are_checked() {
    let oti = oti_of(&raptorq::ObjectTransmissionInformation::with_defaults(1000, 128));
    let first = PayloadId {
        source_block_number: 0,
        encoding_symbol_id: 0,
    };
    let mut group = PendingGroup::new();
    for seq in 0..MAX_PENDING_OBJECTS as u64 {
        group.insert_datagram(seq, oti, first, vec![0; 128], 0).unwrap();
    }
    assert!(group.insert_datagram(1000, oti, first, vec![0; 128], 0).is_err());
    group.drop_expired_segments(1000);
    group.insert_datagram(1000, oti, first, vec![0; 128], 0).unwrap();
    let encoder = raptorq::Encoder::with_defaults(&[0; 100], 128);
    let (id, bytes) = encoder.get_encoded_packets(0).remove(0).split();
    assert!(group
        .insert_datagram(1001, oti_of(&encoder.get_config()), id_of(&id), bytes, 0)
        .is_err());
}

#[test]
fn receiver_rejects_zero_frame_size() {
    let mut receiver = AudioFecReceiver::new();
    let err = receiver.on_stream_packet(0, codec(0)).unwrap_err();
    assert_eq!(err.0, "Invalid FEC media: zero audio frame size");
}

#[test]
fn receiver_forwards_codec_and_delivers_config_first() {
    let mut receiver = AudioFecReceiver::new();
    let forwarded = receiver.on_stream_packet(0, codec(480)).unwrap();
    assert!(matches!(forwarded, Some(AVPacket::Codec(_))));
    assert!(matches!(receiver.next_step(0).unwrap(), AudioStep::Wait(None)));
    assert!(receiver.on_stream_packet(0, config(4)).unwrap().is_none());
    match receiver.next_step(0).unwrap() {
        AudioStep::Deliver {
            kypacket_seq,
            missing_packets,
            hole,
            packet,
        } => {
            assert_eq!(kypacket_seq, 0);
            assert_eq!(missing_packets, 0);
            assert!(hole.is_none());
            assert!(matches!(packet, AVPacket::Media(m) if m.header.is_config));
        }
        other => panic!("unexpected {other:?}"),
    }
    assert!(matches!(receiver.next_step(0).unwrap(), AudioStep::Wait(None)));
}

#[test]
fn receiver_reports_holes_for_skipped_packets_after_the_deadline() {
    let mut receiver = AudioFecReceiver::new();
    receiver.on_stream_packet(0, codec(480)).unwrap();
    receiver.on_stream_packet(0, config(4)).unwrap();
    assert!(matches!(receiver.next_step(0).unwrap(), AudioStep::Deliver { .. }));

    // Packet 3 arrives complete; 1 and 2 never do.
    let data = media_bytes(200);
    let encoder = raptorq::Encoder::with_defaults(&data, 128);
    let raw_oti = encoder.get_config();
    for packet in encoder.get_encoded_packets(0) {
        let mut bytes = datagram(DATAGRAM_HEADER_SIZE, &raw_oti, &packet);
        bytes[2..6].copy_from_slice(&3u32.to_be_bytes());
        let msg = DatagramMsg::parse(&bytes).unwrap();
        assert_eq!(msg.raw_kypacket_seq, 3);
        let accepted = receiver
            .on_datagram(msg.raw_kypacket_seq, msg.oti, msg.payload_id, msg.data, 1_000)
            .unwrap();
        assert!(accepted);
    }
    // Before the buffering delay the receiver waits for the missing packets.
    match receiver.next_step(5_000).unwrap() {
        AudioStep::Wait(Some(deadline)) => assert_eq!(deadline, 11_000),
        other => panic!("unexpected {other:?}"),
    }
    match receiver.next_step(11_000).unwrap() {
        AudioStep::Deliver {
            kypacket_seq,
            missing_packets,
            hole,
            packet,
        } => {
            assert_eq!(kypacket_seq, 3);
            assert_eq!(missing_packets, 2);
            match hole {
                Some(AVPacket::Hole(h)) => assert_eq!(
                    h.header,
                    HolePacketHeader {
                        missing_audio_samples: 960
                    }
                ),
                other => panic!("unexpected {other:?}"),
            }
            let AVPacket::Media(m) = packet else {
                panic!("media missing")
            };
            assert_eq!(&m.payload[..], &data[HEADER_SIZE..]);
        }
        other => panic!("unexpected {other:?}"),
    }
    // A symbol of a packet already passed is dropped.
    let packet = &encoder.get_encoded_packets(0)[0];
    let mut bytes = datagram(DATAGRAM_HEADER_SIZE, &raw_oti, packet);
    bytes[2..6].copy_from_slice(&2u32.to_be_bytes());
    let msg = DatagramMsg::parse(&bytes).unwrap();
    assert!(!receiver
        .on_datagram(msg.raw_kypacket_seq, msg.oti, msg.payload_id, msg.data, 12_000)
        .unwrap());
}

#[test]
fn receiver_refuses_media_before_codec() {
    let mut receiver = AudioFecReceiver::new();
    receiver.on_stream_packet(0, config(4)).unwrap();
    let err = receiver.next_step(0).unwrap_err();
    assert_eq!(err.0, "Invalid FEC media: audio before codec");
}

#[test]
fn receiver_refuses_a_second_config() {
    let mut receiver = AudioFecReceiver::new();
    receiver.on_stream_packet(0, config(4)).unwrap();
    let err = receiver.on_stream_packet(1, config(4)).unwrap_err();
    assert_eq!(err.0, "Invalid FEC media: invalid or duplicate audio config");
}

#[test]
fn sender_frames_codec_config_and_media() {
    let mut sender = AudioFecSender::new();
    match sender.send(codec(480)) {
        AudioSend::Stream(bytes) => {
            assert_eq!(&bytes[..4], &[0, 0, 0, 0]);
            assert_eq!(bytes.len(), 4 + HEADER_SIZE);
        }
        other => panic!("unexpected {other:?}"),
    }
    match sender.send(config(3)) {
        AudioSend::Stream(bytes) => {
            assert_eq!(&bytes[..4], &[0, 0, 0, 0]);
            assert_eq!(bytes.len(), 4 + HEADER_SIZE + 3);
        }
        other => panic!("unexpected {other:?}"),
    }
    let media = AVPacket::Media(MediaPacket {
        header: MediaPacketHeader {
            is_config: false,
            is_key: true,
            pts: 123,
            size: 5,
        },
        payload: vec![1, 2, 3, 4, 5],
    });
    match sender.send(media) {
        AudioSend::Datagrams {
            kypacket_seq,
            object,
        } => {
            assert_eq!(kypacket_seq, 1);
            assert_eq!(object.len(), HEADER_SIZE + 5);
            assert_eq!(&object[HEADER_SIZE..], &[1, 2, 3, 4, 5]);
        }
        other => panic!("unexpected {other:?}"),
    }
}

#[test]
fn frame_datagram_lays_out_the_header() {
    let bytes = kymux::audio_fec::frame_datagram(0x0102, 0x0304_0506, &[9; 12], &[8; 4], &[7, 7]);
    assert_eq!(&bytes[..6], &[1, 2, 3, 4, 5, 6]);
    assert_eq!(bytes.len(), DATAGRAM_HEADER_SIZE + 2);
    let msg = DatagramMsg::parse(&bytes);
    assert!(msg.is_err());
}

fn feed_packet(receiver: &mut AudioFecReceiver, seq: u32, data: &[u8], now: u64) -> usize {
    let encoder = raptorq::Encoder::with_defaults(data, 128);
    let raw_oti = encoder.get_config();
    let packets = encoder.get_encoded_packets(0);
    for (i, packet) in packets.iter().enumerate() {
        let mut bytes = datagram(DATAGRAM_HEADER_SIZE, &raw_oti, packet);
        bytes[2..6].copy_from_slice(&seq.to_be_bytes());
        let msg = DatagramMsg::parse(&bytes).unwrap();
        assert!(receiver
            .on_datagram(msg.raw_kypacket_seq, msg.oti, msg.payload_id, msg.data, now)
            .unwrap());
        if i + 1 < packets.len() {
            // The packet is still incomplete: nothing to hand out.
            assert!(matches!(
                receiver.next_step(now).unwrap(),
                AudioStep::Wait(_)
            ));
        }
    }
    packets.len()
}

fn expect_delivery(step: AudioStep, seq: u64, missing: u64, data: &[u8]) {
    match step {
        AudioStep::Deliver {
            kypacket_seq,
            missing_packets,
            hole,
            packet,
        } => {
            assert_eq!(kypacket_seq, seq);
            assert_eq!(missing_packets, missing);
            if missing == 0 {
                assert!(hole.is_none());
            } else {
                match hole {
                    Some(AVPacket::Hole(h)) => assert_eq!(
                        h.header.missing_audio_samples,
                        (missing * 480) as u32
                    ),
                    other => panic!("unexpected {other:?}"),
                }
            }
            let AVPacket::Media(m) = packet else {
                panic!("media missing")
            };
            assert_eq!(&m.payload[..], &data[HEADER_SIZE..]);
        }
        other => panic!("unexpected {other:?}"),
    }
}

#[test]
fn receiver_collects_symbols_and_delivers_a_run_in_order() {
    let mut receiver = AudioFecReceiver::new();
    assert!(receiver.on_stream_packet(0, codec(480)).unwrap().is_some());
    receiver.on_stream_packet(0, config(4)).unwrap();
    assert!(matches!(receiver.next_step(0).unwrap(), AudioStep::Deliver { kypacket_seq: 0, .. }));

    // Packet 1 needs several symbols; it is handed out once all have come.
    let first = media_bytes(500);
    assert!(feed_packet(&mut receiver, 1, &first, 1_000) > 1);
    expect_delivery(receiver.next_step(1_000).unwrap(), 1, 0, &first);

    // Packets 4 and 5 complete; 2 and 3 never come.
    let fourth = media_bytes(300);
    let fifth = media_bytes(260);
    feed_packet(&mut receiver, 4, &fourth, 2_000);
    feed_packet(&mut receiver, 5, &fifth, 2_500);
    assert!(matches!(
        receiver.next_step(3_000).unwrap(),
        AudioStep::Wait(Some(12_000))
    ));
    expect_delivery(receiver.next_step(12_000).unwrap(), 4, 2, &fourth);
    expect_delivery(receiver.next_step(12_000).unwrap(), 5, 0, &fifth);
    assert!(matches!(receiver.next_step(12_000).unwrap(), AudioStep::Wait(None)));
}
