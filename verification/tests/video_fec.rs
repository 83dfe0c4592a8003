use kymux::audio_fec::Action;
use kymux::av::{
    AVPacket, CodecPacket, CodecPacketHeader, MediaPacket, MediaPacketHeader, HEADER_SIZE,
};
use kymux::fec::{Oti, PayloadId, MAX_PENDING_GROUPS, MAX_PENDING_OBJECTS, MAX_VIDEO_PAYLOAD};
use kymux::video_fec::{
    frame_datagram, DatagramMsg, PendingGroups, VideoFecReceiver, VideoFecSender, VideoSend,
    VideoStep, DATAGRAM_HEADER_SIZE,
};

fn media_bytes(size: usize) -> Vec<u8> {
    let header = MediaPacketHeader {
        is_config: false,
        is_key: true,
        pts: 123,
        size: size as u32,
    };
    let mut data = header.serialize().to_vec();
    data.extend((0..size).map(|i| (i % 251) as u8));
    data
}

fn oti_of(o: &raptorq::ObjectTransmissionInformation) -> Oti {
    Oti {
        transfer_length: o.transfer_length(),
        symbol_size: o.symbol_size(),
        source_blocks: o.source_blocks(),
        sub_blocks: o.sub_blocks(),
        symbol_alignment: o.symbol_alignment(),
    }
}

fn id_of(p: &raptorq::PayloadId) -> PayloadId {
    PayloadId {
        source_block_number: p.source_block_number(),
        encoding_symbol_id: p.encoding_symbol_id(),
    }
}

fn datagram(
    header_size: usize,
    oti: &raptorq::ObjectTransmissionInformation,
    packet: &raptorq::EncodingPacket,
) -> Vec<u8> {
    let mut bytes = vec![0; header_size - 16];
    bytes.extend(oti.serialize());
    bytes.extend(packet.serialize());
    bytes
}

fn config() -> AVPacket {
    AVPacket::Media(MediaPacket {
        header: MediaPacketHeader {
            is_config: true,
            is_key: true,
            pts: 0,
            size: 0,
        },
        payload: Vec::new(),
    })
}

fn codec() -> AVPacket {
    AVPacket::Codec(CodecPacket {
        header: CodecPacketHeader {
            codec: 2,
            rotation: 0,
            frame_size: 0,
        },
    })
}

fn first_symbol() -> PayloadId {
    PayloadId {
        source_block_number: 0,
        encoding_symbol_id: 0,
    }
}

#[test]
fn video_parser_rejects_every_short_header() {
    for size in 0..DATAGRAM_HEADER_SIZE {
        assert!(DatagramMsg::parse(&vec![0; size]).is_err());
    }
}

#[test]
fn video_object_metadata_cannot_change_before_or_after_reassembly() {
    let data = media_bytes(1000);
    let encoder = raptorq::Encoder::with_defaults(&data, 128);
    let raw_oti = encoder.get_config();
    let oti = oti_of(&raw_oti);
    let mut groups = PendingGroups::new();
    let packets = encoder.get_encoded_packets(3);
    let (id, bytes) = packets[0].clone().split();
    groups
        .insert_datagram(1, 1, oti, id_of(&id), bytes.clone(), 0)
        .unwrap();
    let changed = oti_of(&raptorq::ObjectTransmissionInformation::with_defaults(1024, 128));
    assert!(groups
        .insert_datagram(1, 1, changed, id_of(&id), bytes.clone(), 0)
        .is_err());
    assert!(groups
        .insert_datagram(2, 1, oti, id_of(&id), bytes, 0)
        .is_err());
    for packet in packets {
        let msg = DatagramMsg::parse(&datagram(DATAGRAM_HEADER_SIZE, &raw_oti, &packet)).unwrap();
        groups
            .insert_datagram(1, 1, msg.oti, msg.payload_id, msg.data, 0)
            .unwrap();
    }
    assert_eq!(groups.group_at(0).segments_len(), 0);
    assert_eq!(groups.group_at(0).datagrams_len(), 1);
    assert!(groups
        .insert_datagram(1, 1, changed, id_of(&id), vec![0; 128], 0)
        .is_err());
    groups.insert_stream_packet(1, 0, config()).unwrap();
    assert!(groups.insert_stream_packet(1, 0, config()).is_err());
    assert!(matches!(
        groups.take_next_packet(0, 0),
        Action::Packet {
            kypacket_seq: 0,
            ..
        }
    ));
    let Action::Packet {
        packet: AVPacket::Media(packet),
        ..
    } = groups.take_next_packet(1, 0)
    else {
        panic!("media missing");
    };
    assert_eq!(&packet.payload[..], &data[HEADER_SIZE..]);
    assert_eq!(groups.group_at(0).usage(), (0, 0));
}

#[test]
fn video_pending_count_groups_and_byte_reservations_are_bounded() {
    let oti = oti_of(&raptorq::ObjectTransmissionInformation::with_defaults(1000, 128));
    let mut groups = PendingGroups::new();
    for seq in 0..MAX_PENDING_OBJECTS as u64 {
        groups
            .insert_datagram(1, seq, oti, first_symbol(), vec![0; 128], 0)
            .unwrap();
    }
    assert!(groups
        .insert_datagram(1, 1000, oti, first_symbol(), vec![0; 128], 0)
        .is_err());
    // Removing old segments restores capacity (no monotonically growing charge).
    groups.drop_expired_segments(0, 1000);
    groups
        .insert_datagram(1, 1000, oti, first_symbol(), vec![0; 128], 0)
        .unwrap();
    let mut groups = PendingGroups::new();
    for group in 0..MAX_PENDING_GROUPS as u64 {
        groups.prepare_pending_group(group).unwrap();
    }
    assert!(groups.prepare_pending_group(1000).is_err());

    let large = oti_of(&raptorq::ObjectTransmissionInformation::with_defaults(
        (MAX_VIDEO_PAYLOAD + HEADER_SIZE) as u64,
        1280,
    ));
    let mut groups = PendingGroups::new();
    groups
        .insert_datagram(1, 0, large, first_symbol(), vec![0; 1280], 0)
        .unwrap();
    assert!(groups
        .insert_datagram(1, 1, large, first_symbol(), vec![0; 1280], 0)
        .is_err());
    assert_eq!(groups.group_at(0).segments_len(), 1);
}

#[test]
fn video_reassembly_rejects_forged_media_header() {
    let encoder = raptorq::Encoder::with_defaults(&[0; 100], 128);
    let oti = oti_of(&encoder.get_config());
    let (id, bytes) = encoder.get_encoded_packets(0).remove(0).split();
    let mut groups = PendingGroups::new();
    assert!(groups
        .insert_datagram(1, 1, oti, id_of(&id), bytes, 0)
        .is_err());
    assert_eq!(groups.group_at(0).datagrams_len(), 0);
}

/// Feeds every source symbol of `data` as packet `seq` of group `group`.
fn feed(receiver: &mut VideoFecReceiver, seq: u32, group: u32, data: &[u8], now: u64) {
    let encoder = raptorq::Encoder::with_defaults(data, 128);
    let raw_oti = encoder.get_config();
    for packet in encoder.get_encoded_packets(0) {
        let (id, symbol) = packet.split();
        let bytes = frame_datagram(
            7,
            seq,
            group,
            &raw_oti.serialize(),
            &id.serialize(),
            &symbol,
        );
        let msg = DatagramMsg::parse(&bytes).unwrap();
        assert_eq!(msg.raw_kypacket_seq, seq);
        assert_eq!(msg.raw_group_seq, group);
        let accepted = receiver
            .on_datagram(
                msg.raw_kypacket_seq,
                msg.raw_group_seq,
                msg.oti,
                msg.payload_id,
                msg.data,
                now,
            )
            .unwrap();
        assert!(accepted);
    }
}

#[test]
fn video_receiver_forwards_codec_and_delivers_config_then_media() {
    let mut receiver = VideoFecReceiver::new();
    let forwarded = receiver.on_stream_packet(0, 0, codec()).unwrap();
    assert!(matches!(forwarded, Some(AVPacket::Codec(_))));
    assert!(matches!(receiver.next_step(0), VideoStep::Wait(None)));
    assert!(receiver.on_stream_packet(0, 1, config()).unwrap().is_none());
    let data = media_bytes(300);
    feed(&mut receiver, 1, 1, &data, 10);
    match receiver.next_step(20) {
        VideoStep::Deliver {
            kypacket_seq,
            missing_packets,
            packet,
        } => {
            assert_eq!(kypacket_seq, 0);
            assert_eq!(missing_packets, 0);
            assert!(matches!(packet, AVPacket::Media(m) if m.header.is_config));
        }
        other => panic!("unexpected {other:?}"),
    }
    match receiver.next_step(20) {
        VideoStep::Deliver {
            kypacket_seq,
            missing_packets,
            packet: AVPacket::Media(m),
        } => {
            assert_eq!(kypacket_seq, 1);
            assert_eq!(missing_packets, 0);
            assert_eq!(&m.payload[..], &data[HEADER_SIZE..]);
        }
        other => panic!("unexpected {other:?}"),
    }
    assert!(matches!(receiver.next_step(20), VideoStep::Wait(None)));
}

#[test]
fn video_receiver_skips_missing_packets_after_the_deadline() {
    let mut receiver = VideoFecReceiver::new();
    receiver.on_stream_packet(0, 1, config()).unwrap();
    assert!(matches!(
        receiver.next_step(0),
        VideoStep::Deliver {
            kypacket_seq: 0,
            ..
        }
    ));
    // Packet 3 arrives complete; 1 and 2 never do.
    let data = media_bytes(200);
    feed(&mut receiver, 3, 1, &data, 1_000);
    match receiver.next_step(5_000) {
        VideoStep::Wait(Some(deadline)) => assert_eq!(deadline, 51_000),
        other => panic!("unexpected {other:?}"),
    }
    match receiver.next_step(51_000) {
        VideoStep::Deliver {
            kypacket_seq,
            missing_packets,
            packet: AVPacket::Media(m),
        } => {
            assert_eq!(kypacket_seq, 3);
            assert_eq!(missing_packets, 2);
            assert_eq!(&m.payload[..], &data[HEADER_SIZE..]);
        }
        other => panic!("unexpected {other:?}"),
    }
    // A symbol of a packet already passed is dropped.
    let encoder = raptorq::Encoder::with_defaults(&data, 128);
    let raw_oti = encoder.get_config();
    let (id, symbol) = encoder.get_encoded_packets(0).remove(0).split();
    let bytes = frame_datagram(7, 2, 1, &raw_oti.serialize(), &id.serialize(), &symbol);
    let msg = DatagramMsg::parse(&bytes).unwrap();
    assert!(!receiver
        .on_datagram(
            msg.raw_kypacket_seq,
            msg.raw_group_seq,
            msg.oti,
            msg.payload_id,
            msg.data,
            60_000
        )
        .unwrap());
}

#[test]
fn video_receiver_holds_media_until_its_config_arrives() {
    let mut receiver = VideoFecReceiver::new();
    let data = media_bytes(100);
    feed(&mut receiver, 1, 1, &data, 0);
    // Without the group's configuration packet nothing is handed out.
    assert!(matches!(receiver.next_step(1_000_000), VideoStep::Wait(None)));
    receiver.on_stream_packet(0, 1, config()).unwrap();
    assert!(matches!(
        receiver.next_step(1_000_000),
        VideoStep::Deliver {
            kypacket_seq: 0,
            missing_packets: 0,
            ..
        }
    ));
    assert!(matches!(
        receiver.next_step(1_000_000),
        VideoStep::Deliver {
            kypacket_seq: 1,
            missing_packets: 0,
            ..
        }
    ));
}

#[test]
fn video_receiver_refuses_a_second_config_for_a_group() {
    let mut receiver = VideoFecReceiver::new();
    receiver.on_stream_packet(0, 1, config()).unwrap();
    let err = receiver.on_stream_packet(1, 1, config()).unwrap_err();
    assert_eq!(err.0, "Invalid FEC media: invalid or duplicate video config");
}

#[test]
fn video_sender_frames_codec_config_and_media() {
    let mut sender = VideoFecSender::new();
    match sender.send(codec()) {
        VideoSend::Stream(bytes) => {
            assert_eq!(&bytes[..8], &[0; 8]);
            assert_eq!(bytes.len(), 8 + HEADER_SIZE);
        }
        other => panic!("unexpected {other:?}"),
    }
    match sender.send(config()) {
        VideoSend::Stream(bytes) => {
            assert_eq!(&bytes[..8], &[0, 0, 0, 0, 0, 0, 0, 1]);
            assert_eq!(bytes.len(), 8 + HEADER_SIZE);
        }
        other => panic!("unexpected {other:?}"),
    }
    let media = AVPacket::Media(MediaPacket {
        header: MediaPacketHeader {
            is_config: false,
            is_key: true,
            pts: 123,
            size: 5,
        },
        payload: vec![1, 2, 3, 4, 5],
    });
    match sender.send(media) {
        VideoSend::Datagrams {
            kypacket_seq,
            group_seq,
            object,
        } => {
            assert_eq!(kypacket_seq, 1);
            assert_eq!(group_seq, 1);
            assert_eq!(object.len(), HEADER_SIZE + 5);
            assert_eq!(&object[HEADER_SIZE..], &[1, 2, 3, 4, 5]);
        }
        other => panic!("unexpected {other:?}"),
    }
}

#[test]
fn video_frame_datagram_lays_out_the_header() {
    let bytes = frame_datagram(0x0102, 0x0304_0506, 0x0708_090a, &[9; 12], &[10; 4], &[11, 12]);
    let mut expected = vec![1, 2, 3, 4, 5, 6, 7, 8, 9, 10];
    expected.extend([9; 12]);
    expected.extend([10; 4]);
    expected.extend([11, 12]);
    assert_eq!(bytes, expected);
    assert_eq!(bytes.len(), DATAGRAM_HEADER_SIZE + 2);
}
