use kymux::av::{AVPacket, CodecPacket, CodecPacketHeader, MediaPacket, MediaPacketHeader, HEADER_SIZE};
use kymux::gopstream::{parse_gop, Gop, GopReceiver, GopSend, GopSender};

fn codec(codec: u32) -> AVPacket {
    AVPacket::Codec(CodecPacket {
        header: CodecPacketHeader {
            codec,
            rotation: 0,
            frame_size: 0,
        },
    })
}

fn media(is_config: bool, is_key: bool, pts: u64, payload: Vec<u8>) -> AVPacket {
    AVPacket::Media(MediaPacket {
        header: MediaPacketHeader {
            is_config,
            is_key,
            pts,
            size: payload.len() as u32,
        },
        payload,
    })
}

fn key(pts: u64) -> AVPacket {
    media(false, true, pts, vec![1, 2, 3])
}

fn delta(pts: u64) -> AVPacket {
    media(false, false, pts, vec![4, 5])
}

fn config(tag: u8) -> AVPacket {
    media(true, false, 0, vec![tag; 4])
}

/// The GOP numbers that open each new stream, for a sequence of packets.
fn openings(sender: &mut GopSender, packets: Vec<AVPacket>) -> Vec<Gop> {
    let mut ids = Vec::new();
    for packet in packets {
        if let GopSend::NewStream { opening, record } = sender.send(packet) {
            // Numbers, codec header, configuration header and payload.
            assert_eq!(opening.len(), 12 + HEADER_SIZE + HEADER_SIZE + 4);
            assert_eq!(record.len(), HEADER_SIZE + 3);
            ids.push(parse_gop(&opening[..12]));
        }
    }
    ids
}

#[test]
fn gop_streams_repeat_codec_and_config_numbers() {
    let mut sender = GopSender::new();
    let packets = vec![
        codec(1),
        config(1),
        key(0),
        delta(1),
        delta(2),
        key(3),
        delta(4),
        config(2),
        key(5),
        codec(2),
        config(3),
        key(6),
        delta(7),
        key(8),
    ];
    let ids = openings(&mut sender, packets);
    let gop = |id, codec_gen, config_gen| Gop {
        id,
        codec_gen,
        config_gen,
    };
    assert_eq!(
        ids,
        vec![
            gop(0, 1, 1),
            gop(1, 1, 1),
            gop(2, 1, 2),
            gop(3, 2, 3),
            gop(4, 2, 3),
        ]
    );
}

#[test]
fn gop_sender_drops_frames_before_the_first_key_frame() {
    let mut sender = GopSender::new();
    assert!(matches!(sender.send(codec(1)), GopSend::Kept));
    assert!(matches!(sender.send(config(1)), GopSend::Kept));
    assert!(matches!(sender.send(delta(0)), GopSend::Dropped));
    assert!(sender.can_open_stream());
    assert!(matches!(sender.send(key(1)), GopSend::NewStream { .. }));
    match sender.send(delta(2)) {
        GopSend::Write(record) => assert_eq!(&record[HEADER_SIZE..], &[4, 5]),
        other => panic!("unexpected {other:?}"),
    }
}

#[test]
fn gop_sender_cannot_open_a_stream_without_codec_and_config() {
    let mut sender = GopSender::new();
    assert!(!sender.can_open_stream());
    sender.send(codec(1));
    assert!(!sender.can_open_stream());
    sender.send(config(1));
    assert!(sender.can_open_stream());
}

#[test]
fn gop_opening_numbers_read_back() {
    let mut sender = GopSender::new();
    sender.send(codec(1));
    sender.send(config(9));
    let GopSend::NewStream { opening, .. } = sender.send(key(0)) else {
        panic!("no stream opened");
    };
    assert_eq!(&opening[..12], &[0, 0, 0, 0, 0, 0, 0, 1, 0, 0, 0, 1]);
    assert_eq!(
        parse_gop(&opening[..12]),
        Gop {
            id: 0,
            codec_gen: 1,
            config_gen: 1
        }
    );
    assert_eq!(&opening[12 + 2 * HEADER_SIZE..], &[9, 9, 9, 9]);
}

#[test]
fn gop_receiver_hands_out_codec_and_config_once_per_generation() {
    let mut receiver = GopReceiver::new();
    assert!(!receiver.following());
    let first = Gop {
        id: 0,
        codec_gen: 1,
        config_gen: 1,
    };
    assert!(receiver.on_stream_ids(first));
    assert!(receiver.following());
    assert!(receiver.on_packet(codec(1), 0).is_some());
    assert!(receiver.on_packet(config(1), 0).is_some());
    assert!(receiver.on_packet(key(0), 0).is_some());
    // The next stream repeats the same codec and configuration packets.
    let second = Gop {
        id: 1,
        codec_gen: 1,
        config_gen: 1,
    };
    assert!(receiver.on_stream_ids(second));
    assert!(receiver.on_packet(codec(1), 1).is_none());
    assert!(receiver.on_packet(config(1), 1).is_none());
    assert!(receiver.on_packet(key(3), 1).is_some());
    // A late packet of the abandoned stream is dropped.
    assert!(receiver.on_packet(delta(2), 0).is_none());
    // A new configuration generation is handed out.
    let third = Gop {
        id: 2,
        codec_gen: 1,
        config_gen: 2,
    };
    assert!(receiver.on_stream_ids(third));
    assert!(receiver.on_packet(codec(1), 2).is_none());
    assert!(receiver.on_packet(config(2), 2).is_some());
}

#[test]
fn gop_receiver_ignores_older_streams() {
    let mut receiver = GopReceiver::new();
    let newer = Gop {
        id: 5,
        codec_gen: 1,
        config_gen: 1,
    };
    let older = Gop {
        id: 4,
        codec_gen: 1,
        config_gen: 1,
    };
    assert!(receiver.on_stream_ids(newer));
    assert!(!receiver.on_stream_ids(older));
    assert!(!receiver.on_stream_ids(newer));
    assert!(receiver.on_packet(key(0), 4).is_none());
    assert!(receiver.on_packet(key(0), 5).is_some());
}
