use kymux::av::{
    AVPacket, CodecPacket, CodecPacketHeader, HolePacket, HolePacketHeader, MediaPacket,
    MediaPacketHeader, HEADER_SIZE,
};
use kymux::serial::{
    AVPacketDeserializer, AVPacketSerializer, DataPacket, FramingError, InputPacket,
    MetricsPacket, MetricsPacketDeserializer, MetricsPacketSerializer, MAX_DATA_PACKET_SIZE,
    read_av_record,
};

#[test]
fn rejects_invalid_lengths_before_reading_payload() {
    assert_eq!(MAX_DATA_PACKET_SIZE, 1_048_576);
    for size in [
        0,
        MAX_DATA_PACKET_SIZE as u32 + 1,
        i32::MAX as u32,
        u32::MAX,
    ] {
        // Only the length prefix is available: the size is refused from it.
        let header = size.to_be_bytes();
        assert_eq!(
            DataPacket::read(&header).unwrap_err(),
            FramingError::InvalidData
        );
    }
}

#[test]
fn rejects_outgoing_invalid_sizes_without_writing_header() {
    for size in [0, MAX_DATA_PACKET_SIZE + 1] {
        let mut wire = Vec::new();
        let packet = DataPacket {
            payload: vec![7; size],
        };
        assert_eq!(
            packet.write(&mut wire).unwrap_err(),
            FramingError::InvalidInput
        );
        assert!(wire.is_empty());
    }
}

#[test]
fn preserves_boundary_packets_and_record_order() {
    let mut wire = Vec::new();
    for size in [1, 512 * 1024, MAX_DATA_PACKET_SIZE] {
        DataPacket {
            payload: vec![0x5a; size],
        }
        .write(&mut wire)
        .unwrap();
    }
    let mut offset = 0;
    for size in [1, 512 * 1024, MAX_DATA_PACKET_SIZE] {
        let (packet, used) = DataPacket::read(&wire[offset..]).unwrap().unwrap();
        offset += used;
        assert_eq!(packet.payload.len(), size);
        assert!(packet.payload.iter().all(|byte| *byte == 0x5a));
    }
    assert!(DataPacket::read(&wire[offset..]).unwrap().is_none());
}

#[test]
fn keeps_existing_big_endian_wire_format() {
    let mut wire = Vec::new();
    DataPacket {
        payload: b"abc".to_vec(),
    }
    .write(&mut wire)
    .unwrap();
    assert_eq!(wire, b"\x00\x00\x00\x03abc");
    assert_eq!(
        DataPacket::read(&wire).unwrap().unwrap().0.payload,
        b"abc"[..]
    );
}

#[test]
fn eof_is_clean_only_between_records() {
    assert!(DataPacket::read(b"").unwrap().is_none());
    let prefix = 5u32.to_be_bytes();
    for size in 1..4 {
        assert_eq!(
            DataPacket::read(&prefix[..size]).unwrap_err(),
            FramingError::UnexpectedEof
        );
    }
    assert_eq!(
        DataPacket::read(b"\x00\x00\x00\x05abc").unwrap_err(),
        FramingError::UnexpectedEof
    );
}

#[test]
fn accepts_fragmented_valid_records() {
    // The record arrives one byte at a time; it is read once it is whole.
    let mut wire = Vec::new();
    DataPacket {
        payload: b"control".to_vec(),
    }
    .write(&mut wire)
    .unwrap();
    let mut arrived = Vec::new();
    for (i, byte) in wire.iter().enumerate() {
        arrived.push(*byte);
        let read = DataPacket::read(&arrived);
        if i + 1 < wire.len() {
            assert_eq!(read.unwrap_err(), FramingError::UnexpectedEof);
        } else {
            let (packet, used) = read.unwrap().unwrap();
            assert_eq!(packet.payload, b"control"[..]);
            assert_eq!(used, wire.len());
        }
    }
}

fn media(payload: Vec<u8>) -> AVPacket {
    AVPacket::Media(MediaPacket {
        header: MediaPacketHeader {
            is_config: false,
            is_key: true,
            pts: 1234,
            size: payload.len() as u32,
        },
        payload,
    })
}

#[test]
fn av_records_read_back_in_order() {
    let packets = vec![
        AVPacket::Codec(CodecPacket {
            header: CodecPacketHeader {
                codec: 3,
                rotation: 2,
                frame_size: 960,
            },
        }),
        media(vec![1, 2, 3]),
        AVPacket::Hole(HolePacket {
            header: HolePacketHeader {
                missing_audio_samples: 480,
            },
        }),
        media(Vec::new()),
    ];
    let mut wire = Vec::new();
    for packet in packets {
        AVPacketSerializer.write(packet, &mut wire);
    }
    assert_eq!(wire.len(), 4 * HEADER_SIZE + 3);
    let mut offset = 0;
    let mut read = Vec::new();
    while let Some((packet, used)) = AVPacketDeserializer.read(&wire[offset..]).unwrap() {
        offset += used;
        read.push(packet);
    }
    assert_eq!(offset, wire.len());
    assert_eq!(read.len(), 4);
    assert!(matches!(&read[0], AVPacket::Codec(c) if c.header.codec == 3 && c.header.frame_size == 960));
    assert!(matches!(&read[1], AVPacket::Media(m) if m.payload == vec![1, 2, 3] && m.header.pts == 1234));
    assert!(matches!(&read[2], AVPacket::Hole(h) if h.header.missing_audio_samples == 480));
    assert!(matches!(&read[3], AVPacket::Media(m) if m.payload.is_empty()));
}

#[test]
fn av_record_cut_inside_the_payload_is_an_unexpected_eof() {
    let mut wire = Vec::new();
    AVPacketSerializer.write(media(vec![9; 10]), &mut wire);
    assert!(AVPacketDeserializer.read(&wire[..HEADER_SIZE - 1]).unwrap().is_none());
    assert_eq!(
        AVPacketDeserializer.read(&wire[..HEADER_SIZE + 5]).unwrap_err(),
        FramingError::UnexpectedEof
    );
}

#[test]
fn metrics_records_carry_a_two_byte_length() {
    let mut wire = Vec::new();
    MetricsPacketSerializer.write(
        MetricsPacket {
            payload: vec![1, 2],
        },
        &mut wire,
    );
    assert_eq!(wire, vec![0, 2, 1, 2]);
    let (packet, used) = MetricsPacketDeserializer.read(&wire).unwrap().unwrap();
    assert_eq!(packet.payload, vec![1, 2]);
    assert_eq!(used, 4);
    assert!(MetricsPacketDeserializer.read(&wire[..1]).unwrap().is_none());
    assert_eq!(
        MetricsPacketDeserializer.read(&wire[..3]).unwrap_err(),
        FramingError::UnexpectedEof
    );
}

#[test]
fn input_records_carry_type_and_length() {
    let mut wire = Vec::new();
    InputPacket {
        type_: 7,
        payload: vec![5, 6, 7],
    }
    .write(&mut wire);
    assert_eq!(wire, vec![7, 0, 3, 5, 6, 7]);
    let (packet, used) = InputPacket::read(&wire).unwrap();
    assert_eq!(packet.type_, 7);
    assert_eq!(packet.payload, vec![5, 6, 7]);
    assert_eq!(used, 6);
    assert_eq!(
        InputPacket::read(&wire[..2]).unwrap_err(),
        FramingError::UnexpectedEof
    );
}

#[test]
fn quic_av_streams_end_only_between_records() {
    assert!(matches!(read_av_record(&[]), Ok(None)));
    assert_eq!(read_av_record(&[0x80, 0, 0]).err(), Some(FramingError::UnexpectedEof));
    let mut out = Vec::new();
    AVPacketSerializer.write(
        AVPacket::Media(MediaPacket {
            header: MediaPacketHeader { is_config: false, is_key: true, pts: 7, size: 3 },
            payload: vec![1, 2, 3],
        }),
        &mut out,
    );
    assert_eq!(read_av_record(&out[..14]).err(), Some(FramingError::UnexpectedEof));
    match read_av_record(&out) {
        Ok(Some((AVPacket::Media(m), n))) => {
            assert_eq!(n, 15);
            assert_eq!(m.payload, vec![1, 2, 3]);
            assert_eq!(m.header.pts, 7);
        }
        other => panic!("unexpected {other:?}"),
    }
}
