use kymux::av::{AVPacket, CodecPacketHeader, MediaPacketHeader, HEADER_SIZE};
use kymux::fec::{
    check_pending, media_packet, parse_datagram, read_stream_packet, reservation, validate_oti,
    ObjectDecoder, Oti, PayloadId, MAX_AUDIO_PAYLOAD, MAX_CONFIG_PAYLOAD, MAX_PENDING_OBJECTS,
    MAX_VIDEO_PAYLOAD,
};

fn media_bytes(size: usize) -> Vec<u8> {
    let header = MediaPacketHeader {
        is_config: false,
        is_key: true,
        pts: 123,
        size: size as u32,
    };
    let mut data = header.serialize().to_vec();
    data.extend((0..size).map(|i| (i % 251) as u8));
    data
}

fn oti_of(o: &raptorq::ObjectTransmissionInformation) -> Oti {
    Oti {
        transfer_length: o.transfer_length(),
        symbol_size: o.symbol_size(),
        source_blocks: o.source_blocks(),
        sub_blocks: o.sub_blocks(),
        symbol_alignment: o.symbol_alignment(),
    }
}

fn id_of(p: &raptorq::PayloadId) -> PayloadId {
    PayloadId {
        source_block_number: p.source_block_number(),
        encoding_symbol_id: p.encoding_symbol_id(),
    }
}

fn datagram(
    header_size: usize,
    oti: &raptorq::ObjectTransmissionInformation,
    packet: &raptorq::EncodingPacket,
) -> Vec<u8> {
    let mut bytes = vec![0; header_size - 16];
    bytes.extend(oti.serialize());
    bytes.extend(packet.serialize());
    bytes
}

fn raw_oti(length: u64, symbol: u16, blocks: u8, sub_blocks: u16, alignment: u8) -> Oti {
    Oti {
        transfer_length: length,
        symbol_size: symbol,
        source_blocks: blocks,
        sub_blocks,
        symbol_alignment: alignment,
    }
}

#[test]
fn reject_invalid_oti_before_decoder_construction() {
    for oti in [
        raw_oti(1024, 0, 1, 1, 8),
        raw_oti(1024, 128, 0, 1, 8),
        raw_oti(1024, 128, 1, 0, 8),
        raw_oti(1024, 128, 1, 1, 0),
        raw_oti(1024, 127, 1, 1, 8),
        raw_oti(1024, 128, 1, 17, 8),
        raw_oti(1024, 128, 9, 1, 8),
        raw_oti(0, 128, 1, 1, 8),
        raw_oti(11, 128, 1, 1, 8),
        raw_oti((MAX_VIDEO_PAYLOAD + HEADER_SIZE + 1) as u64, 1280, 2, 1, 8),
        raw_oti((1u64 << 40) - 1, 1280, 1, 1, 8),
        raw_oti(56_404 * 128, 128, 1, 1, 8),
        raw_oti(131_073 * 128, 128, 3, 1, 8),
    ] {
        assert!(ObjectDecoder::new(oti, MAX_VIDEO_PAYLOAD).is_err(), "{oti:?}");
    }
    assert!(ObjectDecoder::new(raw_oti(65_536 + 13, 1280, 1, 1, 8), MAX_AUDIO_PAYLOAD).is_err());
}

#[test]
fn supported_sender_sizes_and_mtu_parameters_fit_bounds() {
    for limit in [MAX_AUDIO_PAYLOAD, MAX_VIDEO_PAYLOAD] {
        for size in [HEADER_SIZE, 480, 64 * 1024, limit + HEADER_SIZE] {
            for symbol in [1100, 1280, 1450, 2740, 8900] {
                let oti = oti_of(&raptorq::ObjectTransmissionInformation::with_defaults(
                    size as u64,
                    symbol,
                ));
                validate_oti(&oti, limit).unwrap();
                check_pending(0, 0, reservation(&oti), limit).unwrap();
            }
        }
    }
}

#[test]
fn full_headers_still_require_exact_symbols_and_valid_payload_ids() {
    let data = media_bytes(300);
    let encoder = raptorq::Encoder::with_defaults(&data, 128);
    let oti = encoder.get_config();
    let source = encoder.get_encoded_packets(2).remove(0);
    for header in [22, 26] {
        let valid = datagram(header, &oti, &source);
        parse_datagram(&valid, header, MAX_VIDEO_PAYLOAD).unwrap();
        for length in 0..valid.len() {
            assert!(parse_datagram(&valid[..length], header, MAX_VIDEO_PAYLOAD).is_err());
        }
        let mut long = valid.clone();
        long.push(0);
        assert!(parse_datagram(&long, header, MAX_VIDEO_PAYLOAD).is_err());
        let mut reserved = valid.clone();
        reserved[header - 16 + 5] = 1;
        assert!(parse_datagram(&reserved, header, MAX_VIDEO_PAYLOAD).is_err());
        let mut block = valid.clone();
        block[header - 4] = oti.source_blocks();
        assert!(parse_datagram(&block, header, MAX_VIDEO_PAYLOAD).is_err());
        // IDs between K and K' denote implicit padding, not wire symbols.
        let padding = raptorq::EncodingPacket::new(raptorq::PayloadId::new(0, 3), vec![0; 128]);
        assert!(parse_datagram(&datagram(header, &oti, &padding), header, MAX_VIDEO_PAYLOAD).is_err());
        let repair =
            raptorq::EncodingPacket::new(raptorq::PayloadId::new(0, 0x00ff_ffff), vec![0; 128]);
        parse_datagram(&datagram(header, &oti, &repair), header, MAX_VIDEO_PAYLOAD).unwrap();
    }
}

#[test]
fn decoder_checks_consistency_and_deduplicates_before_retaining() {
    let oti = oti_of(&raptorq::ObjectTransmissionInformation::with_defaults(1024, 128));
    let mut decoder = ObjectDecoder::new(oti, MAX_VIDEO_PAYLOAD).unwrap();
    let changed = oti_of(&raptorq::ObjectTransmissionInformation::with_defaults(2048, 128));
    let id = |block: u8, symbol: u32| PayloadId {
        source_block_number: block,
        encoding_symbol_id: symbol,
    };
    assert!(decoder.decode(changed, id(0, 0), vec![0; 128]).is_err());
    assert!(decoder.decode(oti, id(1, 0), vec![0; 128]).is_err());
    assert!(decoder.decode(oti, id(0, 0), vec![0; 127]).is_err());
    for _ in 0..1000 {
        assert!(decoder.decode(oti, id(0, 0), vec![0; 128]).unwrap().is_none());
    }
    assert_eq!(decoder.received_len(), 1);
    assert_eq!(decoder.received_sources(), 1);
}

#[test]
fn multi_block_sub_block_repair_reconstructs_exact_bytes() {
    let data = media_bytes(6000);
    let raw = raptorq::ObjectTransmissionInformation::new(data.len() as u64, 128, 3, 4, 8);
    let oti = oti_of(&raw);
    let encoder = raptorq::Encoder::new(&data, raw);
    let mut decoder = ObjectDecoder::new(oti, MAX_VIDEO_PAYLOAD).unwrap();
    let mut result = None;
    for (i, packet) in encoder.get_encoded_packets(8).into_iter().enumerate() {
        if i % 10 == 0 {
            continue;
        }
        let (id, bytes) = packet.split();
        if let Some(assembled) = decoder.decode(oti, id_of(&id), bytes).unwrap() {
            result = Some(assembled);
            break;
        }
    }
    assert_eq!(result.unwrap(), data);
}

#[test]
fn reconstructed_header_is_checked_before_deserialization() {
    for size in 0..HEADER_SIZE {
        assert!(media_packet(vec![0xff; size]).is_err());
    }
    let mut data = media_bytes(300);
    media_packet(data.clone()).unwrap();
    data[0] &= 0x7f;
    assert!(media_packet(data.clone()).is_err());
    data[0] |= 0xc0; // config records must use the reliable stream
    assert!(media_packet(data.clone()).is_err());
    data[0] &= !0x40;
    data[11] ^= 1; // declared size differs from reconstructed payload
    assert!(media_packet(data).is_err());
}

#[test]
fn pending_limits_reject_counts_and_bytes_without_overflow() {
    for limit in [MAX_AUDIO_PAYLOAD, MAX_VIDEO_PAYLOAD] {
        check_pending(MAX_PENDING_OBJECTS - 1, 0, 1, limit).unwrap();
        assert!(check_pending(MAX_PENDING_OBJECTS, 0, 1, limit).is_err());
        assert!(check_pending(0, usize::MAX, 1, limit).is_err());
        assert!(check_pending(0, 1, usize::MAX, limit).is_err());
    }
}

#[test]
fn reliable_companion_rejects_holes_bad_types_and_large_allocations() {
    assert!(read_stream_packet(&[0u8; HEADER_SIZE], MAX_VIDEO_PAYLOAD).is_err());
    for size in [u32::MAX, MAX_CONFIG_PAYLOAD as u32 + 1] {
        let header = MediaPacketHeader {
            is_config: true,
            is_key: false,
            pts: 0,
            size,
        };
        // No body available: invalid lengths must fail without reading it.
        let raw = header.serialize();
        let err = read_stream_packet(&raw, MAX_VIDEO_PAYLOAD).unwrap_err();
        assert!(err.0.contains("config type or length"));
    }
    let codec = CodecPacketHeader {
        codec: 1,
        rotation: 0,
        frame_size: 480,
    }
    .serialize();
    assert!(matches!(
        read_stream_packet(&codec, MAX_AUDIO_PAYLOAD).unwrap().0,
        AVPacket::Codec(_)
    ));
    let mut data = media_bytes(3);
    data[0] |= 0x40;
    assert!(matches!(
        read_stream_packet(&data, MAX_VIDEO_PAYLOAD).unwrap().0,
        AVPacket::Media(_)
    ));
}

#[test]
fn malformed_datagram_mutation_smoke_test() {
    let encoder = raptorq::Encoder::with_defaults(&media_bytes(1500), 128);
    let valid = datagram(26, &encoder.get_config(), &encoder.get_encoded_packets(2).remove(0));
    for index in 0..valid.len() {
        for bit in 0..8 {
            let mut changed = valid.clone();
            changed[index] ^= 1 << bit;
            let _ = parse_datagram(&changed, 26, MAX_VIDEO_PAYLOAD);
        }
    }
}

#[test]
fn read_stream_packet_reports_early_eof_and_consumed_length() {
    let err = read_stream_packet(&[0x80, 0, 0], MAX_AUDIO_PAYLOAD).unwrap_err();
    assert_eq!(err.0, "early eof");
    let mut data = media_bytes(3);
    data[0] |= 0x40;
    let (_, used) = read_stream_packet(&data, MAX_AUDIO_PAYLOAD).unwrap();
    assert_eq!(used, HEADER_SIZE + 3);
    let err = read_stream_packet(&data[..HEADER_SIZE + 1], MAX_AUDIO_PAYLOAD).unwrap_err();
    assert_eq!(err.0, "early eof");
}

#[test]
fn headers_are_written_as_the_library_writes_them() {
    let raw = raptorq::ObjectTransmissionInformation::new(234_567, 1280, 3, 3, 8);
    let oti = oti_of(&raw);
    assert_eq!(kymux::fec::serialize_oti(&oti), raw.serialize());
    let id = raptorq::PayloadId::new(2, 0x12_3456);
    assert_eq!(kymux::fec::serialize_payload_id(&id_of(&id)), id.serialize());
}
