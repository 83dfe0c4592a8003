use kymux::fec::{Oti, PayloadId};
use kymux::source_first::{fec_oti, fec_packets, is_encodable, source_packets, symbol_budget};
use raptorq::ObjectTransmissionInformation;

fn oti_of(o: &ObjectTransmissionInformation) -> Oti {
    Oti {
        transfer_length: o.transfer_length(),
        symbol_size: o.symbol_size(),
        source_blocks: o.source_blocks(),
        sub_blocks: o.sub_blocks(),
        symbol_alignment: o.symbol_alignment(),
    }
}

fn id(block: u8, symbol: u32) -> PayloadId {
    PayloadId {
        source_block_number: block,
        encoding_symbol_id: symbol,
    }
}

fn check(size: usize, oti: ObjectTransmissionInformation) {
    let data: Vec<_> = (0..size)
        .map(|i| (i.wrapping_mul(73) ^ (i >> 9)) as u8)
        .collect();
    let sources = source_packets(&data, &oti_of(&oti));
    let encoder = raptorq::Encoder::new(&data, oti);
    let expected: Vec<(PayloadId, Vec<u8>)> = encoder
        .get_block_encoders()
        .iter()
        .flat_map(|block| block.source_packets())
        .map(|p| {
            (
                id(
                    p.payload_id().source_block_number(),
                    p.payload_id().encoding_symbol_id(),
                ),
                p.data().to_vec(),
            )
        })
        .collect();
    assert_eq!(
        sources, expected,
        "systematic bytes, padding and IDs must match upstream"
    );
    for loss in [0usize, 5, 10, 20] {
        let mut decoder = raptorq::Decoder::new(oti);
        let mut decoded = None;
        for (i, (pid, bytes)) in sources.iter().enumerate() {
            if (i + 1) * loss / 100 != i * loss / 100 {
                continue;
            }
            let packet = raptorq::EncodingPacket::new(
                raptorq::PayloadId::new(pid.source_block_number, pid.encoding_symbol_id),
                bytes.clone(),
            );
            if let Some(result) = decoder.decode(packet) {
                decoded = Some(result);
            }
        }
        let repairs = ((sources.len() as f32 * 0.3).ceil() as u32).max(2);
        for block in encoder.get_block_encoders() {
            for packet in block.repair_packets(0, repairs) {
                if let Some(result) = decoder.decode(packet) {
                    decoded = Some(result);
                }
            }
        }
        assert_eq!(decoded.as_deref(), Some(data.as_slice()), "loss={loss}");
    }
}

#[test]
fn systematic_bytes_and_recovery_match_library() {
    // Objects of a megabyte and more take the RaptorQ encoder too long for a
    // unit test in an unoptimised build; these sizes cover one and several
    // source blocks.
    for size in [12, 1291, 100_000] {
        check(
            size,
            ObjectTransmissionInformation::with_defaults(size as u64, 1280),
        );
    }
    // Explicit multiple source blocks/sub-blocks/alignment, unequal partitions.
    check(234_567, ObjectTransmissionInformation::new(234_567, 1280, 3, 3, 8));
    check(40_003, ObjectTransmissionInformation::new(40_003, 1000, 2, 7, 4));
}

#[test]
fn sub_blocks_interleave_within_each_symbol() {
    let data: Vec<u8> = (0..12).collect();
    let oti = Oti {
        transfer_length: 12,
        symbol_size: 4,
        source_blocks: 1,
        sub_blocks: 2,
        symbol_alignment: 2,
    };
    let packets = source_packets(&data, &oti);
    assert_eq!(
        packets,
        vec![
            (id(0, 0), vec![0, 1, 6, 7]),
            (id(0, 1), vec![2, 3, 8, 9]),
            (id(0, 2), vec![4, 5, 10, 11]),
        ]
    );
}

#[test]
fn last_symbol_is_padded_with_zeros() {
    let data: Vec<u8> = (1..=10).collect();
    let oti = Oti {
        transfer_length: 10,
        symbol_size: 4,
        source_blocks: 1,
        sub_blocks: 1,
        symbol_alignment: 1,
    };
    let packets = source_packets(&data, &oti);
    assert_eq!(
        packets,
        vec![
            (id(0, 0), vec![1, 2, 3, 4]),
            (id(0, 1), vec![5, 6, 7, 8]),
            (id(0, 2), vec![9, 10, 0, 0]),
        ]
    );
}

#[test]
fn blocks_follow_one_another_larger_first() {
    // Five symbols in two blocks: three in the first, two in the second.
    let data: Vec<u8> = (0..10).collect();
    let oti = Oti {
        transfer_length: 10,
        symbol_size: 2,
        source_blocks: 2,
        sub_blocks: 1,
        symbol_alignment: 1,
    };
    let packets = source_packets(&data, &oti);
    assert_eq!(
        packets,
        vec![
            (id(0, 0), vec![0, 1]),
            (id(0, 1), vec![2, 3]),
            (id(0, 2), vec![4, 5]),
            (id(1, 0), vec![6, 7]),
            (id(1, 1), vec![8, 9]),
        ]
    );
}

#[test]
fn fec_packets_match_the_library_encoder() {
    for (size, mtu, repair) in [(12usize, 1280u16, 2u32), (1291, 128, 3), (40_003, 1000, 5)] {
        let data: Vec<u8> = (0..size).map(|i| (i * 31 % 256) as u8).collect();
        let oti = fec_oti(size as u64, mtu).expect("default parameters");
        let raw = ObjectTransmissionInformation::with_defaults(size as u64, mtu);
        assert_eq!(oti, oti_of(&raw));
        let packets = fec_packets(&data, &oti, repair);
        let expected: Vec<(PayloadId, Vec<u8>)> = raptorq::Encoder::new(&data, raw)
            .get_encoded_packets(repair)
            .into_iter()
            .map(|p| {
                (
                    id(
                        p.payload_id().source_block_number(),
                        p.payload_id().encoding_symbol_id(),
                    ),
                    p.data().to_vec(),
                )
            })
            .collect();
        assert_eq!(packets, expected);
    }
}

#[test]
fn fec_packets_without_repair_are_the_source_packets() {
    let data: Vec<u8> = (0..5000).map(|i| (i % 253) as u8).collect();
    let oti = fec_oti(5000, 500).unwrap();
    assert_eq!(fec_packets(&data, &oti, 0), source_packets(&data, &oti));
}

#[test]
fn default_oti_aligns_symbols_to_the_packet() {
    let small = fec_oti(1000, 50).unwrap();
    assert_eq!(small.symbol_alignment, 1);
    assert_eq!(small.symbol_size, 50);
    let large = fec_oti(1000, 1283).unwrap();
    assert_eq!(large.symbol_alignment, 8);
    assert_eq!(large.symbol_size, 1280);
    assert_eq!(large.transfer_length, 1000);
}

#[test]
fn encodable_refuses_zero_parameters() {
    let good = Oti {
        transfer_length: 10,
        symbol_size: 4,
        source_blocks: 1,
        sub_blocks: 1,
        symbol_alignment: 1,
    };
    assert!(is_encodable(&good));
    assert!(!is_encodable(&Oti { symbol_size: 0, ..good }));
    assert!(!is_encodable(&Oti { source_blocks: 0, ..good }));
    assert!(!is_encodable(&Oti { sub_blocks: 0, ..good }));
    assert!(!is_encodable(&Oti { symbol_alignment: 0, ..good }));
    assert!(!is_encodable(&Oti { symbol_alignment: 3, ..good }));
    // More source blocks than symbols.
    assert!(!is_encodable(&Oti { source_blocks: 4, ..good }));
}

#[test]
fn symbol_budget_leaves_room_for_the_header() {
    assert_eq!(symbol_budget(1200, 26), 1174);
    assert_eq!(symbol_budget(1200, 22), 1178);
}
