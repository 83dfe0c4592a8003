use kymux::seq::Sequencer;

#[test]
fn test_sequencer() {
    let mut sequencer = Sequencer::<u8>::new();

    assert_eq!(sequencer.seq(0x12), 0x12);
    assert_eq!(sequencer.seq(0x55), 0x55);
    assert_eq!(sequencer.seq(0x44), 0x44);
    assert_eq!(sequencer.seq(0x95), 0x95);
    assert_eq!(sequencer.seq(0x00), 0x100);
    assert_eq!(sequencer.seq(0xFF), 0xFF);
    assert_eq!(sequencer.seq(0x80), 0x180);
    assert_eq!(sequencer.seq(0x00), 0x200);
    assert_eq!(sequencer.seq(0x40), 0x240);
    assert_eq!(sequencer.seq(0x80), 0x280);
    assert_eq!(sequencer.seq(0x40), 0x240);
    assert_eq!(sequencer.seq(0xC0), 0x2C0);
    assert_eq!(sequencer.seq(0x40), 0x340);
    assert_eq!(sequencer.seq(0xC1), 0x2C1);
    assert_eq!(sequencer.seq(0xC0), 0x3C0);
}

#[test]
fn test_sequencer_special() {
    let mut sequencer = Sequencer::<u8>::new();

    // When the provided value is distant by more than a half-range, the
    // sequencer considers it is a value from the past... except at the
    // beginning, because it may never give a value below 0
    assert_eq!(sequencer.seq(0xFF), 0xFF);

    assert_eq!(sequencer.seq(0x00), 0x100);
    assert_eq!(sequencer.seq(0xFF), 0xFF);
}

#[test]
fn sequencer_unrolls_a_wrapping_u16_counter() {
    let mut sequencer = Sequencer::<u16>::new();
    let mut expected: u64 = 0;
    for _ in 0..3 * 0x1_0000u64 / 7 {
        assert_eq!(sequencer.seq((expected % 0x1_0000) as u16), expected);
        expected += 7;
    }
}

#[test]
fn sequencer_u32_goes_back_across_the_wrap() {
    let mut sequencer = Sequencer::<u32>::new();
    assert_eq!(sequencer.seq(0xFFFF_FFF0), 0xFFFF_FFF0);
    assert_eq!(sequencer.seq(0x0000_0010), 0x1_0000_0010);
    assert_eq!(sequencer.seq(0xFFFF_FFFF), 0xFFFF_FFFF);
    assert_eq!(sequencer.seq(0x8000_0011), 0x8000_0011);
}

#[test]
fn a_fresh_sequencer_can_unroll_any_number() {
    let s = Sequencer::<u32>::new();
    assert!(s.can_unroll(0));
    assert!(s.can_unroll(u32::MAX));
}
