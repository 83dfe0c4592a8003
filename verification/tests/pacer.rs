use kymux::pacer::{effective_pacing_bps, serialization_nanos, DatagramPacer};

const MS: u64 = 1_000_000;

#[test]
fn datagram_pacer_reserves_against_one_shared_timeline() {
    let now = 5 * MS;
    let mut pacer = DatagramPacer::new(8_000_000, 0, 0, now);
    let first = pacer.reserve_deadline(1_000, now).unwrap();
    let second = pacer.reserve_deadline(1_000, now).unwrap();
    assert_eq!(first - now, MS);
    assert_eq!(second - now, 2 * MS);
}

#[test]
fn datagram_pacer_permits_only_the_configured_burst() {
    let now = 5 * MS;
    let mut pacer = DatagramPacer::new(8_000_000, 2 * MS, 0, now);
    assert_eq!(pacer.reserve_deadline(1_000, now), Some(now));
    assert_eq!(pacer.reserve_deadline(1_000, now), Some(now));
    assert_eq!(pacer.reserve_deadline(1_000, now), Some(now + MS));
}

#[test]
fn zero_rate_disables_pacing() {
    let now = 5 * MS;
    let mut pacer = DatagramPacer::new(0, 2 * MS, 0, now);
    assert_eq!(pacer.reserve_deadline(64 * 1024, now), None);
}

#[test]
fn rate_change_restarts_the_timeline() {
    let mut pacer = DatagramPacer::new(8_000_000, 0, 28, 0);
    assert_eq!(pacer.target_bps(), 8_000_000);
    pacer.reserve_deadline(972, 0);
    assert_eq!(pacer.virtual_finish(), MS);
    pacer.set_target_bps(16_000_000, 10);
    assert_eq!(pacer.target_bps(), 16_000_000);
    assert_eq!(pacer.virtual_finish(), 10);
    assert_eq!(pacer.reserve_deadline(972, 10), Some(10 + MS / 2));
}

#[test]
fn serialization_rounds_up_and_pacing_rate_follows_the_window() {
    assert_eq!(serialization_nanos(1, 0, 3), 2_666_666_667);
    assert_eq!(serialization_nanos(usize::MAX, 1, 1), u64::MAX);
    // 2 MB window per 20 ms round trip, times five quarters.
    assert_eq!(effective_pacing_bps(2_000_000, 20_000_000), 1_000_000_000);
    assert_eq!(effective_pacing_bps(2_000_000, 0), 0);
}
