use kymux::telemetry::{telemetry_line, PlankTelemetry, TelemetryStats};
use std::time::Duration;

fn sample() -> TelemetryStats {
    let mut stats = TelemetryStats::default();
    stats.path.rtt_nanos = Duration::from_micros(20_000).as_nanos();
    stats.path.cwnd = 2_000_000;
    stats.path.congestion_events = 3;
    stats.path.sent_packets = 4;
    stats.udp_tx_bytes = 5;
    stats.path.lost_packets = 6;
    stats.path.lost_bytes = 7;
    stats.path.current_mtu = 1320;
    stats.plank_telemetry = Some(PlankTelemetry {
        controller: "target-rate".to_string(),
        side: "server".to_string(),
        remote: "192.0.2.1:28989".to_string(),
        rtt_latest_nanos: Duration::from_micros(21_000).as_nanos(),
        rtt_min_nanos: Duration::from_micros(19_000).as_nanos(),
        rtt_max_nanos: Duration::from_micros(22_000).as_nanos(),
        rtt_var_nanos: Duration::from_micros(1_000).as_nanos(),
        in_flight_bytes: 8,
        in_flight_packets: 9,
        controller_pacing_bps: 10,
        bandwidth_estimate_bps: 11,
        queue_limit_bytes: 12,
        queue_datagrams: 13,
        queue_payload_bytes: 14,
        queue_memory_bytes: 15,
        queue_high_water_payload_bytes: 16,
        queue_high_water_memory_bytes: 17,
        queue_evicted_datagrams: 18,
        queue_evicted_payload_bytes: 19,
        mtu_dropped_datagrams: 20,
        mtu_dropped_payload_bytes: 21,
    });
    stats
}

#[test]
fn preserves_existing_telemetry_fields_and_values() {
    let output = telemetry_line(&sample()).unwrap();
    assert_eq!(
        output,
        [
            "PLANK QUIC telemetry controller=target-rate side=server remote=192.0.2.1:28989 ",
            "rtt_us=20000 rtt_latest_us=21000 rtt_min_us=19000 rtt_max_us=22000 rtt_var_us=1000 ",
            "cwnd_bytes=2000000 in_flight_bytes=8 in_flight_packets=9 effective_pacing_bps=1000000000 ",
            "controller_pacing_bps=10 bandwidth_estimate_bps=11 congestion_events=3 sent_packets=4 ",
            "sent_bytes=5 lost_packets=6 lost_bytes=7 mtu=1320 queue_limit_bytes=12 queue_datagrams=13 ",
            "queue_payload_bytes=14 queue_memory_bytes=15 queue_high_water_payload_bytes=16 ",
            "queue_high_water_memory_bytes=17 queue_evicted_datagrams=18 queue_evicted_payload_bytes=19 ",
            "mtu_dropped_datagrams=20 mtu_dropped_payload_bytes=21\n",
        ]
        .concat()
    );
}

#[test]
fn missing_snapshot_is_silent_and_pacing_calculation_is_bounded() {
    // A connection without controller telemetry gives no line at all.
    assert!(telemetry_line(&TelemetryStats::default()).is_none());
    for (rtt, expected) in [(Duration::ZERO, 0), (Duration::from_nanos(1), u64::MAX)] {
        let mut stats = sample();
        stats.path.rtt_nanos = rtt.as_nanos();
        stats.path.cwnd = u64::MAX;
        let output = telemetry_line(&stats).unwrap();
        assert!(output.contains(&format!(" effective_pacing_bps={expected} ")));
    }
}

#[test]
fn durations_are_reported_in_whole_microseconds() {
    let mut stats = sample();
    stats.path.rtt_nanos = 1_999;
    let output = telemetry_line(&stats).unwrap();
    assert!(output.contains(" rtt_us=1 "));
}
