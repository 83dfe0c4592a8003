//! The one-line diagnostics of a QUIC connection: path counters, the
//! congestion controller's own telemetry and the pacing rate that the
//! congestion window implies. Only a connection that reports controller
//! telemetry gives a line.
use crate::pacer::{effective_pacing_bps, effective_pacing_of};
use vstd::prelude::*;

use crate::text::digit_str;

verus! {

/// The counters of a connection's path.
#[derive(Clone, Copy, Debug, PartialEq, Eq, Structural)]
pub struct PathStats {
    pub rtt_nanos: u128,
    pub cwnd: u64,
    pub congestion_events: u64,
    pub sent_packets: u64,
    pub lost_packets: u64,
    pub lost_bytes: u64,
    pub current_mtu: u16,
}

/// The congestion controller's own telemetry.
#[derive(Clone, Debug)]
pub struct PlankTelemetry {
    pub controller: String,
    pub side: String,
    pub remote: String,
    pub rtt_latest_nanos: u128,
    pub rtt_min_nanos: u128,
    pub rtt_max_nanos: u128,
    pub rtt_var_nanos: u128,
    pub in_flight_bytes: u64,
    pub in_flight_packets: u64,
    pub controller_pacing_bps: u64,
    pub bandwidth_estimate_bps: u64,
    pub queue_limit_bytes: u64,
    pub queue_datagrams: u64,
    pub queue_payload_bytes: u64,
    pub queue_memory_bytes: u64,
    pub queue_high_water_payload_bytes: u64,
    pub queue_high_water_memory_bytes: u64,
    pub queue_evicted_datagrams: u64,
    pub queue_evicted_payload_bytes: u64,
    pub mtu_dropped_datagrams: u64,
    pub mtu_dropped_payload_bytes: u64,
}

/// A snapshot of a connection's statistics.
#[derive(Clone, Debug)]
pub struct TelemetryStats {
    pub path: PathStats,
    pub udp_tx_bytes: u64,
    pub plank_telemetry: Option<PlankTelemetry>,
}

impl Default for PathStats {
    fn default() -> (p: Self)
        ensures
            p == (PathStats {
                rtt_nanos: 0,
                cwnd: 0,
                congestion_events: 0,
                sent_packets: 0,
                lost_packets: 0,
                lost_bytes: 0,
                current_mtu: 0,
            }),
    {
        PathStats {
            rtt_nanos: 0,
            cwnd: 0,
            congestion_events: 0,
            sent_packets: 0,
            lost_packets: 0,
            lost_bytes: 0,
            current_mtu: 0,
        }
    }
}

impl Default for TelemetryStats {
    fn default() -> (s: Self)
        ensures
            s.path.rtt_nanos == 0,
            s.path.cwnd == 0,
            s.udp_tx_bytes == 0,
            s.plank_telemetry is None,
    {
        TelemetryStats { path: PathStats::default(), udp_tx_bytes: 0, plank_telemetry: None }
    }
}

/// `v` in decimal digits, without leading zeros.
pub open spec fn decimal(v: nat) -> Seq<char>
    decreases v,
{
    if v < 10 {
        seq![(48 + v) as char]
    } else {
        decimal(v / 10).push((48 + v % 10) as char)
    }
}

/// `v` in decimal digits, without leading zeros, as `format!("{}", v)`
/// writes it.
pub(crate) fn decimal_string(v: u128) -> (s: String)
    ensures
        s@ == decimal(v as nat),
    decreases v,
{
    if v < 10 {
        String::from_str(digit_str(v as u8, true))
    } else {
        let s = decimal_string(v / 10).concat(digit_str((v % 10) as u8, true));
        assert(s@ =~= decimal((v / 10) as nat).push((48 + v % 10) as char));
        s
    }
}

/// One field of the line: a space, the name, `=` and the value.
pub open spec fn field(name: Seq<char>, value: Seq<char>) -> Seq<char> {
    " "@ + name + "="@ + value
}

/// A count of nanoseconds in whole microseconds.
pub open spec fn micros(nanos: u128) -> nat {
    (nanos / 1000) as nat
}

/// The diagnostics line of a snapshot with controller telemetry `p`.
pub open spec fn telemetry_text(s: TelemetryStats, p: PlankTelemetry) -> Seq<char> {
    "PLANK QUIC telemetry"@ + field("controller"@, p.controller@) + field("side"@, p.side@) + field(
        "remote"@,
        p.remote@,
    ) + field("rtt_us"@, decimal(micros(s.path.rtt_nanos))) + field(
        "rtt_latest_us"@,
        decimal(micros(p.rtt_latest_nanos)),
    ) + field("rtt_min_us"@, decimal(micros(p.rtt_min_nanos))) + field(
        "rtt_max_us"@,
        decimal(micros(p.rtt_max_nanos)),
    ) + field("rtt_var_us"@, decimal(micros(p.rtt_var_nanos))) + field(
        "cwnd_bytes"@,
        decimal(s.path.cwnd as nat),
    ) + field("in_flight_bytes"@, decimal(p.in_flight_bytes as nat)) + field(
        "in_flight_packets"@,
        decimal(p.in_flight_packets as nat),
    ) + field(
        "effective_pacing_bps"@,
        decimal(effective_pacing_of(s.path.cwnd as int, s.path.rtt_nanos as int) as nat),
    ) + field("controller_pacing_bps"@, decimal(p.controller_pacing_bps as nat)) + field(
        "bandwidth_estimate_bps"@,
        decimal(p.bandwidth_estimate_bps as nat),
    ) + field("congestion_events"@, decimal(s.path.congestion_events as nat)) + field(
        "sent_packets"@,
        decimal(s.path.sent_packets as nat),
    ) + field("sent_bytes"@, decimal(s.udp_tx_bytes as nat)) + field(
        "lost_packets"@,
        decimal(s.path.lost_packets as nat),
    ) + field("lost_bytes"@, decimal(s.path.lost_bytes as nat)) + field(
        "mtu"@,
        decimal(s.path.current_mtu as nat),
    ) + field("queue_limit_bytes"@, decimal(p.queue_limit_bytes as nat)) + field(
        "queue_datagrams"@,
        decimal(p.queue_datagrams as nat),
    ) + field("queue_payload_bytes"@, decimal(p.queue_payload_bytes as nat)) + field(
        "queue_memory_bytes"@,
        decimal(p.queue_memory_bytes as nat),
    ) + field(
        "queue_high_water_payload_bytes"@,
        decimal(p.queue_high_water_payload_bytes as nat),
    ) + field(
        "queue_high_water_memory_bytes"@,
        decimal(p.queue_high_water_memory_bytes as nat),
    ) + field("queue_evicted_datagrams"@, decimal(p.queue_evicted_datagrams as nat)) + field(
        "queue_evicted_payload_bytes"@,
        decimal(p.queue_evicted_payload_bytes as nat),
    ) + field("mtu_dropped_datagrams"@, decimal(p.mtu_dropped_datagrams as nat)) + field(
        "mtu_dropped_payload_bytes"@,
        decimal(p.mtu_dropped_payload_bytes as nat),
    ) + "\n"@
}

/// Appends a field to the line.
fn push_field(line: String, name: &str, value: &str) -> (r: String)
    ensures
        r@ == line@ + field(name@, value@),
{
    let r = line.concat(" ").concat(name).concat("=").concat(value);
    assert(r@ =~= line@ + field(name@, value@));
    r
}

/// Appends a numeric field to the line.
fn push_number(line: String, name: &str, value: u128) -> (r: String)
    ensures
        r@ == line@ + field(name@, decimal(value as nat)),
{
    let digits = decimal_string(value);
    push_field(line, name, digits.as_str())
}

/// The diagnostics line of a snapshot, or nothing where the connection
/// reports no controller telemetry. Durations are given in whole
/// microseconds.
pub fn telemetry_line(s: &TelemetryStats) -> (r: Option<String>)
    ensures
        match s.plank_telemetry {
            None => r is None,
            Some(p) => r matches Some(l) && l@ == telemetry_text(*s, p),
        },
{
    let p = match &s.plank_telemetry {
        Some(p) => p,
        None => {
            return None;
        },
    };
    let pacing = effective_pacing_bps(s.path.cwnd, s.path.rtt_nanos);
    let mut line = String::from_str("PLANK QUIC telemetry");
    line = push_field(line, "controller", p.controller.as_str());
    line = push_field(line, "side", p.side.as_str());
    line = push_field(line, "remote", p.remote.as_str());
    line = push_number(line, "rtt_us", s.path.rtt_nanos / 1000);
    line = push_number(line, "rtt_latest_us", p.rtt_latest_nanos / 1000);
    line = push_number(line, "rtt_min_us", p.rtt_min_nanos / 1000);
    line = push_number(line, "rtt_max_us", p.rtt_max_nanos / 1000);
    line = push_number(line, "rtt_var_us", p.rtt_var_nanos / 1000);
    line = push_number(line, "cwnd_bytes", s.path.cwnd as u128);
    line = push_number(line, "in_flight_bytes", p.in_flight_bytes as u128);
    line = push_number(line, "in_flight_packets", p.in_flight_packets as u128);
    line = push_number(line, "effective_pacing_bps", pacing as u128);
    line = push_number(line, "controller_pacing_bps", p.controller_pacing_bps as u128);
    line = push_number(line, "bandwidth_estimate_bps", p.bandwidth_estimate_bps as u128);
    line = push_number(line, "congestion_events", s.path.congestion_events as u128);
    line = push_number(line, "sent_packets", s.path.sent_packets as u128);
    line = push_number(line, "sent_bytes", s.udp_tx_bytes as u128);
    line = push_number(line, "lost_packets", s.path.lost_packets as u128);
    line = push_number(line, "lost_bytes", s.path.lost_bytes as u128);
    line = push_number(line, "mtu", s.path.current_mtu as u128);
    line = push_number(line, "queue_limit_bytes", p.queue_limit_bytes as u128);
    line = push_number(line, "queue_datagrams", p.queue_datagrams as u128);
    line = push_number(line, "queue_payload_bytes", p.queue_payload_bytes as u128);
    line = push_number(line, "queue_memory_bytes", p.queue_memory_bytes as u128);
    line = push_number(
        line,
        "queue_high_water_payload_bytes",
        p.queue_high_water_payload_bytes as u128,
    );
    line = push_number(
        line,
        "queue_high_water_memory_bytes",
        p.queue_high_water_memory_bytes as u128,
    );
    line = push_number(line, "queue_evicted_datagrams", p.queue_evicted_datagrams as u128);
    line = push_number(line, "queue_evicted_payload_bytes", p.queue_evicted_payload_bytes as u128);
    line = push_number(line, "mtu_dropped_datagrams", p.mtu_dropped_datagrams as u128);
    line = push_number(line, "mtu_dropped_payload_bytes", p.mtu_dropped_payload_bytes as u128);
    line = line.concat("\n");
    Some(line)
}

} // verus!
