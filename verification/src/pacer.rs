//! Application-side pacing of datagrams: each datagram reserves its
//! serialization time on one shared timeline at the target rate, and may go
//! out as soon as it is no more than the burst allowance ahead of now.
//!
//! Instants are nanoseconds on the caller's monotonic clock.
use vstd::prelude::*;

verus! {

/// Nanoseconds to put `payload_bytes` plus `overhead_bytes` on the wire at
/// `target_bps` bits per second, rounded up and capped to 64 bits.
pub open spec fn serialization_of(payload_bytes: int, overhead_bytes: int, target_bps: int) -> int {
    let wire = if payload_bytes + overhead_bytes > usize::MAX {
        usize::MAX as int
    } else {
        payload_bytes + overhead_bytes
    };
    let bits_nanos = wire * 8 * 1_000_000_000;
    let t = (bits_nanos + target_bps - 1) / target_bps;
    if t > u64::MAX {
        u64::MAX as int
    } else {
        t
    }
}

/// When a datagram of `serialization` nanoseconds reserved at `now`
/// finishes, after the previous one finished at `finish`.
pub open spec fn finish_after(finish: int, now: int, serialization: int) -> int {
    (if finish < now {
        now
    } else {
        finish
    }) + serialization
}

/// When a datagram that finishes at `finish`, reserved at `now`, may go
/// out: no more than `burst` ahead of its finish, and not before now.
pub open spec fn deadline_of(finish: int, burst: int, now: int) -> int {
    if finish >= burst && finish - burst > now {
        finish - burst
    } else {
        now
    }
}

/// The serialization time of a datagram is never negative.
proof fn lemma_serialization_nonneg(payload_bytes: int, overhead_bytes: int, target_bps: int)
    requires
        payload_bytes >= 0,
        overhead_bytes >= 0,
        target_bps > 0,
    ensures
        serialization_of(payload_bytes, overhead_bytes, target_bps) >= 0,
{
    let wire = if payload_bytes + overhead_bytes > usize::MAX {
        usize::MAX as int
    } else {
        payload_bytes + overhead_bytes
    };
    let bits_nanos = wire * 8 * 1_000_000_000;
    assert(bits_nanos >= 0) by (nonlinear_arith)
        requires
            wire >= 0,
            bits_nanos == wire * 8 * 1_000_000_000;
    assert((bits_nanos + target_bps - 1) / target_bps >= 0) by (nonlinear_arith)
        requires
            bits_nanos >= 0,
            target_bps > 0;
}

/// Deadlines are never before the instant of their reservation, and never
/// decrease: a reservation made no earlier than the previous one gets a
/// deadline no earlier than the previous one's, whatever the sizes.
pub proof fn lemma_deadlines_never_decrease(
    finish: int,
    burst: int,
    overhead: int,
    rate: int,
    n1: int,
    now1: int,
    n2: int,
    now2: int,
)
    requires
        overhead >= 0,
        rate > 0,
        n1 >= 0,
        n2 >= 0,
        now1 <= now2,
    ensures
        ({
            let f1 = finish_after(finish, now1, serialization_of(n1, overhead, rate));
            let f2 = finish_after(f1, now2, serialization_of(n2, overhead, rate));
            &&& deadline_of(f1, burst, now1) >= now1
            &&& deadline_of(f1, burst, now1) <= deadline_of(f2, burst, now2)
        }),
{
    lemma_serialization_nonneg(n1, overhead, rate);
    lemma_serialization_nonneg(n2, overhead, rate);
}

/// The serialization time of a datagram, in nanoseconds.
pub fn serialization_nanos(payload_bytes: usize, overhead_bytes: usize, target_bps: u64) -> (n: u64)
    requires
        target_bps > 0,
    ensures
        n == serialization_of(payload_bytes as int, overhead_bytes as int, target_bps as int),
{
    let wire: usize = payload_bytes.saturating_add(overhead_bytes);
    assert(wire * 8 * 1_000_000_000 <= u128::MAX) by (nonlinear_arith)
        requires
            wire <= usize::MAX,
            usize::MAX <= u64::MAX,
    ;
    let bits_nanos: u128 = (wire as u128) * 8 * 1_000_000_000;
    let bps = target_bps as u128;
    let t: u128 = bits_nanos / bps + if bits_nanos % bps == 0 {
        0
    } else {
        1
    };
    assert(t == (bits_nanos + bps - 1) / (bps as int)) by (nonlinear_arith)
        requires
            bps > 0,
            t == bits_nanos / bps + if bits_nanos % bps == 0 {
                0int
            } else {
                1int
            },
    ;
    if t > u64::MAX as u128 {
        u64::MAX
    } else {
        t as u64
    }
}

/// The pacer: its target rate (zero disables pacing), burst allowance and
/// per-datagram overhead, and the instant at which the last reserved
/// datagram finishes.
pub struct DatagramPacer {
    target_bps: u64,
    burst_nanos: u64,
    wire_overhead_bytes: usize,
    virtual_finish: u64,
}

impl DatagramPacer {
    pub closed spec fn rate(&self) -> u64 {
        self.target_bps
    }

    pub closed spec fn burst(&self) -> u64 {
        self.burst_nanos
    }

    pub closed spec fn overhead(&self) -> usize {
        self.wire_overhead_bytes
    }

    pub closed spec fn finish(&self) -> u64 {
        self.virtual_finish
    }

    pub fn new(target_bps: u64, burst_nanos: u64, wire_overhead_bytes: usize, now: u64) -> (p: Self)
        ensures
            p.rate() == target_bps,
            p.burst() == burst_nanos,
            p.overhead() == wire_overhead_bytes,
            p.finish() == now,
    {
        DatagramPacer { target_bps, burst_nanos, wire_overhead_bytes, virtual_finish: now }
    }

    pub fn target_bps(&self) -> (r: u64)
        ensures
            r == self.rate(),
    {
        self.target_bps
    }

    /// The bytes counted on the wire for each datagram besides its payload.
    pub fn wire_overhead_bytes(&self) -> (r: usize)
        ensures
            r == self.overhead(),
    {
        self.wire_overhead_bytes
    }

    /// The instant at which the last reserved datagram finishes.
    pub fn virtual_finish(&self) -> (f: u64)
        ensures
            f == self.finish(),
    {
        self.virtual_finish
    }

    /// Changes the rate and restarts the timeline at `now`.
    pub fn set_target_bps(&mut self, target_bps: u64, now: u64)
        ensures
            final(self).rate() == target_bps,
            final(self).finish() == now,
            final(self).burst() == old(self).burst(),
            final(self).overhead() == old(self).overhead(),
    {
        self.target_bps = target_bps;
        self.virtual_finish = now;
    }

    /// Reserves the wire time of a datagram of `payload_bytes` at `now`:
    /// nothing when pacing is disabled; otherwise the timeline, first
    /// brought up to `now`, advances by the datagram's serialization time,
    /// and the datagram may leave once it is within the burst allowance of
    /// the timeline's end, and not before `now`.
    pub fn reserve_deadline(&mut self, payload_bytes: usize, now: u64) -> (d: Option<u64>)
        requires
            old(self).rate() > 0 ==> (if old(self).finish() < now {
                now as int
            } else {
                old(self).finish() as int
            }) + serialization_of(
                payload_bytes as int,
                old(self).overhead() as int,
                old(self).rate() as int,
            ) <= u64::MAX,
        ensures
            final(self).rate() == old(self).rate(),
            final(self).burst() == old(self).burst(),
            final(self).overhead() == old(self).overhead(),
            old(self).rate() == 0 ==> d is None && final(self).finish() == old(self).finish(),
            old(self).rate() > 0 ==> {
                let finish = finish_after(
                    old(self).finish() as int,
                    now as int,
                    serialization_of(
                        payload_bytes as int,
                        old(self).overhead() as int,
                        old(self).rate() as int,
                    ),
                );
                &&& final(self).finish() == finish
                &&& d == Some(deadline_of(finish, old(self).burst() as int, now as int) as u64)
            },
    {
        if self.target_bps == 0 {
            return None;
        }
        let serialization = serialization_nanos(
            payload_bytes,
            self.wire_overhead_bytes,
            self.target_bps,
        );
        if self.virtual_finish < now {
            self.virtual_finish = now;
        }
        self.virtual_finish = self.virtual_finish + serialization;
        let earliest = if self.virtual_finish >= self.burst_nanos {
            self.virtual_finish - self.burst_nanos
        } else {
            now
        };
        Some(
            if earliest > now {
                earliest
            } else {
                now
            },
        )
    }
}


/// The pacing rate a congestion window implies: five quarters of one window
/// per round trip, in bits per second, capped to 64 bits; zero without a
/// round-trip estimate.
pub open spec fn effective_pacing_of(cwnd: int, rtt_nanos: int) -> int {
    if rtt_nanos == 0 {
        0
    } else {
        let den = if rtt_nanos * 4 > u128::MAX {
            u128::MAX as int
        } else {
            rtt_nanos * 4
        };
        let bps = (cwnd * 8 * 1_000_000_000 * 5) / den;
        if bps > u64::MAX {
            u64::MAX as int
        } else {
            bps
        }
    }
}

/// The pacing rate that a congestion window of `cwnd` bytes and a round
/// trip of `rtt_nanos` imply.
pub fn effective_pacing_bps(cwnd: u64, rtt_nanos: u128) -> (r: u64)
    ensures
        r == effective_pacing_of(cwnd as int, rtt_nanos as int),
{
    if rtt_nanos == 0 {
        return 0;
    }
    assert(cwnd * 8 * 1_000_000_000 * 5 <= u128::MAX) by (nonlinear_arith)
        requires
            cwnd <= u64::MAX,
    ;
    let num: u128 = (cwnd as u128) * 8 * 1_000_000_000 * 5;
    let den: u128 = if rtt_nanos > u128::MAX / 4 {
        u128::MAX
    } else {
        rtt_nanos * 4
    };
    let bps = num / den;
    if bps > u64::MAX as u128 {
        u64::MAX
    } else {
        bps as u64
    }
}

} // verus!
