use std::marker::PhantomData;
use vstd::prelude::*;

verus! {

/// Unrolls a circular `bits`-wide sequence number into a 64-bit one.
///
/// `newest` is the most recent unrolled value, `value` the wire value
/// (`value < 2^bits`).
pub open spec fn unrolled(newest: int, value: int, range: int) -> int {
    let half = range / 2;
    // The unique number congruent to `value` in (newest - half, newest + half].
    let near = value + range * ((newest + half - value) / range);
    if near >= 0 { near } else { near + range }
}

/// `r` lies in the half-open window of width `range` centred on `newest`,
/// or, where that window reaches below zero, in the first period.
pub open spec fn in_window(newest: int, r: int, range: int) -> bool {
    ||| newest - range / 2 < r <= newest + range / 2
    ||| (newest + range / 2 < r && r < range)
}

/// The wire ranges a sequencer supports (8, 16 and 32 bits).
pub open spec fn valid_range(range: int) -> bool {
    range == 0x100 || range == 0x1_0000 || range == 0x1_0000_0000
}

/// Unrolling `value` next to `newest` stays within 64 bits: the number
/// in `newest`'s period, moved a half range up for the comparison, a whole
/// range up where it wraps forward, and `newest` moved a half range up where
/// that comparison is made, all fit.
pub open spec fn unroll_fits(newest: int, value: int, range: int) -> bool {
    let half = range / 2;
    let s0 = newest - newest % range + value;
    &&& s0 + half <= u64::MAX
    &&& newest >= s0 + half ==> s0 + range <= u64::MAX
    &&& newest < s0 + half ==> newest + half <= u64::MAX
}

/// A multiple of the range that fits in 64 bits leaves at least a range
/// below 2^64.
proof fn lemma_period_below_top(q: int, range: int)
    requires
        valid_range(range),
        q >= 0,
        range * q <= u64::MAX,
    ensures
        range * q <= 0x1_0000_0000_0000_0000 - range,
{
    let k: int = if range == 0x100 {
        0x100_0000_0000_0000
    } else if range == 0x1_0000 {
        0x1_0000_0000_0000
    } else {
        0x1_0000_0000
    };
    assert(range * k == 0x1_0000_0000_0000_0000);
    assert(q < k) by (nonlinear_arith)
        requires
            range * q <= 0x1_0000_0000_0000_0000 - 1,
            range * k == 0x1_0000_0000_0000_0000,
            range > 0;
    assert(range * q <= range * (k - 1)) by (nonlinear_arith)
        requires
            q <= k - 1,
            range > 0;
    assert(range * (k - 1) == range * k - range) by (nonlinear_arith);
}

proof fn lemma_base_mod(newest: int, value: int, range: int)
    requires
        range > 0,
        newest >= 0,
        0 <= value < range,
    ensures
        (newest - newest % range + value) % range == value,
        (newest - newest % range + value + range) % range == value,
        (newest - newest % range + value - range) % range == value,
        0 <= newest % range < range,
{
    let q = newest / range;
    vstd::arithmetic::div_mod::lemma_fundamental_div_mod(newest, range);
    assert(newest - newest % range == range * q);
    vstd::arithmetic::div_mod::lemma_mod_multiples_vanish(q, value, range);
    vstd::arithmetic::div_mod::lemma_mod_multiples_vanish(q + 1, value, range);
    vstd::arithmetic::div_mod::lemma_mod_multiples_vanish(q - 1, value, range);
    vstd::arithmetic::div_mod::lemma_small_mod(value as nat, range as nat);
    assert(range * (q + 1) == range * q + range) by (nonlinear_arith);
    assert(range * (q - 1) == range * q - range) by (nonlinear_arith);
}

/// Unrolls `value` (a wire number below `range`) next to `newest`.
fn unroll(newest: u64, value: u64, range: u64) -> (r: u64)
    requires
        valid_range(range as int),
        value < range,
        unroll_fits(newest as int, value as int, range as int),
    ensures
        r as int % range as int == value as int,
        in_window(newest as int, r as int, range as int),
        r <= u64::MAX - range / 2,
{
    let half = range / 2;
    proof {
        lemma_base_mod(newest as int, value as int, range as int);
        let q = newest as int / range as int;
        vstd::arithmetic::div_mod::lemma_fundamental_div_mod(newest as int, range as int);
        assert(newest as int - newest as int % range as int == range * q);
        assert(q >= 0) by (nonlinear_arith)
            requires
                newest >= 0,
                range > 0,
                q == newest as int / range as int;
        if newest as int - newest as int % range as int + value + range <= u64::MAX {
            assert(range * (q + 1) == range * q + range) by (nonlinear_arith);
            lemma_period_below_top(q + 1, range as int);
        }
    }
    let mut s = (newest - newest % range) + value;
    if newest >= s + half {
        s = s + range;
    } else if s > newest + half && s >= range {
        s = s - range;
    }
    s
}

/// Sequencer unrolling a circular wire sequence number (8, 16 or 32 bits)
/// into a monotonic 64-bit space.
pub struct Sequencer<T> {
    newest_seq: u64,
    _phantom: PhantomData<T>,
}

impl<T> Sequencer<T> {
    /// The most recent (highest) unrolled sequence number.
    pub closed spec fn newest(&self) -> nat {
        self.newest_seq as nat
    }

    pub fn new() -> (s: Self)
        ensures
            s.newest() == 0,
    {
        Sequencer { newest_seq: 0, _phantom: PhantomData }
    }

    /// The most recent unrolled sequence number.
    pub fn newest_seq(&self) -> (n: u64)
        ensures
            n == self.newest(),
    {
        self.newest_seq
    }
}


impl Sequencer<u8> {
    /// Unrolls an 8-bit wire sequence number.
    pub fn seq(&mut self, value: u8) -> (r: u64)
        requires
            unroll_fits(old(self).newest() as int, value as int, 0x100),
        ensures
            r <= u64::MAX - 0x80,
            r as int % 0x100 == value as int,
            in_window(old(self).newest() as int, r as int, 0x100),
            final(self).newest() == if r > old(self).newest() { r as nat } else { old(self).newest() },
    {
        let s = unroll(self.newest_seq, value as u64, 0x100);
        if s > self.newest_seq {
            self.newest_seq = s;
        }
        s
    }
}

impl Sequencer<u16> {
    /// Unrolls a 16-bit wire sequence number.
    pub fn seq(&mut self, value: u16) -> (r: u64)
        requires
            unroll_fits(old(self).newest() as int, value as int, 0x1_0000),
        ensures
            r <= u64::MAX - 0x8000,
            r as int % 0x1_0000 == value as int,
            in_window(old(self).newest() as int, r as int, 0x1_0000),
            final(self).newest() == if r > old(self).newest() { r as nat } else { old(self).newest() },
    {
        let s = unroll(self.newest_seq, value as u64, 0x1_0000);
        if s > self.newest_seq {
            self.newest_seq = s;
        }
        s
    }
}

impl Sequencer<u32> {
    /// Whether unrolling the 32-bit wire number `value` stays within 64 bits.
    pub fn can_unroll(&self, value: u32) -> (b: bool)
        ensures
            b == unroll_fits(self.newest() as int, value as int, 0x1_0000_0000),
    {
        let newest = self.newest_seq as u128;
        let range: u128 = 0x1_0000_0000;
        let half: u128 = 0x8000_0000;
        let s0 = newest - newest % range + value as u128;
        let max = u64::MAX as u128;
        if s0 + half > max {
            return false;
        }
        if newest >= s0 + half {
            s0 + range <= max
        } else {
            newest + half <= max
        }
    }

    /// Unrolls a 32-bit wire sequence number.
    pub fn seq(&mut self, value: u32) -> (r: u64)
        requires
            unroll_fits(old(self).newest() as int, value as int, 0x1_0000_0000),
        ensures
            r <= u64::MAX - 0x8000_0000,
            r as int % 0x1_0000_0000 == value as int,
            in_window(old(self).newest() as int, r as int, 0x1_0000_0000),
            final(self).newest() == if r > old(self).newest() { r as nat } else { old(self).newest() },
    {
        let s = unroll(self.newest_seq, value as u64, 0x1_0000_0000);
        if s > self.newest_seq {
            self.newest_seq = s;
        }
        s
    }
}

proof fn lemma_congruent_close_equal(a: int, b: int, range: int)
    requires
        range > 0,
        a % range == b % range,
        a - range < b < a + range,
    ensures
        a == b,
{
    vstd::arithmetic::div_mod::lemma_fundamental_div_mod(a, range);
    vstd::arithmetic::div_mod::lemma_fundamental_div_mod(b, range);
    let qa = a / range;
    let qb = b / range;
    assert(a - b == range * (qa - qb)) by (nonlinear_arith)
        requires
            a == range * qa + a % range,
            b == range * qb + b % range,
            a % range == b % range;
    if qa > qb {
        assert(range * (qa - qb) >= range) by (nonlinear_arith)
            requires
                qa - qb >= 1,
                range > 0;
    } else if qa < qb {
        assert(range * (qa - qb) <= -range) by (nonlinear_arith)
            requires
                qb - qa >= 1,
                range > 0;
    } else {
        assert(range * (qa - qb) == 0) by (nonlinear_arith)
            requires
                qa == qb;
    }
}

/// The unrolled number is determined by the wire value and the newest
/// number alone: two non-negative numbers with the same wire value that both
/// lie in the window of `newest` are equal.
pub proof fn lemma_unrolled_unique(newest: int, r1: int, r2: int, range: int)
    requires
        valid_range(range),
        newest >= 0,
        r1 >= 0,
        r2 >= 0,
        r1 % range == r2 % range,
        in_window(newest, r1, range),
        in_window(newest, r2, range),
    ensures
        r1 == r2,
{
    lemma_congruent_close_equal(r1, r2, range);
}

/// A sequencer recovers the true 64-bit sequence number `t` from its wire
/// value whenever `t` lies within half a wire range of the newest number
/// received so far: this is what makes the unrolled space totally ordered.
pub proof fn lemma_recovers_nearby(newest: int, t: int, r: int, range: int)
    requires
        valid_range(range),
        newest >= 0,
        t >= 0,
        r >= 0,
        newest - range / 2 < t <= newest + range / 2,
        r % range == t % range,
        in_window(newest, r, range),
    ensures
        r == t,
{
    lemma_congruent_close_equal(r, t, range);
}
} // verus!
