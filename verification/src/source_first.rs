//! The systematic (source) symbols of an object, laid out as RFC 6330
//! section 4.4.1.2 prescribes: the object is cut into source blocks, each
//! padded with zeros to whole symbols, and each symbol concatenates one
//! slice of every sub-block of its block.
use crate::fec::{
    block_source_symbols, ceil_div, oti_symbols, partition,
    partition_of, raptorq_accepts, Oti, PayloadId, MAX_BLOCK_SYMBOLS,
};
use crate::serial::{append_bytes, copy_range};
use vstd::prelude::*;

verus! {

/// Where source block `b` of the object that `oti` describes starts: the
/// blocks come one after the other, the larger ones first.
pub open spec fn block_start(oti: Oti, b: int) -> int {
    let p = partition_of(oti_symbols(oti), oti.source_blocks as int);
    let t = oti.symbol_size as int;
    if b < p.2 {
        b * (p.0 * t)
    } else {
        p.2 * (p.0 * t) + (b - p.2) * (p.1 * t)
    }
}

/// Where source block `b` ends, padding included.
pub open spec fn block_end(oti: Oti, b: int) -> int {
    block_start(oti, b) + block_source_symbols(oti, b) * oti.symbol_size as int
}

/// `raptorq::calculate_block_offsets`: the start and end of each source
/// block of the object `data` that `oti` describes, as RFC 6330 section
/// 4.4.1.2 partitions it.
#[verifier::external_body]
fn calculate_block_offsets(data: &[u8], oti: &Oti) -> (r: Vec<(usize, usize)>)
    requires
        data@.len() == oti.transfer_length,
        oti.symbol_size > 0,
        oti.source_blocks > 0,
        raptorq_accepts(*oti),
    ensures
        r@.len() == oti.source_blocks,
        forall|b: int|
            0 <= b < r@.len() ==> #[trigger] r@[b].0 == block_start(*oti, b) && r@[b].1 == block_end(
                *oti,
                b,
            ),
{
    raptorq::calculate_block_offsets(
        data,
        &raptorq::ObjectTransmissionInformation::new(
            oti.transfer_length,
            oti.symbol_size,
            oti.source_blocks,
            oti.sub_blocks,
            oti.symbol_alignment,
        ),
    )
}

/// The alignment units that sub-block `n` contributes to each symbol.
pub open spec fn sub_block_units(oti: Oti, n: int) -> int {
    let p = partition_of(
        oti.symbol_size as int / oti.symbol_alignment as int,
        oti.sub_blocks as int,
    );
    if n < p.2 {
        p.0
    } else {
        p.1
    }
}

/// The bytes that sub-block `n` contributes to each symbol.
pub open spec fn sub_block_width(oti: Oti, n: int) -> int {
    sub_block_units(oti, n) * oti.symbol_alignment as int
}

/// The bytes that the sub-blocks before `n` contribute to each symbol.
pub open spec fn sub_block_offset(oti: Oti, n: int) -> int
    decreases n,
{
    if n <= 0 {
        0
    } else {
        sub_block_offset(oti, n - 1) + sub_block_width(oti, n - 1)
    }
}

/// Symbol `j` of a block of `k` symbols whose bytes are `block`, made of
/// its first `n` sub-blocks: sub-block `m` holds its `k` slices of
/// `sub_block_width(m)` bytes one after the other, and the symbol takes the
/// `j`-th slice of each.
pub open spec fn interleaved_symbol(block: Seq<u8>, k: int, oti: Oti, j: int, n: int) -> Seq<u8>
    decreases n,
{
    if n <= 0 {
        Seq::empty()
    } else {
        let w = sub_block_width(oti, n - 1);
        let base = k * sub_block_offset(oti, n - 1) + j * w;
        interleaved_symbol(block, k, oti, j, n - 1) + block.subrange(base, base + w)
    }
}

/// The bytes of source block `b`: its range of the object, padded with
/// zeros to whole symbols.
pub open spec fn padded_block(data: Seq<u8>, oti: Oti, b: int) -> Seq<u8> {
    let start = block_start(oti, b);
    let end = block_end(oti, b);
    let stop = if end < data.len() {
        end
    } else {
        data.len() as int
    };
    data.subrange(start, stop) + Seq::new((end - stop) as nat, |i: int| 0u8)
}

/// The source packets of block `b` whose `k` symbols are the bytes
/// `block`, in symbol order.
pub open spec fn symbols_of_block(block: Seq<u8>, k: int, oti: Oti, b: int) -> Seq<
    (PayloadId, Seq<u8>),
> {
    Seq::new(
        k as nat,
        |j: int|
            (
                PayloadId { source_block_number: b as u8, encoding_symbol_id: j as u32 },
                interleaved_symbol(block, k, oti, j, oti.sub_blocks as int),
            ),
    )
}

/// The source packets of block `b` of the object `data`, in symbol order.
pub open spec fn block_source_packets(data: Seq<u8>, oti: Oti, b: int) -> Seq<(PayloadId, Seq<u8>)> {
    symbols_of_block(padded_block(data, oti, b), block_source_symbols(oti, b), oti, b)
}

/// The source packets of the blocks before `z`, in block order.
pub open spec fn source_packets_of(data: Seq<u8>, oti: Oti, z: int) -> Seq<(PayloadId, Seq<u8>)>
    decreases z,
{
    if z <= 0 {
        Seq::empty()
    } else {
        source_packets_of(data, oti, z - 1) + block_source_packets(data, oti, z - 1)
    }
}

/// The packets as payload ids and byte sequences.
pub open spec fn packets_view(v: Seq<(PayloadId, Vec<u8>)>) -> Seq<(PayloadId, Seq<u8>)> {
    v.map_values(|e: (PayloadId, Vec<u8>)| (e.0, e.1@))
}

/// No source block starts past the end of the object: either every block
/// holds a symbol, or the object ends on a symbol boundary.
pub open spec fn blocks_within(oti: Oti) -> bool {
    oti_symbols(oti) >= oti.source_blocks as int || oti.transfer_length as int
        % oti.symbol_size as int == 0
}

/// `partition[i, j]` splits `i` exactly: the large and small parts add up
/// to `i`, there are `j` of them, and the large ones are at least as large.
proof fn lemma_partition_total(i: int, j: int)
    requires
        i >= 0,
        j > 0,
    ensures
        ({
            let p = partition_of(i, j);
            &&& 0 <= p.2 <= j
            &&& p.3 == j - p.2
            &&& p.2 * p.0 + p.3 * p.1 == i
            &&& 0 <= p.1 <= p.0
            &&& p.0 <= i
            &&& p.2 < j ==> p.1 * j <= i
            &&& p.0 * j < i + j
            &&& p.1 == 0 ==> i < j
        }),
{
    let small = i / j;
    let lc = i - small * j;
    vstd::arithmetic::div_mod::lemma_fundamental_div_mod(i, j);
    assert(i % j == lc) by {
        assert(j * (i / j) == small * j) by (nonlinear_arith)
            requires
                small == i / j,
        ;
    }
    assert(0 <= i % j < j) by {
        vstd::arithmetic::div_mod::lemma_mod_bound(i, j);
    }
    assert(small >= 0) by {
        vstd::arithmetic::div_mod::lemma_div_pos_is_pos(i, j);
    }
    assert(small * j <= i);
    if small == 0 {
        assert(small * j == 0) by (nonlinear_arith)
            requires
                small == 0,
        ;
    }
    if lc == 0 {
        assert(ceil_div(i, j) == small);
        assert(small * j < i + j);
        assert((j - lc) * small == i) by (nonlinear_arith)
            requires
                lc == 0,
                i == small * j,
        ;
        assert(small <= i) by (nonlinear_arith)
            requires
                i == small * j,
                j >= 1,
                small >= 0,
        ;
    } else {
        assert(ceil_div(i, j) == small + 1);
        assert(lc * (small + 1) + (j - lc) * small == i) by (nonlinear_arith)
            requires
                i == small * j + lc,
        ;
        assert(small + 1 <= i) by (nonlinear_arith)
            requires
                i == small * j + lc,
                j >= 1,
                lc >= 1,
                small >= 0,
        ;
        assert((small + 1) * j < i + j) by (nonlinear_arith)
            requires
                i == small * j + lc,
                lc < j,
                lc >= 1,
        ;
    }
}

/// The sub-blocks before `n` contribute their units' worth of bytes, and all
/// of them together fill a symbol.
proof fn lemma_sub_block_offset(oti: Oti, n: int)
    requires
        0 <= n <= oti.sub_blocks,
        oti.sub_blocks > 0,
        oti.symbol_alignment > 0,
    ensures
        ({
            let p = partition_of(
                oti.symbol_size as int / oti.symbol_alignment as int,
                oti.sub_blocks as int,
            );
            &&& n <= p.2 ==> sub_block_offset(oti, n) == n * p.0 * oti.symbol_alignment as int
            &&& n > p.2 ==> sub_block_offset(oti, n) == (p.2 * p.0 + (n - p.2) * p.1)
                * oti.symbol_alignment as int
        }),
        0 <= sub_block_offset(oti, n),
    decreases n,
{
    let al = oti.symbol_alignment as int;
    let i = oti.symbol_size as int / al;
    let p = partition_of(i, oti.sub_blocks as int);
    assert(i >= 0) by {
        vstd::arithmetic::div_mod::lemma_div_pos_is_pos(oti.symbol_size as int, al);
    }
    lemma_partition_total(i, oti.sub_blocks as int);
    if n > 0 {
        lemma_sub_block_offset(oti, n - 1);
        let m = n - 1;
        assert(sub_block_offset(oti, n) == sub_block_offset(oti, m) + sub_block_units(oti, m) * al);
        if n <= p.2 {
            assert(sub_block_units(oti, m) == p.0);
            assert(sub_block_offset(oti, m) == m * p.0 * al);
            assert(m * p.0 * al + p.0 * al == n * p.0 * al) by (nonlinear_arith)
                requires
                    n == m + 1,
            ;
        } else if m == p.2 {
            assert(p.2 * p.0 * al + p.1 * al == (p.2 * p.0 + (n - p.2) * p.1) * al) by (
            nonlinear_arith)
                requires
                    n == p.2 + 1,
            ;
        } else {
            assert((p.2 * p.0 + (m - p.2) * p.1) * al + p.1 * al == (p.2 * p.0 + (n - p.2) * p.1)
                * al) by (nonlinear_arith)
                requires
                    n == m + 1,
            ;
        }
    } else {
        assert(n * p.0 * al == 0) by (nonlinear_arith)
            requires
                n == 0,
        ;
    }
    let v = if n <= p.2 {
        n * p.0
    } else {
        p.2 * p.0 + (n - p.2) * p.1
    };
    assert(v >= 0) by (nonlinear_arith)
        requires
            v == (if n <= p.2 {
                n * p.0
            } else {
                p.2 * p.0 + (n - p.2) * p.1
            }),
            n >= 0,
            p.0 >= 0,
            p.1 >= 0,
            p.2 >= 0,
    ;
    assert(v * al >= 0) by (nonlinear_arith)
        requires
            v >= 0,
            al > 0,
    ;
}

/// All the sub-blocks together fill a symbol exactly.
proof fn lemma_sub_blocks_fill(oti: Oti)
    requires
        oti.sub_blocks > 0,
        oti.symbol_alignment > 0,
        oti.symbol_size as int % oti.symbol_alignment as int == 0,
    ensures
        sub_block_offset(oti, oti.sub_blocks as int) == oti.symbol_size,
{
    let al = oti.symbol_alignment as int;
    let i = oti.symbol_size as int / al;
    let p = partition_of(i, oti.sub_blocks as int);
    lemma_sub_block_offset(oti, oti.sub_blocks as int);
    lemma_partition_total(i, oti.sub_blocks as int);
    vstd::arithmetic::div_mod::lemma_fundamental_div_mod(oti.symbol_size as int, al);
    if oti.sub_blocks as int <= p.2 {
        assert(p.2 == oti.sub_blocks as int);
        assert(p.3 == 0);
        assert(p.3 * p.1 == 0) by (nonlinear_arith)
            requires
                p.3 == 0,
        ;
    }
    assert(al * i == i * al) by (nonlinear_arith);
}

/// The sub-blocks before `n` contribute no more than all of them.
proof fn lemma_sub_block_offset_grows(oti: Oti, n: int, m: int)
    requires
        0 <= n <= m,
        oti.symbol_alignment > 0,
        oti.sub_blocks > 0,
    ensures
        sub_block_offset(oti, n) <= sub_block_offset(oti, m),
    decreases m - n,
{
    if n < m {
        lemma_sub_block_offset_grows(oti, n, m - 1);
        let al = oti.symbol_alignment as int;
        let i = oti.symbol_size as int / al;
        assert(i >= 0) by {
            vstd::arithmetic::div_mod::lemma_div_pos_is_pos(oti.symbol_size as int, al);
        }
        lemma_partition_total(i, oti.sub_blocks as int);
        assert(sub_block_width(oti, m - 1) >= 0) by (nonlinear_arith)
            requires
                sub_block_units(oti, m - 1) >= 0,
                al > 0,
                sub_block_width(oti, m - 1) == sub_block_units(oti, m - 1) * al,
        ;
    }
}

/// The source blocks of an object: where each starts and ends, and how
/// many symbols it holds.
proof fn lemma_blocks(oti: Oti, b: int)
    requires
        0 <= b < oti.source_blocks,
        oti.symbol_size > 0,
        raptorq_accepts(oti),
        blocks_within(oti),
    ensures
        0 <= block_source_symbols(oti, b) <= MAX_BLOCK_SYMBOLS,
        0 <= block_start(oti, b) <= oti.transfer_length,
        block_end(oti, b) == block_start(oti, b) + block_source_symbols(oti, b) * oti.symbol_size,
        block_end(oti, b) < oti.transfer_length + oti.symbol_size,
        oti_symbols(oti) >= oti.source_blocks ==> block_source_symbols(oti, b) >= 1,
{
    let t = oti.symbol_size as int;
    let z = oti.source_blocks as int;
    let f = oti.transfer_length as int;
    let kt = oti_symbols(oti);
    let p = partition_of(kt, z);
    vstd::arithmetic::div_mod::lemma_fundamental_div_mod(f, t);
    vstd::arithmetic::div_mod::lemma_mod_bound(f, t);
    assert(f / t >= 0) by {
        vstd::arithmetic::div_mod::lemma_div_pos_is_pos(f, t);
    }
    assert(kt >= 0);
    lemma_partition_total(kt, z);
    // The whole object, in symbols.
    assert(kt * t < f + t && f <= kt * t) by (nonlinear_arith)
        requires
            f == t * (f / t) + f % t,
            0 <= f % t < t,
            kt == f / t + if f % t == 0 {
                0int
            } else {
                1int
            },
    ;
    assert(p.0 <= MAX_BLOCK_SYMBOLS);
    let k = block_source_symbols(oti, b);
    if b < p.2 {
        // Block b is one of the large ones; those after it hold at least as much.
        assert(b * (p.0 * t) + p.0 * t <= p.2 * (p.0 * t)) by (nonlinear_arith)
            requires
                b + 1 <= p.2,
                p.0 * t >= 0,
        ;
        assert(p.2 * (p.0 * t) + p.3 * (p.1 * t) == kt * t) by (nonlinear_arith)
            requires
                p.2 * p.0 + p.3 * p.1 == kt,
        ;
        assert(p.3 * (p.1 * t) >= 0) by (nonlinear_arith)
            requires
                p.3 >= 0,
                p.1 >= 0,
                t > 0,
        ;
        assert(b * (p.0 * t) >= 0) by (nonlinear_arith)
            requires
                b >= 0,
                p.0 >= 0,
                t > 0,
        ;
        if p.0 == 0 {
            assert(b * (p.0 * t) == 0) by (nonlinear_arith)
                requires
                    p.0 == 0,
            ;
        } else {
            assert(p.0 * t >= t) by (nonlinear_arith)
                requires
                    p.0 >= 1,
                    t > 0,
            ;
        }
    } else {
        assert(p.2 * (p.0 * t) + (b - p.2) * (p.1 * t) + p.1 * t <= p.2 * (p.0 * t) + p.3 * (p.1
            * t)) by (nonlinear_arith)
            requires
                b - p.2 + 1 <= p.3,
                p.1 * t >= 0,
        ;
        assert(p.2 * (p.0 * t) + p.3 * (p.1 * t) == kt * t) by (nonlinear_arith)
            requires
                p.2 * p.0 + p.3 * p.1 == kt,
        ;
        assert(p.2 * (p.0 * t) + (b - p.2) * (p.1 * t) >= 0) by (nonlinear_arith)
            requires
                b >= p.2,
                p.2 >= 0,
                p.0 >= 0,
                p.1 >= 0,
                t > 0,
        ;
        if p.1 == 0 {
            // No symbol left for the small blocks: they all start at the end.
            assert(kt < z);
            assert(f % t == 0);
            assert(kt * t == f) by (nonlinear_arith)
                requires
                    f == t * (f / t) + f % t,
                    f % t == 0,
                    kt == f / t,
            ;
        } else {
            assert(p.1 * t >= t) by (nonlinear_arith)
                requires
                    p.1 >= 1,
                    t > 0,
            ;
        }
    }
    assert(k * t >= 0) by (nonlinear_arith)
        requires
            k >= 0,
            t > 0,
    ;
}

/// The symbol layout parameters that every block shares: the object's
/// transmission information, and its sub-block partition in alignment units.
pub open spec fn layout(oti: Oti, large: u32, small: u32, large_count: u32) -> bool {
    let units = oti.symbol_size as int / oti.symbol_alignment as int;
    &&& oti.symbol_size > 0
    &&& oti.symbol_alignment > 0
    &&& oti.sub_blocks > 0
    &&& oti.symbol_size as int % oti.symbol_alignment as int == 0
    &&& large as int == partition_of(units, oti.sub_blocks as int).0
    &&& small as int == partition_of(units, oti.sub_blocks as int).1
    &&& large_count as int == partition_of(units, oti.sub_blocks as int).2
}

/// The sub-block partition of each symbol, in alignment units.
fn symbol_partition(oti: &Oti) -> (r: (u32, u32, u32))
    requires
        oti.symbol_size > 0,
        oti.symbol_alignment > 0,
        oti.sub_blocks > 0,
        oti.symbol_size as int % oti.symbol_alignment as int == 0,
    ensures
        layout(*oti, r.0, r.1, r.2),
{
    let units = oti.symbol_size as u32 / oti.symbol_alignment as u32;
    let (large, small, large_count, _) = partition(units, oti.sub_blocks as u32);
    (large, small, large_count)
}

/// The bytes of source block `b`, from `start` to `end` of the object:
/// what the object holds there, then zeros.
fn pad_block(data: &[u8], start: usize, end: usize) -> (padded: Vec<u8>)
    requires
        start <= end,
        start <= data@.len(),
    ensures
        padded@ == data@.subrange(start as int, if end < data@.len() {
            end as int
        } else {
            data@.len() as int
        }) + Seq::new(
            (end - (if end < data@.len() {
                end as int
            } else {
                data@.len() as int
            })) as nat,
            |i: int| 0u8,
        ),
{
    let stop = if end < data.len() {
        end
    } else {
        data.len()
    };
    let mut padded = copy_range(data, start, stop);
    while padded.len() < end - start
        invariant
            start <= stop <= end,
            stop <= data@.len(),
            padded@.len() <= end - start,
            padded@ == data@.subrange(start as int, stop as int) + Seq::new(
                (padded@.len() - (stop - start)) as nat,
                |i: int| 0u8,
            ),
            padded@.len() >= stop - start,
        decreases end - start - padded@.len(),
    {
        padded.push(0);
        assert(padded@ =~= data@.subrange(start as int, stop as int) + Seq::new(
            (padded@.len() - (stop - start)) as nat,
            |i: int| 0u8,
        ));
    }
    padded
}

/// Appends the `k` source packets of block `b`, whose bytes are `block`:
/// each symbol is built from the slices it takes of each sub-block.
fn append_block_symbols(
    packets: &mut Vec<(PayloadId, Vec<u8>)>,
    block: &[u8],
    k: usize,
    b: u8,
    oti: &Oti,
    large: u32,
    small: u32,
    large_count: u32,
)
    requires
        layout(*oti, large, small, large_count),
        block@.len() == k * oti.symbol_size,
        k <= MAX_BLOCK_SYMBOLS,
    ensures
        packets_view(final(packets)@) == packets_view(old(packets)@) + symbols_of_block(
            block@,
            k as int,
            *oti,
            b as int,
        ),
{
    let t = oti.symbol_size as usize;
    let al = oti.symbol_alignment as usize;
    let sub_blocks = oti.sub_blocks as u32;
    let _ = block.len();
    assert(block@.len() <= usize::MAX);
    let ghost units = oti.symbol_size as int / oti.symbol_alignment as int;
    proof {
        lemma_partition_total(units, oti.sub_blocks as int);
        lemma_sub_blocks_fill(*oti);
    }
    let ghost done = packets_view(packets@);
    let ghost all = symbols_of_block(block@, k as int, *oti, b as int);
    let mut j: usize = 0;
    while j < k
        invariant
            j <= k,
            k <= MAX_BLOCK_SYMBOLS,
            layout(*oti, large, small, large_count),
            block@.len() == k * t,
            block@.len() <= usize::MAX,
            t == oti.symbol_size,
            al == oti.symbol_alignment,
            sub_blocks == oti.sub_blocks,
            units == oti.symbol_size as int / oti.symbol_alignment as int,
            sub_block_offset(*oti, oti.sub_blocks as int) == oti.symbol_size,
            all == symbols_of_block(block@, k as int, *oti, b as int),
            packets_view(packets@) == done + all.take(j as int),
        decreases k - j,
    {
        let mut symbol: Vec<u8> = Vec::new();
        let mut offset: usize = 0;
        let mut n: u32 = 0;
        while n < sub_blocks
            invariant
                n <= sub_blocks,
                j < k,
                sub_blocks == oti.sub_blocks,
                layout(*oti, large, small, large_count),
                al == oti.symbol_alignment,
                t == oti.symbol_size,
                block@.len() == k * t,
                block@.len() <= usize::MAX,
                offset == k * sub_block_offset(*oti, n as int),
                symbol@ == interleaved_symbol(block@, k as int, *oti, j as int, n as int),
                units == oti.symbol_size as int / oti.symbol_alignment as int,
                sub_block_offset(*oti, oti.sub_blocks as int) == oti.symbol_size,
            decreases sub_blocks - n,
        {
            let ghost s_n = sub_block_offset(*oti, n as int);
            let ghost w = sub_block_width(*oti, n as int);
            let ghost s_total = sub_block_offset(*oti, oti.sub_blocks as int);
            proof {
                lemma_sub_block_offset(*oti, n as int);
                lemma_sub_block_offset_grows(*oti, n as int + 1, oti.sub_blocks as int);
                lemma_partition_total(units, oti.sub_blocks as int);
                assert(sub_block_offset(*oti, n as int + 1) == s_n + w);
                assert(w >= 0) by (nonlinear_arith)
                    requires
                        w == sub_block_units(*oti, n as int) * al,
                        sub_block_units(*oti, n as int) >= 0,
                        al > 0,
                ;
                assert(k * s_n + j * w + w <= k * s_total) by (nonlinear_arith)
                    requires
                        j + 1 <= k,
                        s_n + w <= s_total,
                        w >= 0,
                        s_n >= 0,
                        k >= 0,
                ;
                assert(k * (s_n + w) <= k * s_total) by (nonlinear_arith)
                    requires
                        s_n + w <= s_total,
                        k >= 0,
                ;
                assert(k * s_n + k * w == k * (s_n + w)) by (nonlinear_arith);
                assert(k * s_total == k * t);
            }
            let units_n = if n < large_count {
                large
            } else {
                small
            };
            proof {
                assert(units_n as int == sub_block_units(*oti, n as int));
                assert(units_n as int * al as int == w);
                assert(j * w <= k * w) by (nonlinear_arith)
                    requires
                        j < k,
                        w >= 0,
                ;
            }
            let width = units_n as usize * al;
            let base = offset + j * width;
            append_bytes(&mut symbol, vstd::slice::slice_subrange(block, base, base + width));
            offset = offset + k * width;
            n = n + 1;
            proof {
                assert(symbol@ =~= interleaved_symbol(block@, k as int, *oti, j as int, n as int));
            }
        }
        let ghost before = packets@;
        packets.push((PayloadId { source_block_number: b, encoding_symbol_id: j as u32 }, symbol));
        j = j + 1;
        proof {
            assert(packets_view(packets@) =~= packets_view(before).push(all[j - 1]));
            assert(all.take(j as int) =~= all.take(j - 1).push(all[j - 1]));
        }
    }
    assert(all.take(k as int) =~= all);
}

/// The bytes of block `b` of the object `data`, as the block offsets give
/// them, with their symbol count.
fn block_bytes(data: &[u8], oti: &Oti, start: usize, end: usize, b: usize) -> (r: (Vec<u8>, usize))
    requires
        data@.len() == oti.transfer_length,
        oti.symbol_size > 0,
        b < oti.source_blocks,
        raptorq_accepts(*oti),
        blocks_within(*oti),
        start == block_start(*oti, b as int),
        end == block_end(*oti, b as int),
    ensures
        r.0@ == padded_block(data@, *oti, b as int),
        r.1 == block_source_symbols(*oti, b as int),
        r.1 <= MAX_BLOCK_SYMBOLS,
        r.0@.len() == r.1 * oti.symbol_size,
{
    proof {
        lemma_blocks(*oti, b as int);
    }
    let padded = pad_block(data, start, end);
    assert(padded@ =~= padded_block(data@, *oti, b as int));
    let k = padded.len() / (oti.symbol_size as usize);
    proof {
        vstd::arithmetic::div_mod::lemma_div_by_multiple(
            block_source_symbols(*oti, b as int),
            oti.symbol_size as int,
        );
    }
    (padded, k)
}

/// The systematic packets of the object `data` that `oti` describes: for
/// each source block in turn, its symbols in order, each tagged with its
/// block and symbol number. Symbols are built one at a time from the slices
/// they take of each sub-block.
pub fn source_packets(data: &[u8], oti: &Oti) -> (r: Vec<(PayloadId, Vec<u8>)>)
    requires
        data@.len() == oti.transfer_length,
        oti.symbol_size > 0,
        oti.source_blocks > 0,
        oti.sub_blocks > 0,
        raptorq_accepts(*oti),
        blocks_within(*oti),
    ensures
        packets_view(r@) == source_packets_of(data@, *oti, oti.source_blocks as int),
{
    let offsets = calculate_block_offsets(data, oti);
    let (large, small, large_count) = symbol_partition(oti);
    let mut packets: Vec<(PayloadId, Vec<u8>)> = Vec::new();
    let mut b: usize = 0;
    while b < offsets.len()
        invariant
            offsets@.len() == oti.source_blocks,
            forall|c: int|
                0 <= c < offsets@.len() ==> #[trigger] offsets@[c].0 == block_start(*oti, c)
                    && offsets@[c].1 == block_end(*oti, c),
            b <= offsets@.len(),
            packets_view(packets@) == source_packets_of(data@, *oti, b as int),
            data@.len() == oti.transfer_length,
            raptorq_accepts(*oti),
            blocks_within(*oti),
            layout(*oti, large, small, large_count),
        decreases offsets@.len() - b,
    {
        let (start, end) = offsets[b];
        let (block, k) = block_bytes(data, oti, start, end, b);
        append_block_symbols(&mut packets, block.as_slice(), k, b as u8, oti, large, small, large_count);
        b = b + 1;
    }
    packets
}


/// The transmission information that `raptorq`'s encoder chooses by
/// default for an object of `transfer_length` bytes sent in packets of at
/// most `max_packet_size` bytes.
pub uninterp spec fn default_oti_of(transfer_length: u64, max_packet_size: u16) -> Oti;

/// The symbol size that `raptorq` chooses for packets of at most
/// `max_packet_size` bytes: the largest multiple of the alignment (8 bytes
/// for packets of 64 bytes or more, else 1) that fits.
pub open spec fn default_symbol_size(max_packet_size: u16) -> int {
    let alignment: u16 = if max_packet_size >= 64 { 8 } else { 1 };
    (max_packet_size - max_packet_size % alignment) as int
}

/// The inputs on which `raptorq` computes its default parameters without
/// panicking: a nonempty object, and a symbol count that fits in the 32 bits
/// it is computed in (a count that wraps to zero divides by zero).
pub open spec fn default_oti_defined(transfer_length: u64, max_packet_size: u16) -> bool {
    &&& transfer_length > 0
    &&& max_packet_size > 0
    &&& ceil_div(transfer_length as int, default_symbol_size(max_packet_size)) < 0x1_0000_0000
}

/// `raptorq::ObjectTransmissionInformation::with_defaults`: the object's
/// length as given, an alignment of 8 bytes for packets of 64 bytes or more
/// (1 below), and the largest aligned symbol that fits in a packet. The
/// source block and sub-block counts come from RaptorQ's table of
/// systematic parameters and are not stated.
#[verifier::external_body]
fn default_oti(transfer_length: u64, max_packet_size: u16) -> (o: Oti)
    requires
        default_oti_defined(transfer_length, max_packet_size),
    ensures
        o == default_oti_of(transfer_length, max_packet_size),
        o.transfer_length == transfer_length,
        o.symbol_alignment == (if max_packet_size >= 64 {
            8u8
        } else {
            1u8
        }),
        o.symbol_size == max_packet_size - max_packet_size % (o.symbol_alignment as u16),
{
    let o = raptorq::ObjectTransmissionInformation::with_defaults(transfer_length, max_packet_size);
    Oti {
        transfer_length: o.transfer_length(),
        symbol_size: o.symbol_size(),
        source_blocks: o.source_blocks(),
        sub_blocks: o.sub_blocks(),
        symbol_alignment: o.symbol_alignment(),
    }
}

/// Transmission information that the encoder can work with: nonzero
/// partition parameters that RaptorQ accepts, and at least one symbol in
/// every source block.
pub open spec fn encodable(oti: Oti) -> bool {
    &&& oti.symbol_size > 0
    &&& oti.source_blocks > 0
    &&& oti.sub_blocks > 0
    &&& raptorq_accepts(oti)
    &&& oti_symbols(oti) >= oti.source_blocks
}

/// Whether the encoder can work with `oti`.
pub fn is_encodable(oti: &Oti) -> (b: bool)
    ensures
        b == encodable(*oti),
{
    if oti.symbol_size == 0 || oti.source_blocks == 0 || oti.sub_blocks == 0
        || oti.symbol_alignment == 0 {
        return false;
    }
    if oti.transfer_length > 942574504275 || oti.symbol_size % (oti.symbol_alignment as u16) != 0 {
        return false;
    }
    let t = oti.symbol_size as u64;
    let z = oti.source_blocks as u64;
    let symbols = oti.transfer_length / t + if oti.transfer_length % t == 0 {
        0
    } else {
        1
    };
    let per_block = symbols / z + if symbols % z == 0 {
        0
    } else {
        1
    };
    per_block <= MAX_BLOCK_SYMBOLS && symbols >= z
}

/// The transmission information for an object of `transfer_length` bytes
/// sent in packets of at most `max_packet_size` bytes: RaptorQ's default,
/// where the encoder can work with it.
pub fn fec_oti(transfer_length: u64, max_packet_size: u16) -> (r: Option<Oti>)
    requires
        default_oti_defined(transfer_length, max_packet_size),
    ensures
        r == (if encodable(default_oti_of(transfer_length, max_packet_size)) {
            Some(default_oti_of(transfer_length, max_packet_size))
        } else {
            None::<Oti>
        }),
{
    let oti = default_oti(transfer_length, max_packet_size);
    if is_encodable(&oti) {
        Some(oti)
    } else {
        None
    }
}

/// The packets, each as its payload id and symbol, that `raptorq`'s
/// encoder for the object `data` under `oti` hands out with `repair` repair
/// packets per source block.
pub uninterp spec fn encoded_packets_of(data: Seq<u8>, oti: Oti, repair: u32) -> Seq<
    (PayloadId, Seq<u8>),
>;

/// `raptorq::Encoder::new` on the object, then `get_encoded_packets`: for
/// each source block its source packets and then `repair` repair packets. The
/// packets are a function of the object, its transmission information and
/// the repair count, named here and not stated.
#[verifier::external_body]
fn encoded_packets(data: &[u8], oti: &Oti, repair: u32) -> (r: Vec<(PayloadId, Vec<u8>)>)
    requires
        data@.len() == oti.transfer_length,
        encodable(*oti),
        repair <= 0x100_0000 - MAX_BLOCK_SYMBOLS,
    ensures
        packets_view(r@) == encoded_packets_of(data@, *oti, repair),
{
    let (l, t, z, n, a) = (oti.transfer_length, oti.symbol_size, oti.source_blocks, oti.sub_blocks, oti.symbol_alignment);
    let encoder = raptorq::Encoder::new(data, raptorq::ObjectTransmissionInformation::new(l, t, z, n, a));
    let packets = encoder.get_encoded_packets(repair).into_iter();
    packets.map(|p| {
        let (id, data) = p.split();
        let id = PayloadId { source_block_number: id.source_block_number(), encoding_symbol_id: id.encoding_symbol_id() };
        (id, data)
    }).collect()
}

/// The packets that carry the object `data`, as `raptorq`'s encoder hands
/// them out: for each source block in turn, its source packets and then
/// `repair` repair packets.
pub fn fec_packets(data: &[u8], oti: &Oti, repair: u32) -> (r: Vec<(PayloadId, Vec<u8>)>)
    requires
        data@.len() == oti.transfer_length,
        encodable(*oti),
        repair <= 0x100_0000 - MAX_BLOCK_SYMBOLS,
    ensures
        packets_view(r@) == encoded_packets_of(data@, *oti, repair),
{
    encoded_packets(data, oti, repair)
}

/// The symbol size for datagrams of at most `max_datagram_size` bytes that
/// start with a header of `header_size` bytes.
pub fn symbol_budget(max_datagram_size: usize, header_size: usize) -> (r: u16)
    requires
        header_size < max_datagram_size < 0x10000,
    ensures
        r == max_datagram_size - header_size,
{
    (max_datagram_size - header_size) as u16
}

} // verus!
