//! Admission checks for untrusted RaptorQ-coded media. RaptorQ decoding
//! assumes valid RFC 6330 parameters, so no decoder is built, nothing is
//! allocated from a transmission header and no media header is read before
//! the checks here have passed.
use crate::av::{
    codec_header_of, is_hole_bytes, media_header_of, AVPacket, CodecPacket, CodecPacketHeader,
    MediaPacket, MediaPacketHeader, HEADER_SIZE,
};
use crate::error::ProtocolError;
use crate::serial::copy_range;
use vstd::prelude::*;

verus! {

/// The native frame limit plus its 16-byte per-frame metadata envelope.
pub const MAX_VIDEO_PAYLOAD: usize = 64 * 1024 * 1024 + 16;

pub const MAX_AUDIO_PAYLOAD: usize = 64 * 1024;

pub const MAX_PENDING_OBJECTS: usize = 128;

pub const MAX_PENDING_GROUPS: usize = 32;

pub const MAX_SOURCE_SYMBOLS: u64 = 131_072;

/// RFC 6330's largest systematic source block, in symbols.
pub const MAX_BLOCK_SYMBOLS: u64 = 56_403;

pub const MAX_CONFIG_PAYLOAD: usize = 1024 * 1024;

/// RaptorQ object transmission information (RFC 6330 section 3.3).
#[derive(Clone, Copy, Debug, PartialEq, Eq, Structural)]
pub struct Oti {
    pub transfer_length: u64,
    pub symbol_size: u16,
    pub source_blocks: u8,
    pub sub_blocks: u16,
    pub symbol_alignment: u8,
}

/// RaptorQ payload id (RFC 6330 section 3.2).
#[derive(Clone, Copy, Debug, PartialEq, Eq, Structural)]
pub struct PayloadId {
    pub source_block_number: u8,
    pub encoding_symbol_id: u32,
}

/// The message of an invalid-media error.
pub open spec fn invalid_message(reason: Seq<char>) -> Seq<char> {
    "Invalid FEC media: "@ + reason
}

/// The error that reports invalid FEC media for `reason`.
pub fn invalid(reason: &str) -> (e: ProtocolError)
    ensures
        e.0@ == invalid_message(reason@),
{
    ProtocolError(String::from_str("Invalid FEC media: ").concat(reason))
}

/// The fields of a twelve-byte transmission header: a 40-bit length, a
/// reserved byte, the symbol size, the source block count, the sub-block
/// count and the alignment.
pub open spec fn oti_of(raw: Seq<u8>) -> Oti {
    Oti {
        transfer_length: ((raw[0] as u64) * 0x1_0000_0000 + (raw[1] as u64) * 0x100_0000 + (raw[2]
            as u64) * 0x1_0000 + (raw[3] as u64) * 0x100 + (raw[4] as u64)) as u64,
        symbol_size: ((raw[6] as u16) * 0x100 + (raw[7] as u16)) as u16,
        source_blocks: raw[8],
        sub_blocks: ((raw[9] as u16) * 0x100 + (raw[10] as u16)) as u16,
        symbol_alignment: raw[11],
    }
}

/// The fields of a four-byte payload id: the block number and a 24-bit
/// symbol id.
pub open spec fn payload_id_of(raw: Seq<u8>) -> PayloadId {
    PayloadId {
        source_block_number: raw[0],
        encoding_symbol_id: ((raw[1] as u32) * 0x1_0000 + (raw[2] as u32) * 0x100 + (raw[3]
            as u32)) as u32,
    }
}

/// `raptorq`'s `ObjectTransmissionInformation::deserialize`, read into the
/// library's own type: each field is the big-endian value of its bytes.
#[verifier::external_body]
fn read_oti(raw: &[u8; 12]) -> (o: Oti)
    ensures
        o == oti_of(raw@),
{
    let o = raptorq::ObjectTransmissionInformation::deserialize(raw);
    Oti {
        transfer_length: o.transfer_length(),
        symbol_size: o.symbol_size(),
        source_blocks: o.source_blocks(),
        sub_blocks: o.sub_blocks(),
        symbol_alignment: o.symbol_alignment(),
    }
}

/// `raptorq`'s `PayloadId::deserialize`, read into the library's own type.
#[verifier::external_body]
fn read_payload_id(raw: &[u8; 4]) -> (p: PayloadId)
    ensures
        p == payload_id_of(raw@),
{
    let p = raptorq::PayloadId::deserialize(raw);
    PayloadId {
        source_block_number: p.source_block_number(),
        encoding_symbol_id: p.encoding_symbol_id(),
    }
}

/// The twelve bytes of a transmission header, as `raptorq` writes them: a
/// 40-bit length, a reserved zero byte, the symbol size, the source block
/// count, the sub-block count and the alignment, big-endian.
pub open spec fn oti_bytes(o: Oti) -> Seq<u8> {
    seq![
        ((o.transfer_length >> 32u64) & 0xFF) as u8,
        ((o.transfer_length >> 24u64) & 0xFF) as u8,
        ((o.transfer_length >> 16u64) & 0xFF) as u8,
        ((o.transfer_length >> 8u64) & 0xFF) as u8,
        (o.transfer_length & 0xFF) as u8,
        0u8,
        (o.symbol_size >> 8u16) as u8,
        (o.symbol_size & 0xFF) as u8,
        o.source_blocks,
        (o.sub_blocks >> 8u16) as u8,
        (o.sub_blocks & 0xFF) as u8,
        o.symbol_alignment,
    ]
}

/// The four bytes of a payload id: the block number, then the symbol id on
/// three bytes, big-endian.
pub open spec fn payload_id_bytes(p: PayloadId) -> Seq<u8> {
    seq![
        p.source_block_number,
        ((p.encoding_symbol_id >> 16u32) & 0xFF) as u8,
        ((p.encoding_symbol_id >> 8u32) & 0xFF) as u8,
        (p.encoding_symbol_id & 0xFF) as u8,
    ]
}

/// Writes a transmission header.
pub fn serialize_oti(o: &Oti) -> (b: [u8; 12])
    ensures
        b@ == oti_bytes(*o),
{
    let t = o.transfer_length;
    let b = [
        ((t >> 32) & 0xFF) as u8,
        ((t >> 24) & 0xFF) as u8,
        ((t >> 16) & 0xFF) as u8,
        ((t >> 8) & 0xFF) as u8,
        (t & 0xFF) as u8,
        0,
        (o.symbol_size >> 8) as u8,
        (o.symbol_size & 0xFF) as u8,
        o.source_blocks,
        (o.sub_blocks >> 8) as u8,
        (o.sub_blocks & 0xFF) as u8,
        o.symbol_alignment,
    ];
    assert(b@ =~= oti_bytes(*o));
    b
}

/// Writes a payload id.
pub fn serialize_payload_id(p: &PayloadId) -> (b: [u8; 4])
    ensures
        b@ == payload_id_bytes(*p),
{
    let e = p.encoding_symbol_id;
    let b = [p.source_block_number, ((e >> 16) & 0xFF) as u8, ((e >> 8) & 0xFF) as u8, (e & 0xFF) as u8];
    assert(b@ =~= payload_id_bytes(*p));
    b
}

/// A transmission header reads back as written, for lengths that fit in
/// its 40 bits.
pub proof fn lemma_oti_roundtrip(o: Oti)
    requires
        o.transfer_length < 0x100_0000_0000,
    ensures
        oti_of(oti_bytes(o)) == o,
{
    let t = o.transfer_length;
    let s = o.symbol_size;
    let n = o.sub_blocks;
    let b = oti_bytes(o);
    assert((((t >> 32u64) & 0xFF) as u8 as u64) * 0x1_0000_0000 + (((t >> 24u64) & 0xFF) as u8 as u64)
        * 0x100_0000 + (((t >> 16u64) & 0xFF) as u8 as u64) * 0x1_0000 + (((t >> 8u64) & 0xFF) as u8
        as u64) * 0x100 + ((t & 0xFF) as u8 as u64) == t) by (bit_vector)
        requires
            t < 0x100_0000_0000,
    ;
    assert((((s >> 8u16) as u8) as u16) * 0x100 + (((s & 0xFF) as u8) as u16) == s) by (bit_vector);
    assert((((n >> 8u16) as u8) as u16) * 0x100 + (((n & 0xFF) as u8) as u16) == n) by (bit_vector);
}

/// A payload id reads back as written, for symbol ids that fit in its 24
/// bits.
pub proof fn lemma_payload_id_roundtrip(p: PayloadId)
    requires
        p.encoding_symbol_id < 0x100_0000,
    ensures
        payload_id_of(payload_id_bytes(p)) == p,
{
    let e = p.encoding_symbol_id;
    assert((((e >> 16u32) & 0xFF) as u8 as u32) * 0x1_0000 + (((e >> 8u32) & 0xFF) as u8 as u32)
        * 0x100 + ((e & 0xFF) as u8 as u32) == e) by (bit_vector)
        requires
            e < 0x100_0000,
    ;
}

/// `a / b` rounded up.
pub open spec fn ceil_div(a: int, b: int) -> int {
    a / b + if a % b == 0 { 0int } else { 1int }
}

/// The number of source symbols of an object.
pub open spec fn oti_symbols(oti: Oti) -> int {
    ceil_div(oti.transfer_length as int, oti.symbol_size as int)
}

/// The first reason why `oti` cannot describe an object of at most
/// `max_payload` media bytes, if any.
pub open spec fn oti_problem(oti: Oti, max_payload: int) -> Option<Seq<char>> {
    let length = oti.transfer_length as int;
    let symbol = oti.symbol_size as int;
    let blocks = oti.source_blocks as int;
    let alignment = oti.symbol_alignment as int;
    let sub_blocks = oti.sub_blocks as int;
    if !(HEADER_SIZE <= length <= max_payload + HEADER_SIZE) {
        Some("object length outside media limit"@)
    } else if symbol == 0 || blocks == 0 || alignment == 0 || sub_blocks == 0 {
        Some("zero RaptorQ partition parameter"@)
    } else if symbol % alignment != 0 || sub_blocks > symbol / alignment {
        Some("invalid symbol alignment or sub-block partition"@)
    } else if oti_symbols(oti) > MAX_SOURCE_SYMBOLS || blocks > oti_symbols(oti) || ceil_div(
        oti_symbols(oti),
        blocks,
    ) > MAX_BLOCK_SYMBOLS {
        Some("source-symbol partition exceeds decoder bounds"@)
    } else {
        None
    }
}

/// Partition parameters that RaptorQ can decode with, whatever the media
/// limit.
pub open spec fn oti_decodable(oti: Oti) -> bool {
    exists|max_payload: int| 0 <= max_payload <= usize::MAX - HEADER_SIZE && #[trigger] oti_problem(oti, max_payload) is None
}

/// Checks the transmission header of an object carrying at most
/// `max_payload` media bytes.
pub fn validate_oti(oti: &Oti, max_payload: usize) -> (r: Result<(), ProtocolError>)
    requires
        max_payload + HEADER_SIZE <= usize::MAX,
    ensures
        match r {
            Ok(()) => oti_problem(*oti, max_payload as int) is None,
            Err(e) => oti_problem(*oti, max_payload as int) matches Some(reason) && e.0@
                == invalid_message(reason),
        },
{
    let length = oti.transfer_length;
    let symbol = oti.symbol_size as u64;
    let blocks = oti.source_blocks as u64;
    let alignment = oti.symbol_alignment as u64;
    let sub_blocks = oti.sub_blocks as u64;
    if !(HEADER_SIZE as u64 <= length && length <= (max_payload + HEADER_SIZE) as u64) {
        return Err(invalid("object length outside media limit"));
    }
    if symbol == 0 || blocks == 0 || alignment == 0 || sub_blocks == 0 {
        return Err(invalid("zero RaptorQ partition parameter"));
    }
    if symbol % alignment != 0 || sub_blocks > symbol / alignment {
        return Err(invalid("invalid symbol alignment or sub-block partition"));
    }
    assert(length % symbol != 0 ==> symbol >= 2) by (nonlinear_arith)
        requires
            symbol >= 1;
    assert(symbol >= 2 ==> length / symbol < 0xFFFF_FFFF_FFFF_FFFFu64) by (nonlinear_arith)
        requires
            symbol >= 1;
    let symbols = length / symbol + if length % symbol == 0 { 0 } else { 1 };
    if symbols > MAX_SOURCE_SYMBOLS || blocks > symbols || symbols / blocks + if symbols % blocks
        == 0 {
        0
    } else {
        1
    } > MAX_BLOCK_SYMBOLS {
        return Err(invalid("source-symbol partition exceeds decoder bounds"));
    }
    proof {
        assert(oti_problem(*oti, max_payload as int) is None);
    }
    Ok(())
}

/// RaptorQ's `partition[i, j]` (RFC 6330 section 4.4.1.2): `i` split in
/// `j` parts, as (large size, small size, large count, small count).
pub open spec fn partition_of(i: int, j: int) -> (int, int, int, int) {
    let small = i / j;
    let large_count = i - small * j;
    (ceil_div(i, j), small, large_count, j - large_count)
}

/// `raptorq::partition`: sizes and counts of the parts of `i` split in `j`.
#[verifier::external_body]
pub(crate) fn partition(i: u32, j: u32) -> (r: (u32, u32, u32, u32))
    requires
        j > 0,
    ensures
        r.0 as int == partition_of(i as int, j as int).0,
        r.1 as int == partition_of(i as int, j as int).1,
        r.2 as int == partition_of(i as int, j as int).2,
        r.3 as int == partition_of(i as int, j as int).3,
{
    raptorq::partition(i, j)
}

/// K', the extended source block size (RFC 6330 section 5.3.1) for a block
/// of `k` source symbols.
pub uninterp spec fn extended_source_block_symbols_of(k: u32) -> u32;

/// `raptorq::extended_source_block_symbols`: the first systematic block
/// size of RFC 6330's table that is at least `k`.
#[verifier::external_body]
fn extended_source_block_symbols(k: u32) -> (r: u32)
    requires
        k <= MAX_BLOCK_SYMBOLS,
    ensures
        r == extended_source_block_symbols_of(k),
        r >= k,
{
    raptorq::extended_source_block_symbols(k)
}

/// The source symbols of block `block` of an object.
pub open spec fn block_source_symbols(oti: Oti, block: int) -> int {
    let p = partition_of(oti_symbols(oti), oti.source_blocks as int);
    if block < p.2 {
        p.0
    } else {
        p.1
    }
}

proof fn lemma_ceil_div_bounds(a: int, b: int)
    requires
        a >= 0,
        b > 0,
    ensures
        a / b <= ceil_div(a, b) <= a / b + 1,
        a / b * b <= a,
        a - (a / b) * b < b,
        a <= ceil_div(a, b) * b,
        ceil_div(a, b) * b < a + b,
        ceil_div(a, b) <= a,
{
    vstd::arithmetic::div_mod::lemma_fundamental_div_mod(a, b);
    assert(a == b * (a / b) + a % b);
    assert(a / b * b == b * (a / b)) by (nonlinear_arith);
    assert(a / b >= 0) by (nonlinear_arith)
        requires
            a >= 0,
            b > 0;
    if a % b != 0 {
        assert((a / b + 1) * b == a / b * b + b) by (nonlinear_arith);
        assert(a / b + 1 <= a) by (nonlinear_arith)
            requires
                a == b * (a / b) + a % b,
                0 < a % b < b,
                b > 0,
                a / b >= 0;
    } else {
        assert(a / b <= a) by (nonlinear_arith)
            requires
                a == b * (a / b),
                b > 0,
                a / b >= 0;
    }
}

/// Each block of a decodable object has at most `MAX_BLOCK_SYMBOLS` source
/// symbols.
proof fn lemma_block_source_symbols_bound(oti: Oti, block: int)
    requires
        oti_decodable(oti),
    ensures
        0 <= block_source_symbols(oti, block) <= MAX_BLOCK_SYMBOLS,
        0 < oti_symbols(oti) <= MAX_SOURCE_SYMBOLS,
{
    let s = oti_symbols(oti);
    let b = oti.source_blocks as int;
    lemma_ceil_div_bounds(oti.transfer_length as int, oti.symbol_size as int);
    lemma_ceil_div_bounds(s, b);
}

/// The source symbols of block `block` of a decodable object.
pub fn source_symbols_for_block(oti: &Oti, block: u8) -> (r: u32)
    requires
        oti_decodable(*oti),
    ensures
        r as int == block_source_symbols(*oti, block as int),
{
    proof {
        lemma_block_source_symbols_bound(*oti, block as int);
    }
    let symbol = oti.symbol_size as u64;
    let length = oti.transfer_length;
    let symbols = (length / symbol + if length % symbol == 0 { 0 } else { 1 }) as u32;
    let (large, small, large_blocks, _) = partition(symbols, oti.source_blocks as u32);
    if (block as u32) < large_blocks {
        large
    } else {
        small
    }
}

/// The first reason why a symbol of `size` bytes with payload id `id` is
/// not acceptable in an object described by `oti`, if any.
pub open spec fn symbol_problem(oti: Oti, id: PayloadId, size: int) -> Option<Seq<char>> {
    let sources = block_source_symbols(oti, id.source_block_number as int);
    if id.source_block_number >= oti.source_blocks {
        Some("source block outside object"@)
    } else if size != oti.symbol_size {
        Some("symbol length does not match OTI"@)
    } else if sources <= id.encoding_symbol_id < extended_source_block_symbols_of(
        sources as u32,
    ) {
        Some("padding symbol must not be transmitted"@)
    } else {
        None
    }
}

/// Checks a symbol against the object it belongs to: its block exists, its
/// size is the object's symbol size, and it is not an implicit padding
/// symbol (ids between K and K').
pub fn validate_symbol(oti: &Oti, id: &PayloadId, size: usize) -> (r: Result<(), ProtocolError>)
    requires
        oti_decodable(*oti),
    ensures
        match r {
            Ok(()) => symbol_problem(*oti, *id, size as int) is None,
            Err(e) => symbol_problem(*oti, *id, size as int) matches Some(reason) && e.0@
                == invalid_message(reason),
        },
{
    if id.source_block_number >= oti.source_blocks {
        return Err(invalid("source block outside object"));
    }
    if size != oti.symbol_size as usize {
        return Err(invalid("symbol length does not match OTI"));
    }
    let sources = source_symbols_for_block(oti, id.source_block_number);
    proof {
        lemma_block_source_symbols_bound(*oti, id.source_block_number as int);
    }
    let extended = extended_source_block_symbols(sources);
    if sources <= id.encoding_symbol_id && id.encoding_symbol_id < extended {
        return Err(invalid("padding symbol must not be transmitted"));
    }
    Ok(())
}

/// The first reason why `d` is not an acceptable FEC datagram with a
/// `header_size`-byte header (whose last sixteen bytes are the transmission
/// information and the payload id) for media of at most `max_payload` bytes.
pub open spec fn datagram_problem(d: Seq<u8>, header_size: int, max_payload: int) -> Option<
    Seq<char>,
> {
    let offset = header_size - 16;
    let raw = d.subrange(offset, offset + 12);
    let oti = oti_of(raw);
    let id = payload_id_of(d.subrange(offset + 12, header_size));
    if d.len() < header_size {
        Some("truncated datagram header"@)
    } else if raw[5] != 0 {
        Some("nonzero reserved OTI field"@)
    } else if oti_problem(oti, max_payload) is Some {
        oti_problem(oti, max_payload)
    } else {
        symbol_problem(oti, id, d.len() - header_size)
    }
}

/// Splits an FEC datagram into its symbol, transmission information and
/// payload id, after checking all three.
pub fn parse_datagram(datagram: &[u8], header_size: usize, max_payload: usize) -> (r: Result<
    (Vec<u8>, Oti, PayloadId),
    ProtocolError,
>)
    requires
        16 <= header_size,
        max_payload + HEADER_SIZE <= usize::MAX,
    ensures
        match r {
            Ok((data, oti, id)) => {
                &&& datagram_problem(datagram@, header_size as int, max_payload as int) is None
                &&& data@ == datagram@.subrange(header_size as int, datagram@.len() as int)
                &&& oti == oti_of(datagram@.subrange(header_size - 16, header_size - 4))
                &&& id == payload_id_of(datagram@.subrange(header_size - 4, header_size as int))
                &&& oti_problem(oti, max_payload as int) is None
            },
            Err(e) => datagram_problem(datagram@, header_size as int, max_payload as int) matches Some(
                reason,
            ) && e.0@ == invalid_message(reason),
        },
{
    if datagram.len() < header_size {
        return Err(invalid("truncated datagram header"));
    }
    let o = header_size - 16;
    let raw_oti: [u8; 12] = [
        datagram[o],
        datagram[o + 1],
        datagram[o + 2],
        datagram[o + 3],
        datagram[o + 4],
        datagram[o + 5],
        datagram[o + 6],
        datagram[o + 7],
        datagram[o + 8],
        datagram[o + 9],
        datagram[o + 10],
        datagram[o + 11],
    ];
    assert(raw_oti@ =~= datagram@.subrange(o as int, o + 12));
    if raw_oti[5] != 0 {
        return Err(invalid("nonzero reserved OTI field"));
    }
    let oti = read_oti(&raw_oti);
    match validate_oti(&oti, max_payload) {
        Ok(()) => {},
        Err(e) => {
            return Err(e);
        },
    }
    assert(oti_problem(oti, max_payload as int) is None);
    let raw_id: [u8; 4] = [datagram[o + 12], datagram[o + 13], datagram[o + 14], datagram[o + 15]];
    assert(raw_id@ =~= datagram@.subrange(o + 12, header_size as int));
    let id = read_payload_id(&raw_id);
    match validate_symbol(&oti, &id, datagram.len() - header_size) {
        Ok(()) => {},
        Err(e) => {
            return Err(e);
        },
    }
    Ok((copy_range(datagram, header_size, datagram.len()), oti, id))
}

/// Bytes reserved while an object is pending: padded source, repair and
/// result buffers plus per-symbol and per-block bookkeeping.
pub open spec fn reservation_of(oti: Oti) -> int {
    3 * oti_symbols(oti) * oti.symbol_size + 128 * oti_symbols(oti) + 4096 * oti.source_blocks
}

/// The admission budget of a pending object.
pub fn reservation(oti: &Oti) -> (r: usize)
    requires
        oti_decodable(*oti),
        reservation_of(*oti) <= usize::MAX,
    ensures
        r as int == reservation_of(*oti),
{
    proof {
        lemma_block_source_symbols_bound(*oti, 0);
        assert(3 * oti_symbols(*oti) * oti.symbol_size <= reservation_of(*oti)) by (nonlinear_arith)
            requires
                oti_symbols(*oti) > 0,
                oti.symbol_size >= 0;
        assert(oti_symbols(*oti) * oti.symbol_size <= 3 * oti_symbols(*oti) * oti.symbol_size)
            by (nonlinear_arith)
            requires
                oti_symbols(*oti) > 0,
                oti.symbol_size >= 0;
    }
    let symbol = oti.symbol_size as u64;
    let length = oti.transfer_length;
    let symbols = (length / symbol + if length % symbol == 0 { 0 } else { 1 }) as usize;
    3 * symbols * (oti.symbol_size as usize) + 128 * symbols + 4096 * (oti.source_blocks as usize)
}

/// The pending byte budget for media of at most `max_payload` bytes.
pub open spec fn pending_limit(max_payload: int) -> int {
    if max_payload == MAX_VIDEO_PAYLOAD {
        0x1000_0000
    } else {
        0x80_0000
    }
}

/// Whether one more object of `additional` bytes may be admitted while
/// `objects` objects holding `bytes` bytes are pending.
pub open spec fn pending_admits(objects: int, bytes: int, additional: int, max_payload: int) -> bool {
    objects < MAX_PENDING_OBJECTS && additional <= pending_limit(max_payload) && bytes
        <= pending_limit(max_payload) - additional
}

/// Checks the receive budget before admitting one more pending object.
pub fn check_pending(objects: usize, bytes: usize, additional: usize, max_payload: usize) -> (r:
    Result<(), ProtocolError>)
    ensures
        r is Ok <==> pending_admits(objects as int, bytes as int, additional as int, max_payload as int),
        r matches Err(e) ==> e.0@ == invalid_message("pending receive budget exceeded"@),
{
    let limit: usize = if max_payload == MAX_VIDEO_PAYLOAD {
        256 * 1024 * 1024
    } else {
        8 * 1024 * 1024
    };
    if objects >= MAX_PENDING_OBJECTS || additional > limit || bytes > limit - additional {
        return Err(invalid("pending receive budget exceeded"));
    }
    Ok(())
}

/// The first reason why reassembled bytes are not a complete media
/// (non-configuration) packet, if any.
pub open spec fn media_object_problem(data: Seq<u8>) -> Option<Seq<char>> {
    if data.len() < HEADER_SIZE || data[0] & 0x80 == 0 {
        Some("reconstructed object is not a complete media packet"@)
    } else if media_header_of(data).is_config || media_header_of(data).size != data.len()
        - HEADER_SIZE {
        Some("reconstructed media type or length mismatch"@)
    } else {
        None
    }
}

/// `p` is the media packet that the reassembled bytes `data` hold.
pub open spec fn media_packet_of(p: AVPacket, data: Seq<u8>) -> bool {
    p matches AVPacket::Media(m) && m.header == media_header_of(data) && m.payload@
        == data.subrange(HEADER_SIZE as int, data.len() as int)
}

/// The media packet that a reassembled object holds: a media (not
/// configuration) header whose size is that of the rest of the object.
pub fn media_packet(data: Vec<u8>) -> (r: Result<AVPacket, ProtocolError>)
    ensures
        match r {
            Ok(p) => {
                &&& media_object_problem(data@) is None
                &&& p matches AVPacket::Media(m) && m.header == media_header_of(data@)
                    && m.payload@ == data@.subrange(HEADER_SIZE as int, data@.len() as int)
            },
            Err(e) => media_object_problem(data@) matches Some(reason) && e.0@ == invalid_message(
                reason,
            ),
        },
{
    if data.len() < HEADER_SIZE || data[0] & 0x80 == 0 {
        return Err(invalid("reconstructed object is not a complete media packet"));
    }
    let raw = vstd::slice::slice_subrange(data.as_slice(), 0, HEADER_SIZE);
    assert(media_header_of(raw@) == media_header_of(data@));
    let header = MediaPacketHeader::deserialize(raw);
    if header.is_config || header.size as usize != data.len() - HEADER_SIZE {
        return Err(invalid("reconstructed media type or length mismatch"));
    }
    let payload = copy_range(data.as_slice(), HEADER_SIZE, data.len());
    Ok(AVPacket::Media(MediaPacket { header, payload }))
}

#[verifier::external_type_specification]
#[verifier::external_body]
pub struct ExRaptorqDecoder(raptorq::Decoder);

/// What `raptorq::ObjectTransmissionInformation::new` asserts of its
/// arguments.
pub open spec fn raptorq_accepts(oti: Oti) -> bool {
    &&& oti.transfer_length <= 942574504275
    &&& oti.symbol_alignment > 0
    &&& oti.symbol_size % oti.symbol_alignment as u16 == 0
    &&& (oti.symbol_size != 0 && oti.source_blocks != 0) ==> ceil_div(
        oti_symbols(oti),
        oti.source_blocks as int,
    ) <= MAX_BLOCK_SYMBOLS
}

/// The transmission information that a `raptorq` decoder was built for.
pub uninterp spec fn decoder_oti(d: raptorq::Decoder) -> Oti;

/// The symbols fed to a `raptorq` decoder so far, in order, each with its
/// payload id.
pub uninterp spec fn decoder_symbols(d: raptorq::Decoder) -> Seq<(PayloadId, Seq<u8>)>;

/// What `raptorq`'s decoder for the object `oti` hands back once it was fed
/// `symbols` in that order: the object, or nothing while a source block
/// cannot be decoded yet. It depends on the symbols alone.
pub uninterp spec fn decoded_object(oti: Oti, symbols: Seq<(PayloadId, Seq<u8>)>) -> Option<
    Seq<u8>,
>;

/// The bytes of an optional buffer.
pub open spec fn opt_bytes(o: Option<Vec<u8>>) -> Option<Seq<u8>> {
    match o {
        Some(v) => Some(v@),
        None => None,
    }
}

/// `raptorq::Decoder::new` for the object that `oti` describes: a decoder
/// for that object that was fed nothing yet.
#[verifier::external_body]
fn new_raptorq_decoder(oti: &Oti) -> (d: raptorq::Decoder)
    requires
        oti_decodable(*oti),
        raptorq_accepts(*oti),
    ensures
        decoder_oti(d) == *oti,
        decoder_symbols(d) == Seq::<(PayloadId, Seq<u8>)>::empty(),
{
    raptorq::Decoder::new(
        raptorq::ObjectTransmissionInformation::new(
            oti.transfer_length,
            oti.symbol_size,
            oti.source_blocks,
            oti.sub_blocks,
            oti.symbol_alignment,
        ),
    )
}

/// `raptorq::Decoder::decode` of one symbol, for a decoder built for `oti`:
/// the symbol joins those fed, and the result is what the decoder makes of
/// all of them (named, as it takes RaptorQ's whole decoding to state). A
/// returned object is the source blocks' bytes cut to the transfer length,
/// which they cover.
#[verifier::external_body]
fn raptorq_decode(decoder: &mut raptorq::Decoder, oti: &Oti, id: &PayloadId, data: Vec<u8>) -> (r:
    Option<Vec<u8>>)
    requires
        oti_decodable(*oti),
        decoder_oti(*old(decoder)) == *oti,
        id.encoding_symbol_id < 0x100_0000,
        symbol_problem(*oti, *id, data@.len() as int) is None,
    ensures
        decoder_oti(*final(decoder)) == *oti,
        decoder_symbols(*final(decoder)) == decoder_symbols(*old(decoder)).push((*id, data@)),
        opt_bytes(r) == decoded_object(*oti, decoder_symbols(*final(decoder))),
        r matches Some(v) ==> v@.len() == oti.transfer_length,
{
    decoder.decode(
        raptorq::EncodingPacket::new(
            raptorq::PayloadId::new(id.source_block_number, id.encoding_symbol_id),
            data,
        ),
    )
}

/// Every decodable object satisfies what RaptorQ asserts.
proof fn lemma_decodable_accepted(oti: Oti)
    requires
        oti_decodable(oti),
    ensures
        raptorq_accepts(oti),
{
    let max_payload = choose|max_payload: int|
        0 <= max_payload <= usize::MAX - HEADER_SIZE && #[trigger] oti_problem(oti, max_payload) is None;
    lemma_block_source_symbols_bound(oti, 0);
    lemma_ceil_div_bounds(oti.transfer_length as int, oti.symbol_size as int);
    assert(oti.transfer_length <= oti_symbols(oti) * oti.symbol_size);
    assert(oti_symbols(oti) * oti.symbol_size <= 131072 * 65535) by (nonlinear_arith)
        requires
            0 < oti_symbols(oti) <= 131072,
            0 <= oti.symbol_size <= 65535;
}

/// The key under which a symbol is remembered: its block and symbol id.
pub open spec fn symbol_key(id: PayloadId) -> u64 {
    (id.source_block_number as u64 * 0x1_0000_0000 + id.encoding_symbol_id as u64) as u64
}

/// The sum of a sequence of counters.
pub open spec fn total(s: Seq<u32>) -> int
    decreases s.len(),
{
    if s.len() == 0 {
        0
    } else {
        total(s.drop_last()) + s.last()
    }
}

proof fn lemma_total_update(s: Seq<u32>, i: int, v: u32)
    requires
        0 <= i < s.len(),
    ensures
        total(s.update(i, v)) == total(s) - s[i] + v,
    decreases s.len(),
{
    if i == s.len() - 1 {
        assert(s.update(i, v).drop_last() =~= s.drop_last());
    } else {
        lemma_total_update(s.drop_last(), i, v);
        assert(s.update(i, v).drop_last() =~= s.drop_last().update(i, v));
    }
}

proof fn lemma_total_bound(s: Seq<u32>, bound: int)
    requires
        forall|j: int| 0 <= j < s.len() ==> s[j] <= bound,
        bound >= 0,
    ensures
        0 <= total(s) <= s.len() * bound,
    decreases s.len(),
{
    if s.len() > 0 {
        lemma_total_bound(s.drop_last(), bound);
        assert((s.len() - 1) * bound + bound == s.len() * bound) by (nonlinear_arith);
    }
}

/// The distinct symbols that one source block may retain: far more than
/// the sender's 30% of repairs, but bounded.
pub open spec fn block_budget(oti: Oti, block: int) -> int {
    2 * block_source_symbols(oti, block) + 32
}

/// Why feeding the symbol `id` of `size` bytes, sent under `oti`, to a
/// decoder of the object `own` that holds the symbols `keys` and the
/// per-block counts `counts` is refused, if it is: another object, an
/// invalid symbol, or a new symbol for a block that has retained its budget.
/// A symbol seen before is accepted (and ignored).
pub open spec fn decode_problem(
    own: Oti,
    keys: Set<u64>,
    counts: Seq<u32>,
    oti: Oti,
    id: PayloadId,
    size: int,
) -> Option<Seq<char>> {
    let b = id.source_block_number as int;
    if oti != own {
        Some("OTI changed within one object"@)
    } else if symbol_problem(oti, id, size) is Some {
        symbol_problem(oti, id, size)
    } else if keys.contains(symbol_key(id)) {
        None
    } else if counts[b] >= block_budget(oti, b) {
        Some("too many distinct symbols for one source block"@)
    } else {
        None
    }
}

/// Why feeding a symbol to a reassembly of the object `own` whose decoder
/// holds `keys`, `counts` and the symbols `fed` fails, if it does: the
/// decoder refuses the symbol, or the object the symbol completes is not a
/// media packet.
pub open spec fn reassembly_problem(
    own: Oti,
    keys: Set<u64>,
    counts: Seq<u32>,
    fed: Seq<(PayloadId, Seq<u8>)>,
    oti: Oti,
    id: PayloadId,
    data: Seq<u8>,
) -> Option<Seq<char>> {
    match decode_problem(own, keys, counts, oti, id, data.len() as int) {
        Some(reason) => Some(reason),
        None => if keys.contains(symbol_key(id)) {
            None
        } else {
            match decoded_object(oti, fed.push((id, data))) {
                Some(bytes) => media_object_problem(bytes),
                None => None,
            }
        },
    }
}

/// The bytes of the media packet that feeding the symbol completes, if it
/// completes one.
pub open spec fn reassembly_completion(
    own: Oti,
    keys: Set<u64>,
    counts: Seq<u32>,
    fed: Seq<(PayloadId, Seq<u8>)>,
    oti: Oti,
    id: PayloadId,
    data: Seq<u8>,
) -> Option<Seq<u8>> {
    if decode_problem(own, keys, counts, oti, id, data.len() as int) is None && !keys.contains(
        symbol_key(id),
    ) {
        match decoded_object(oti, fed.push((id, data))) {
            Some(bytes) => if media_object_problem(bytes) is None {
                Some(bytes)
            } else {
                None
            },
            None => None,
        }
    } else {
        None
    }
}

/// The counters of a decoder that was fed nothing yet.
pub open spec fn zero_counts(oti: Oti) -> Seq<u32> {
    Seq::new(oti.source_blocks as nat, |i: int| 0u32)
}

/// Reassembles one object from its RaptorQ symbols, remembering which
/// symbols it has seen so that duplicates are not fed again and bounding
/// the distinct symbols retained per source block.
pub struct ObjectDecoder {
    oti: Oti,
    decoder: raptorq::Decoder,
    received: std::collections::HashSet<u64>,
    per_block: Vec<u32>,
    received_sources: u64,
}

impl ObjectDecoder {
    /// The transmission information of the object.
    pub closed spec fn spec_oti(&self) -> Oti {
        self.oti
    }

    /// The symbols fed so far, by key.
    pub closed spec fn received_keys(&self) -> Set<u64> {
        self.received@
    }

    /// The distinct symbols fed so far, per source block.
    pub closed spec fn block_counts(&self) -> Seq<u32> {
        self.per_block@
    }

    /// How many of the symbols fed so far are source symbols.
    pub closed spec fn source_count(&self) -> u64 {
        self.received_sources
    }

    /// The symbols handed to RaptorQ so far, in order.
    pub closed spec fn fed(&self) -> Seq<(PayloadId, Seq<u8>)> {
        decoder_symbols(self.decoder)
    }

    pub closed spec fn wf(&self) -> bool {
        &&& oti_decodable(self.oti)
        &&& decoder_oti(self.decoder) == self.oti
        &&& self.per_block@.len() == self.oti.source_blocks
        &&& forall|b: int|
            0 <= b < self.per_block@.len() ==> self.per_block@[b] <= block_budget(self.oti, b)
        &&& self.received_sources <= total(self.per_block@)
    }

    /// The transmission information of the object.
    pub fn oti(&self) -> (o: Oti)
        ensures
            o == self.spec_oti(),
    {
        self.oti
    }

    /// How many distinct symbols were fed.
    pub fn received_len(&self) -> (n: usize)
        ensures
            n == self.received_keys().len(),
    {
        self.received.len()
    }

    /// How many of the distinct symbols fed are source symbols.
    pub fn received_sources(&self) -> (n: u64)
        ensures
            n == self.source_count(),
    {
        self.received_sources
    }

    /// A decoder for an object of at most `max_payload` media bytes, once its
    /// transmission information is checked.
    pub fn new(oti: Oti, max_payload: usize) -> (r: Result<Self, ProtocolError>)
        requires
            max_payload + HEADER_SIZE <= usize::MAX,
        ensures
            match r {
                Ok(d) => {
                    &&& oti_problem(oti, max_payload as int) is None
                    &&& d.wf()
                    &&& d.spec_oti() == oti
                    &&& d.received_keys() == Set::<u64>::empty()
                    &&& d.source_count() == 0
                    &&& d.block_counts() == zero_counts(oti)
                    &&& d.fed() == Seq::<(PayloadId, Seq<u8>)>::empty()
                },
                Err(e) => oti_problem(oti, max_payload as int) matches Some(reason) && e.0@
                    == invalid_message(reason),
            },
    {
        match validate_oti(&oti, max_payload) {
            Ok(()) => {},
            Err(e) => {
                return Err(e);
            },
        }
        assert(oti_problem(oti, max_payload as int) is None);
        proof {
            lemma_decodable_accepted(oti);
        }
        let decoder = new_raptorq_decoder(&oti);
        let mut per_block: Vec<u32> = Vec::new();
        let mut i: usize = 0;
        while i < oti.source_blocks as usize
            invariant
                i <= oti.source_blocks,
                per_block@ == Seq::new(i as nat, |j: int| 0u32),
            decreases oti.source_blocks - i,
        {
            per_block.push(0);
            i = i + 1;
            assert(per_block@ =~= Seq::new(i as nat, |j: int| 0u32));
        }
        proof {
            lemma_total_bound(per_block@, 0);
        }
        Ok(ObjectDecoder {
            oti,
            decoder,
            received: std::collections::HashSet::new(),
            per_block,
            received_sources: 0,
        })
    }

    /// Feeds one symbol. A symbol of another object (different transmission
    /// information) or an invalid one is an error; a symbol seen before is
    /// ignored; a block that already retained its budget of distinct symbols
    /// refuses more. Returns the object once the symbols fed complete it.
    pub fn decode(&mut self, oti: Oti, id: PayloadId, data: Vec<u8>) -> (r: Result<
        Option<Vec<u8>>,
        ProtocolError,
    >)
        requires
            old(self).wf(),
            id.encoding_symbol_id < 0x100_0000,
        ensures
            final(self).wf(),
            final(self).spec_oti() == old(self).spec_oti(),
            match decode_problem(
                old(self).spec_oti(),
                old(self).received_keys(),
                old(self).block_counts(),
                oti,
                id,
                data@.len() as int,
            ) {
                Some(reason) => (r matches Err(e) && e.0@ == invalid_message(reason)) && *final(
                    self) == *old(self),
                None => if old(self).received_keys().contains(symbol_key(id)) {
                    r == Ok::<Option<Vec<u8>>, ProtocolError>(None) && *final(self) == *old(self)
                } else {
                    &&& r matches Ok(o) && opt_bytes(o) == decoded_object(oti, final(self).fed())
                    &&& final(self).fed() == old(self).fed().push((id, data@))
                    &&& (r matches Ok(Some(v)) ==> v@.len() == oti.transfer_length)
                },
            },
            oti != old(self).spec_oti() ==> (r matches Err(e) && e.0@ == invalid_message(
                "OTI changed within one object"@,
            )) && final(self).received_keys() == old(self).received_keys(),
            (oti == old(self).spec_oti() && symbol_problem(oti, id, data@.len() as int) is Some) ==> (
            r matches Err(e) && e.0@ == invalid_message(
                symbol_problem(oti, id, data@.len() as int)->0,
            )) && final(self).received_keys() == old(self).received_keys(),
            oti == old(self).spec_oti() && symbol_problem(oti, id, data@.len() as int) is None ==> {
                let b = id.source_block_number as int;
                let sources = block_source_symbols(oti, b);
                if old(self).received_keys().contains(symbol_key(id)) {
                    r == Ok::<Option<Vec<u8>>, ProtocolError>(None) && final(self).received_keys()
                        == old(self).received_keys() && final(self).block_counts() == old(
                        self,
                    ).block_counts() && final(self).source_count() == old(self).source_count()
                } else if old(self).block_counts()[b] >= block_budget(oti, b) {
                    (r matches Err(e) && e.0@ == invalid_message(
                        "too many distinct symbols for one source block"@,
                    )) && final(self).received_keys() == old(self).received_keys()
                } else {
                    &&& r is Ok
                    &&& (r matches Ok(Some(v)) ==> v@.len() <= oti.transfer_length)
                    &&& final(self).received_keys() == old(self).received_keys().insert(
                        symbol_key(id),
                    )
                    &&& final(self).block_counts() == old(self).block_counts().update(
                        b,
                        (old(self).block_counts()[b] + 1) as u32,
                    )
                    &&& final(self).source_count() == old(self).source_count() + if id.encoding_symbol_id
                        < sources {
                        1int
                    } else {
                        0int
                    }
                }
            },
    {
        broadcast use vstd::std_specs::hash::group_hash_axioms;

        if oti != self.oti {
            return Err(invalid("OTI changed within one object"));
        }
        match validate_symbol(&oti, &id, data.len()) {
            Ok(()) => {},
            Err(e) => {
                return Err(e);
            },
        }
        let key = (id.source_block_number as u64) * 0x1_0000_0000 + id.encoding_symbol_id as u64;
        if self.received.contains(&key) {
            return Ok(None);
        }
        let sources = source_symbols_for_block(&oti, id.source_block_number);
        let b = id.source_block_number as usize;
        let count = self.per_block[b];
        proof {
            lemma_block_source_symbols_bound(oti, b as int);
        }
        if count >= 2 * sources + 32 {
            return Err(invalid("too many distinct symbols for one source block"));
        }
        proof {
            lemma_total_update(self.per_block@, b as int, (count + 1) as u32);
            assert forall|j: int| 0 <= j < self.per_block@.len() implies self.per_block@[j] <= 2
                * MAX_BLOCK_SYMBOLS + 32 by {
                lemma_block_source_symbols_bound(self.oti, j);
                assert(self.per_block@[j] <= block_budget(self.oti, j));
            }
            lemma_total_bound(self.per_block@, 2 * MAX_BLOCK_SYMBOLS + 32);
            assert(self.per_block@.len() * (2 * MAX_BLOCK_SYMBOLS + 32) <= 256 * (2
                * MAX_BLOCK_SYMBOLS + 32)) by (nonlinear_arith)
                requires
                    self.per_block@.len() <= 255;
        }
        self.per_block.set(b, count + 1);
        self.received.insert(key);
        if id.encoding_symbol_id < sources {
            self.received_sources = self.received_sources + 1;
        }
        Ok(raptorq_decode(&mut self.decoder, &oti, &id, data))
    }
}

/// The message of a stream that ended inside a record.
pub open spec fn early_eof_message() -> Seq<char> {
    "early eof"@
}

/// What reading one record of the reliable companion stream from the
/// unread bytes `input` gives (`r`): a codec packet, or a configuration
/// media packet whose payload is at most `min(max_payload,
/// MAX_CONFIG_PAYLOAD)` bytes, with the bytes used. Hole records and other
/// media are refused before any payload is read.
pub open spec fn stream_packet_read(input: Seq<u8>, max_payload: int, r: Result<
    (AVPacket, usize),
    ProtocolError,
>) -> bool {
    if input.len() < HEADER_SIZE {
        r matches Err(e) && e.0@ == early_eof_message()
    } else {
        let raw = input.subrange(0, HEADER_SIZE as int);
        if raw[0] & 0x80 == 0 {
            if is_hole_bytes(raw) {
                r matches Err(e) && e.0@ == invalid_message("unexpected hole record from sender"@)
            } else {
                r matches Ok((AVPacket::Codec(c), n)) && n == HEADER_SIZE && c.header
                    == codec_header_of(raw)
            }
        } else {
            let h = media_header_of(raw);
            if !h.is_config || h.size > max_payload || h.size > MAX_CONFIG_PAYLOAD {
                r matches Err(e) && e.0@ == invalid_message(
                    "invalid reliable config type or length"@,
                )
            } else if input.len() < HEADER_SIZE + h.size {
                r matches Err(e) && e.0@ == early_eof_message()
            } else {
                r matches Ok((AVPacket::Media(m), n)) && n == HEADER_SIZE + h.size && m.header == h
                    && m.payload@ == input.subrange(HEADER_SIZE as int, n as int)
            }
        }
    }
}

/// Reads one record of the reliable companion stream from its unread bytes,
/// as `stream_packet_read` says.
pub fn read_stream_packet(input: &[u8], max_payload: usize) -> (r: Result<
    (AVPacket, usize),
    ProtocolError,
>)
    ensures
        stream_packet_read(input@, max_payload as int, r),
{
    if input.len() < HEADER_SIZE {
        return Err(ProtocolError::from_message("early eof"));
    }
    let raw = vstd::slice::slice_subrange(input, 0, HEADER_SIZE);
    if raw[0] & 0x80 == 0 {
        if raw[0] == 0 && raw[1] == 0 && raw[2] == 0 && raw[3] == 0 {
            return Err(invalid("unexpected hole record from sender"));
        }
        let header = CodecPacketHeader::deserialize(raw);
        return Ok((AVPacket::Codec(CodecPacket { header }), HEADER_SIZE));
    }
    let header = MediaPacketHeader::deserialize(raw);
    let limit = if max_payload < MAX_CONFIG_PAYLOAD {
        max_payload
    } else {
        MAX_CONFIG_PAYLOAD
    };
    if !header.is_config || header.size as usize > limit {
        return Err(invalid("invalid reliable config type or length"));
    }
    let size = header.size as usize;
    if input.len() - HEADER_SIZE < size {
        return Err(ProtocolError::from_message("early eof"));
    }
    let payload = copy_range(input, HEADER_SIZE, HEADER_SIZE + size);
    Ok((AVPacket::Media(MediaPacket { header, payload }), HEADER_SIZE + size))
}

/// The admission budget of one audio object is below ten million bytes.
pub proof fn lemma_audio_reservation_bound(oti: Oti)
    requires
        oti_problem(oti, MAX_AUDIO_PAYLOAD as int) is None,
    ensures
        0 <= reservation_of(oti) <= 10_000_000,
        oti_decodable(oti),
{
    let l = oti.transfer_length as int;
    let t = oti.symbol_size as int;
    let k = oti_symbols(oti);
    lemma_ceil_div_bounds(l, t);
    assert(k * t < l + t);
    assert(k <= l);
    assert(3 * k * t == 3 * (k * t)) by (nonlinear_arith);
    assert(k * t >= 0) by (nonlinear_arith)
        requires
            k >= 0,
            t >= 0;
    assert(oti_problem(oti, MAX_AUDIO_PAYLOAD as int) is None);
}


/// The admission budget of one video object is below 230 million bytes.
pub proof fn lemma_video_reservation_bound(oti: Oti)
    requires
        oti_problem(oti, MAX_VIDEO_PAYLOAD as int) is None,
    ensures
        0 <= reservation_of(oti) <= 230_000_000,
        oti_decodable(oti),
{
    let l = oti.transfer_length as int;
    let t = oti.symbol_size as int;
    let k = oti_symbols(oti);
    lemma_ceil_div_bounds(l, t);
    assert(k * t < l + t);
    assert(3 * k * t == 3 * (k * t)) by (nonlinear_arith);
    assert(k * t >= 0) by (nonlinear_arith)
        requires
            k >= 0,
            t >= 0;
    assert(oti_problem(oti, MAX_VIDEO_PAYLOAD as int) is None);
}

} // verus!
