//! Length-framed packet records, as exchanged over a local IPC stream or a
//! reliable transport stream. Writers append to an output buffer; readers
//! take the bytes still unread in a stream and return the packet read and
//! the number of bytes it used.
use crate::av::{
    codec_header_bytes, header_bytes, header_of, hole_header_bytes, media_header_bytes, pts_mask,
    valid_header_bytes, AVPacket, AVPacketHeader, CodecPacket, HolePacket, MediaPacket, HEADER_SIZE,
};
use crate::wire::{be16, be16_value, be32, be32_value, be_bytes_u16, be_bytes_u32, read_be_u16, read_be_u32};
use vstd::prelude::*;

verus! {

/// Why a record could not be read or written.
#[derive(Clone, Copy, Debug, PartialEq, Eq, Structural)]
pub enum FramingError {
    /// The stream ended inside a record.
    UnexpectedEof,
    /// The record read declares an invalid size.
    InvalidData,
    /// The packet to write cannot be framed.
    InvalidInput,
}

/// Appends `b` to `out`.
pub fn append_bytes(out: &mut Vec<u8>, b: &[u8])
    ensures
        final(out)@ == old(out)@ + b@,
{
    let mut i: usize = 0;
    while i < b.len()
        invariant
            0 <= i <= b@.len(),
            out@ == old(out)@ + b@.subrange(0, i as int),
        decreases b@.len() - i,
    {
        out.push(b[i]);
        i = i + 1;
        assert(out@ =~= old(out)@ + b@.subrange(0, i as int));
    }
    assert(b@.subrange(0, b@.len() as int) =~= b@);
}

/// The bytes `[start, end)` of `b`, copied.
pub fn copy_range(b: &[u8], start: usize, end: usize) -> (r: Vec<u8>)
    requires
        start <= end <= b@.len(),
    ensures
        r@ == b@.subrange(start as int, end as int),
{
    let mut r: Vec<u8> = Vec::new();
    append_bytes(&mut r, vstd::slice::slice_subrange(b, start, end));
    assert(r@ =~= b@.subrange(start as int, end as int));
    r
}

/// The record that carries an AV packet: its header, then for a media
/// packet its payload.
pub open spec fn av_record(p: AVPacket) -> Seq<u8> {
    match p {
        AVPacket::Codec(c) => codec_header_bytes(c.header),
        AVPacket::Media(m) => media_header_bytes(m.header) + m.payload@,
        AVPacket::Hole(h) => hole_header_bytes(h.header),
    }
}

/// An AV packet that can be written: a media pts fits in 61 bits.
pub open spec fn writable_av(p: AVPacket) -> bool {
    match p {
        AVPacket::Media(m) => m.header.pts <= pts_mask(),
        _ => true,
    }
}

/// The packet that a header and a payload form.
pub open spec fn av_packet_is(p: AVPacket, h: AVPacketHeader, payload: Seq<u8>) -> bool {
    match h {
        AVPacketHeader::Codec(c) => p == AVPacket::Codec(CodecPacket { header: c }),
        AVPacketHeader::Hole(o) => p == AVPacket::Hole(HolePacket { header: o }),
        AVPacketHeader::Media(m) => match p {
            AVPacket::Media(mp) => mp.header == m && mp.payload@ == payload,
            _ => false,
        },
    }
}

/// A stream holding a record whose header can be decoded: reading it does
/// not abort (a hole header announces at least one missing sample).
pub open spec fn readable_av_stream(input: Seq<u8>) -> bool {
    input.len() >= HEADER_SIZE ==> valid_header_bytes(input.subrange(0, HEADER_SIZE as int))
}

pub struct AVPacketSerializer;

pub struct AVPacketDeserializer;

impl AVPacketSerializer {
    /// Appends the record of `packet` to `out`.
    pub fn write(&mut self, packet: AVPacket, out: &mut Vec<u8>)
        requires
            writable_av(packet),
        ensures
            final(out)@ == old(out)@ + av_record(packet),
    {
        match packet {
            AVPacket::Codec(packet) => {
                let header = packet.header.serialize();
                append_bytes(out, &header);
            },
            AVPacket::Media(packet) => {
                let header = packet.header.serialize();
                append_bytes(out, &header);
                append_bytes(out, packet.payload.as_slice());
                assert(out@ =~= old(out)@ + media_header_bytes(packet.header) + packet.payload@);
            },
            AVPacket::Hole(packet) => {
                let header = packet.header.serialize();
                append_bytes(out, &header);
            },
        }
    }
}

impl AVPacketDeserializer {
    /// Reads one record from the unread bytes of a stream. A stream that ends
    /// before a full header is a clean end (`None`); one that ends inside a
    /// media payload is `UnexpectedEof`.
    pub fn read(&mut self, input: &[u8]) -> (r: Result<Option<(AVPacket, usize)>, FramingError>)
        requires
            readable_av_stream(input@),
        ensures
            input@.len() < HEADER_SIZE ==> r == Ok::<Option<(AVPacket, usize)>, FramingError>(None),
            input@.len() >= HEADER_SIZE ==> {
                let h = header_of(input@.subrange(0, HEADER_SIZE as int));
                match h {
                    AVPacketHeader::Media(m) => {
                        if input@.len() < HEADER_SIZE + m.size {
                            r == Err::<Option<(AVPacket, usize)>, FramingError>(
                                FramingError::UnexpectedEof,
                            )
                        } else {
                            r matches Ok(Some((p, n))) && n == HEADER_SIZE + m.size
                                && av_packet_is(p, h, input@.subrange(HEADER_SIZE as int, n as int))
                        }
                    },
                    _ => r matches Ok(Some((p, n))) && n == HEADER_SIZE && av_packet_is(
                        p,
                        h,
                        Seq::empty(),
                    ),
                }
            },
    {
        if input.len() < HEADER_SIZE {
            return Ok(None);
        }
        let raw = vstd::slice::slice_subrange(input, 0, HEADER_SIZE);
        let header = AVPacketHeader::deserialize(raw);
        match header {
            AVPacketHeader::Media(header) => {
                let size = header.size as usize;
                if input.len() - HEADER_SIZE < size {
                    return Err(FramingError::UnexpectedEof);
                }
                let payload = copy_range(input, HEADER_SIZE, HEADER_SIZE + size);
                Ok(Some((AVPacket::Media(MediaPacket { header, payload }), HEADER_SIZE + size)))
            },
            AVPacketHeader::Codec(header) => Ok(
                Some((AVPacket::Codec(CodecPacket { header }), HEADER_SIZE)),
            ),
            AVPacketHeader::Hole(header) => Ok(Some((AVPacket::Hole(HolePacket { header }), HEADER_SIZE))),
        }
    }
}

/// Reads one record of a QUIC stream that carries AV records: the stream
/// may end between records only, so bytes that end inside a header are an
/// `UnexpectedEof`, as are bytes that end inside a payload.
pub fn read_av_record(input: &[u8]) -> (r: Result<Option<(AVPacket, usize)>, FramingError>)
    requires
        readable_av_stream(input@),
    ensures
        input@.len() == 0 ==> r == Ok::<Option<(AVPacket, usize)>, FramingError>(None),
        0 < input@.len() < HEADER_SIZE ==> r == Err::<Option<(AVPacket, usize)>, FramingError>(
            FramingError::UnexpectedEof,
        ),
        input@.len() >= HEADER_SIZE ==> {
            let h = header_of(input@.subrange(0, HEADER_SIZE as int));
            match h {
                AVPacketHeader::Media(m) => {
                    if input@.len() < HEADER_SIZE + m.size {
                        r == Err::<Option<(AVPacket, usize)>, FramingError>(
                            FramingError::UnexpectedEof,
                        )
                    } else {
                        r matches Ok(Some((p, n))) && n == HEADER_SIZE + m.size && av_packet_is(
                            p,
                            h,
                            input@.subrange(HEADER_SIZE as int, n as int),
                        )
                    }
                },
                _ => r matches Ok(Some((p, n))) && n == HEADER_SIZE && av_packet_is(
                    p,
                    h,
                    Seq::empty(),
                ),
            }
        },
{
    if input.len() == 0 {
        return Ok(None);
    }
    if input.len() < HEADER_SIZE {
        return Err(FramingError::UnexpectedEof);
    }
    let mut deserializer = AVPacketDeserializer;
    deserializer.read(input)
}

/// Largest reliable-data payload, excluding the four-byte length prefix.
pub const MAX_DATA_PACKET_SIZE: usize = 1024 * 1024;

/// A reliable data packet.
#[derive(Clone, Debug)]
pub struct DataPacket {
    pub payload: Vec<u8>,
}

/// A metrics packet.
#[derive(Clone, Debug)]
pub struct MetricsPacket {
    pub payload: Vec<u8>,
}

/// An input event packet: its type and payload.
#[derive(Clone, Debug)]
pub struct InputPacket {
    pub type_: u8,
    pub payload: Vec<u8>,
}

/// The record of a payload behind a four-byte big-endian length.
pub open spec fn u32_framed(payload: Seq<u8>) -> Seq<u8> {
    be32(payload.len() as u32) + payload
}

/// The record of a payload behind a two-byte big-endian length.
pub open spec fn u16_framed(payload: Seq<u8>) -> Seq<u8> {
    be16(payload.len() as u16) + payload
}

/// The record of an input packet: type byte, two-byte length, payload.
pub open spec fn input_record(p: InputPacket) -> Seq<u8> {
    seq![p.type_] + u16_framed(p.payload@)
}

/// Reads a payload behind a four-byte length (`None` at the end of the
/// stream, even after a partial prefix, as a stream reader that hits end of
/// file inside the prefix).
fn read_u32_framed(input: &[u8]) -> (r: Result<Option<(Vec<u8>, usize)>, FramingError>)
    ensures
        input@.len() < 4 ==> r matches Ok(None),
        input@.len() >= 4 ==> {
            let size = be32_value(input@) as int;
            if input@.len() < 4 + size {
                r == Err::<Option<(Vec<u8>, usize)>, FramingError>(FramingError::UnexpectedEof)
            } else {
                r matches Ok(Some((v, n))) && n == 4 + size && v@ == input@.subrange(4, 4 + size)
            }
        },
{
    if input.len() < 4 {
        return Ok(None);
    }
    let size = read_be_u32(input) as usize;
    if input.len() - 4 < size {
        return Err(FramingError::UnexpectedEof);
    }
    Ok(Some((copy_range(input, 4, 4 + size), 4 + size)))
}

/// Reads a payload behind a two-byte length, as `read_u32_framed`.
fn read_u16_framed(input: &[u8]) -> (r: Result<Option<(Vec<u8>, usize)>, FramingError>)
    ensures
        input@.len() < 2 ==> r matches Ok(None),
        input@.len() >= 2 ==> {
            let size = be16_value(input@) as int;
            if input@.len() < 2 + size {
                r == Err::<Option<(Vec<u8>, usize)>, FramingError>(FramingError::UnexpectedEof)
            } else {
                r matches Ok(Some((v, n))) && n == 2 + size && v@ == input@.subrange(2, 2 + size)
            }
        },
{
    if input.len() < 2 {
        return Ok(None);
    }
    let size = read_be_u16(input) as usize;
    if input.len() - 2 < size {
        return Err(FramingError::UnexpectedEof);
    }
    Ok(Some((copy_range(input, 2, 2 + size), 2 + size)))
}

impl DataPacket {
    /// Appends the record of this packet. A payload that is empty or longer
    /// than `MAX_DATA_PACKET_SIZE` is refused and nothing is written.
    pub fn write(self, out: &mut Vec<u8>) -> (r: Result<(), FramingError>)
        ensures
            1 <= self.payload@.len() <= MAX_DATA_PACKET_SIZE ==> r is Ok && final(out)@ == old(
                out,
            )@ + u32_framed(self.payload@),
            !(1 <= self.payload@.len() <= MAX_DATA_PACKET_SIZE) ==> r == Err::<(), FramingError>(
                FramingError::InvalidInput,
            ) && final(out)@ == old(out)@,
    {
        let len = self.payload.len();
        if len < 1 || len > MAX_DATA_PACKET_SIZE {
            return Err(FramingError::InvalidInput);
        }
        let size = be_bytes_u32(len as u32);
        append_bytes(out, &size);
        append_bytes(out, self.payload.as_slice());
        assert(out@ =~= old(out)@ + u32_framed(self.payload@));
        Ok(())
    }

    /// Reads one record from the unread bytes of a stream: the end of the
    /// stream is clean only between records; a declared size of zero or
    /// above `MAX_DATA_PACKET_SIZE` is refused before any payload is read.
    pub fn read(input: &[u8]) -> (r: Result<Option<(DataPacket, usize)>, FramingError>)
        ensures
            match data_read(input@) {
                Ok(None) => r matches Ok(None),
                Ok(Some((payload, n))) => r matches Ok(Some((p, m))) && p.payload@ == payload && m
                    == n,
                Err(e) => r == Err::<Option<(DataPacket, usize)>, FramingError>(e),
            },
            input@.len() == 0 ==> r matches Ok(None),
            0 < input@.len() < 4 ==> r == Err::<Option<(DataPacket, usize)>, FramingError>(
                FramingError::UnexpectedEof,
            ),
            input@.len() >= 4 ==> {
                let size = be32_value(input@) as int;
                if size < 1 || size > MAX_DATA_PACKET_SIZE {
                    r == Err::<Option<(DataPacket, usize)>, FramingError>(
                        FramingError::InvalidData,
                    )
                } else if input@.len() < 4 + size {
                    r == Err::<Option<(DataPacket, usize)>, FramingError>(
                        FramingError::UnexpectedEof,
                    )
                } else {
                    r matches Ok(Some((p, n))) && n == 4 + size && p.payload@ == input@.subrange(
                        4,
                        4 + size,
                    )
                }
            },
    {
        if input.len() == 0 {
            return Ok(None);
        }
        if input.len() < 4 {
            return Err(FramingError::UnexpectedEof);
        }
        let size = read_be_u32(input) as usize;
        if size < 1 || size > MAX_DATA_PACKET_SIZE {
            return Err(FramingError::InvalidData);
        }
        if input.len() - 4 < size {
            return Err(FramingError::UnexpectedEof);
        }
        Ok(Some((DataPacket { payload: copy_range(input, 4, 4 + size) }, 4 + size)))
    }
}

pub struct DataPacketSerializer;

pub struct DataPacketDeserializer;

impl DataPacketSerializer {
    /// Appends the record of `packet`: its payload behind a four-byte length.
    pub fn write(&mut self, packet: DataPacket, out: &mut Vec<u8>)
        requires
            packet.payload@.len() <= u32::MAX,
        ensures
            final(out)@ == old(out)@ + u32_framed(packet.payload@),
    {
        let size = be_bytes_u32(packet.payload.len() as u32);
        append_bytes(out, &size);
        append_bytes(out, packet.payload.as_slice());
        assert(out@ =~= old(out)@ + u32_framed(packet.payload@));
    }
}

impl DataPacketDeserializer {
    /// Reads one record; the end of the stream inside the length is a clean
    /// end, inside the payload an `UnexpectedEof`.
    pub fn read(&mut self, input: &[u8]) -> (r: Result<Option<(DataPacket, usize)>, FramingError>)
        ensures
            input@.len() < 4 ==> r matches Ok(None),
            input@.len() >= 4 ==> {
                let size = be32_value(input@) as int;
                if input@.len() < 4 + size {
                    r == Err::<Option<(DataPacket, usize)>, FramingError>(
                        FramingError::UnexpectedEof,
                    )
                } else {
                    r matches Ok(Some((p, n))) && n == 4 + size && p.payload@ == input@.subrange(
                        4,
                        4 + size,
                    )
                }
            },
    {
        match read_u32_framed(input) {
            Ok(Some((payload, n))) => Ok(Some((DataPacket { payload }, n))),
            Ok(None) => Ok(None),
            Err(e) => Err(e),
        }
    }
}

pub struct MetricsPacketSerializer;

pub struct MetricsPacketDeserializer;

impl MetricsPacketSerializer {
    /// Appends the record of `packet`: its payload behind a two-byte length.
    pub fn write(&mut self, packet: MetricsPacket, out: &mut Vec<u8>)
        requires
            packet.payload@.len() <= u16::MAX,
        ensures
            final(out)@ == old(out)@ + u16_framed(packet.payload@),
    {
        let size = be_bytes_u16(packet.payload.len() as u16);
        append_bytes(out, &size);
        append_bytes(out, packet.payload.as_slice());
        assert(out@ =~= old(out)@ + u16_framed(packet.payload@));
    }
}

impl MetricsPacketDeserializer {
    /// Reads one record, as `DataPacketDeserializer::read` with a two-byte
    /// length.
    pub fn read(&mut self, input: &[u8]) -> (r: Result<Option<(MetricsPacket, usize)>, FramingError>)
        ensures
            input@.len() < 2 ==> r matches Ok(None),
            input@.len() >= 2 ==> {
                let size = be16_value(input@) as int;
                if input@.len() < 2 + size {
                    r == Err::<Option<(MetricsPacket, usize)>, FramingError>(
                        FramingError::UnexpectedEof,
                    )
                } else {
                    r matches Ok(Some((p, n))) && n == 2 + size && p.payload@ == input@.subrange(
                        2,
                        2 + size,
                    )
                }
            },
    {
        match read_u16_framed(input) {
            Ok(Some((payload, n))) => Ok(Some((MetricsPacket { payload }, n))),
            Ok(None) => Ok(None),
            Err(e) => Err(e),
        }
    }
}

impl InputPacket {
    /// Appends the record of this packet: type byte, two-byte length,
    /// payload.
    pub fn write(self, out: &mut Vec<u8>)
        requires
            self.payload@.len() <= u16::MAX,
        ensures
            final(out)@ == old(out)@ + input_record(self),
    {
        out.push(self.type_);
        let size = be_bytes_u16(self.payload.len() as u16);
        append_bytes(out, &size);
        append_bytes(out, self.payload.as_slice());
        assert(out@ =~= old(out)@ + input_record(self));
    }

    /// Reads one record; a stream that ends anywhere inside it is an
    /// `UnexpectedEof`.
    pub fn read(input: &[u8]) -> (r: Result<(InputPacket, usize), FramingError>)
        ensures
            input@.len() < 3 ==> r == Err::<(InputPacket, usize), FramingError>(
                FramingError::UnexpectedEof,
            ),
            input@.len() >= 3 ==> {
                let size = be16_value(input@.subrange(1, 3)) as int;
                if input@.len() < 3 + size {
                    r == Err::<(InputPacket, usize), FramingError>(FramingError::UnexpectedEof)
                } else {
                    r matches Ok((p, n)) && n == 3 + size && p.type_ == input@[0] && p.payload@
                        == input@.subrange(3, 3 + size)
                }
            },
    {
        if input.len() < 3 {
            return Err(FramingError::UnexpectedEof);
        }
        let type_ = input[0];
        let size = read_be_u16(vstd::slice::slice_subrange(input, 1, 3)) as usize;
        if input.len() - 3 < size {
            return Err(FramingError::UnexpectedEof);
        }
        Ok((InputPacket { type_, payload: copy_range(input, 3, 3 + size) }, 3 + size))
    }
}


/// The header that the record of `p` starts with.
pub open spec fn packet_header(p: AVPacket) -> AVPacketHeader {
    match p {
        AVPacket::Codec(c) => AVPacketHeader::Codec(c.header),
        AVPacket::Media(m) => AVPacketHeader::Media(m.header),
        AVPacket::Hole(h) => AVPacketHeader::Hole(h.header),
    }
}

/// A packet whose record reads back as the same packet: a codec number that
/// neither sets the media bit nor is zero (which would read as a hole), a
/// hole that announces missing samples, a media pts within 61 bits and a
/// media size that is the payload's length.
pub open spec fn record_roundtrips(p: AVPacket) -> bool {
    match p {
        AVPacket::Codec(c) => 0 < c.header.codec < 0x8000_0000,
        AVPacket::Media(m) => m.header.pts <= pts_mask() && m.header.size == m.payload@.len(),
        AVPacket::Hole(h) => h.header.missing_audio_samples > 0,
    }
}

/// What a written AV record reads back as, whatever follows it in the
/// stream: a readable header that is the packet's, then for a media packet
/// exactly its payload.
pub proof fn lemma_av_record_roundtrip(p: AVPacket, rest: Seq<u8>)
    requires
        record_roundtrips(p),
    ensures
        ({
            let input = av_record(p) + rest;
            &&& input.len() >= HEADER_SIZE
            &&& readable_av_stream(input)
            &&& header_of(input.subrange(0, HEADER_SIZE as int)) == packet_header(p)
            &&& match p {
                AVPacket::Media(m) => input.len() >= HEADER_SIZE + m.header.size && av_packet_is(
                    p,
                    packet_header(p),
                    input.subrange(HEADER_SIZE as int, HEADER_SIZE + m.header.size),
                ),
                _ => av_packet_is(p, packet_header(p), Seq::empty()),
            }
        }),
{
    let input = av_record(p) + rest;
    match p {
        AVPacket::Codec(c) => {
            crate::av::lemma_codec_header_roundtrip(c.header);
            assert(input.subrange(0, HEADER_SIZE as int) =~= codec_header_bytes(c.header));
        },
        AVPacket::Media(m) => {
            crate::av::lemma_media_header_roundtrip(m.header);
            assert(input.subrange(0, HEADER_SIZE as int) =~= media_header_bytes(m.header));
            assert(input.subrange(HEADER_SIZE as int, HEADER_SIZE + m.header.size) =~= m.payload@);
        },
        AVPacket::Hole(h) => {
            crate::av::lemma_hole_header_roundtrip(h.header);
            assert(input.subrange(0, HEADER_SIZE as int) =~= hole_header_bytes(h.header));
        },
    }
}

/// The stream that carries the AV records of `ps`, one after another.
pub open spec fn av_stream(ps: Seq<AVPacket>) -> Seq<u8>
    decreases ps.len(),
{
    if ps.len() == 0 {
        Seq::empty()
    } else {
        av_record(ps[0]) + av_stream(ps.drop_first())
    }
}

/// AV records written one after another read back in order: reading the
/// stream gives the first packet, as `lemma_av_record_roundtrip` says, the
/// reader takes exactly that packet's record, and what follows it is the
/// stream of the other packets.
pub proof fn lemma_av_records_in_order(ps: Seq<AVPacket>)
    requires
        ps.len() > 0,
        record_roundtrips(ps[0]),
    ensures
        ({
            let p = ps[0];
            let input = av_stream(ps);
            &&& input.len() >= HEADER_SIZE
            &&& readable_av_stream(input)
            &&& header_of(input.subrange(0, HEADER_SIZE as int)) == packet_header(p)
            &&& match p {
                AVPacket::Media(m) => av_record(p).len() == HEADER_SIZE + m.header.size
                    && av_packet_is(
                    p,
                    packet_header(p),
                    input.subrange(HEADER_SIZE as int, HEADER_SIZE + m.header.size),
                ),
                _ => av_record(p).len() == HEADER_SIZE && av_packet_is(
                    p,
                    packet_header(p),
                    Seq::empty(),
                ),
            }
            &&& input.skip(av_record(p).len() as int) == av_stream(ps.drop_first())
        }),
{
    let p = ps[0];
    let rest = av_stream(ps.drop_first());
    assert(av_stream(ps) == av_record(p) + rest);
    lemma_av_record_roundtrip(p, rest);
    assert((av_record(p) + rest).skip(av_record(p).len() as int) =~= rest);
}

/// What reading one data record from the unread bytes `input` gives: the
/// payload with the bytes used, a clean end, or an error.
pub open spec fn data_read(input: Seq<u8>) -> Result<Option<(Seq<u8>, int)>, FramingError> {
    if input.len() == 0 {
        Ok(None)
    } else if input.len() < 4 {
        Err(FramingError::UnexpectedEof)
    } else {
        let size = be32_value(input) as int;
        if size < 1 || size > MAX_DATA_PACKET_SIZE {
            Err(FramingError::InvalidData)
        } else if input.len() < 4 + size {
            Err(FramingError::UnexpectedEof)
        } else {
            Ok(Some((input.subrange(4, 4 + size), 4 + size)))
        }
    }
}

/// The stream that carries the data records of `ps`, one after another.
pub open spec fn data_stream(ps: Seq<Seq<u8>>) -> Seq<u8>
    decreases ps.len(),
{
    if ps.len() == 0 {
        Seq::empty()
    } else {
        u32_framed(ps[0]) + data_stream(ps.drop_first())
    }
}

/// Data records written one after another read back in order, however the
/// stream's bytes arrive: reading the stream of no record is a clean end;
/// reading that of records gives the first payload, and what follows the
/// record is the stream of the others.
pub proof fn lemma_data_records_in_order(ps: Seq<Seq<u8>>)
    requires
        forall|i: int| 0 <= i < ps.len() ==> 1 <= #[trigger] ps[i].len() <= MAX_DATA_PACKET_SIZE,
    ensures
        ps.len() == 0 ==> data_read(data_stream(ps)) == Ok::<Option<(Seq<u8>, int)>, FramingError>(
            None,
        ),
        ps.len() > 0 ==> data_read(data_stream(ps)) == Ok::<Option<(Seq<u8>, int)>, FramingError>(
            Some((ps[0], 4 + ps[0].len() as int)),
        ) && data_stream(ps).skip(4 + ps[0].len() as int) == data_stream(ps.drop_first()),
{
    if ps.len() > 0 {
        let p = ps[0];
        assert(1 <= ps[0].len() <= MAX_DATA_PACKET_SIZE);
        lemma_u32_framed_roundtrip(p, data_stream(ps.drop_first()));
        assert(data_stream(ps).skip(4 + p.len() as int) =~= data_stream(ps.drop_first()));
    }
}

/// A written data record reads back as its payload, whatever follows it.
pub proof fn lemma_u32_framed_roundtrip(payload: Seq<u8>, rest: Seq<u8>)
    requires
        payload.len() <= u32::MAX,
    ensures
        ({
            let input = u32_framed(payload) + rest;
            &&& input.len() >= 4
            &&& be32_value(input) == payload.len()
            &&& input.subrange(4, 4 + payload.len() as int) == payload
        }),
{
    let input = u32_framed(payload) + rest;
    crate::wire::lemma_be32_roundtrip(payload.len() as u32);
    assert(input.subrange(0, 4) =~= be32(payload.len() as u32));
    assert(be32_value(input) == be32_value(input.subrange(0, 4)));
    assert(input.subrange(4, 4 + payload.len() as int) =~= payload);
}

/// A written metrics record reads back as its payload, whatever follows it.
pub proof fn lemma_u16_framed_roundtrip(payload: Seq<u8>, rest: Seq<u8>)
    requires
        payload.len() <= u16::MAX,
    ensures
        ({
            let input = u16_framed(payload) + rest;
            &&& input.len() >= 2
            &&& be16_value(input) == payload.len()
            &&& input.subrange(2, 2 + payload.len() as int) == payload
        }),
{
    let input = u16_framed(payload) + rest;
    crate::wire::lemma_be16_roundtrip(payload.len() as u16);
    assert(input.subrange(0, 2) =~= be16(payload.len() as u16));
    assert(be16_value(input) == be16_value(input.subrange(0, 2)));
    assert(input.subrange(2, 2 + payload.len() as int) =~= payload);
}

} // verus!
