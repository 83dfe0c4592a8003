//! Audio/video packets and their 12-byte wire headers.
use crate::wire::{
    be16, be16_value, be32, be32_value, be64, be64_value, be_bytes_u16, be_bytes_u32, be_bytes_u64,
    read_be_u16, read_be_u32, read_be_u64,
};
use vstd::prelude::*;

verus! {

/// Size of every serialized AV packet header.
pub const HEADER_SIZE: usize = 12;

/// A codec packet header: the codec in use and its parameters.
#[derive(Clone, Copy, Debug, PartialEq, Eq, Structural)]
pub struct CodecPacketHeader {
    pub codec: u32,
    pub rotation: u8,
    pub frame_size: u16,
}

/// A media packet header (configuration or frame data).
#[derive(Clone, Copy, Debug, PartialEq, Eq, Structural)]
pub struct MediaPacketHeader {
    pub is_config: bool,
    pub is_key: bool,
    pub pts: u64,
    pub size: u32,
}

/// A hole packet header, telling how many audio samples are missing.
#[derive(Clone, Copy, Debug, PartialEq, Eq, Structural)]
pub struct HolePacketHeader {
    pub missing_audio_samples: u32,
}

/// Any AV packet header, as told apart on the wire.
#[derive(Clone, Copy, Debug, PartialEq, Eq, Structural)]
pub enum AVPacketHeader {
    Codec(CodecPacketHeader),
    Media(MediaPacketHeader),
    Hole(HolePacketHeader),
}

#[derive(Clone, Debug)]
pub struct CodecPacket {
    pub header: CodecPacketHeader,
}

#[derive(Clone, Debug)]
pub struct MediaPacket {
    pub header: MediaPacketHeader,
    pub payload: Vec<u8>,
}

#[derive(Clone, Debug)]
pub struct HolePacket {
    pub header: HolePacketHeader,
}

#[derive(Clone, Debug)]
pub enum AVPacket {
    Codec(CodecPacket),
    Media(MediaPacket),
    Hole(HolePacket),
}

/// Flag bits of the first 64-bit word of a media header.
pub open spec fn media_flag() -> u64 {
    0x8000_0000_0000_0000
}

pub open spec fn config_flag() -> u64 {
    0x4000_0000_0000_0000
}

pub open spec fn key_flag() -> u64 {
    0x2000_0000_0000_0000
}

pub open spec fn pts_mask() -> u64 {
    0x1FFF_FFFF_FFFF_FFFF
}

/// The first word of a media header: the pts with the flag bits above it.
pub open spec fn media_word(h: MediaPacketHeader) -> u64 {
    h.pts | media_flag() | (if h.is_config { config_flag() } else { 0 }) | (if h.is_key {
        key_flag()
    } else {
        0
    })
}

/// Wire bytes of a codec header: codec, rotation, frame size, then zeros.
pub open spec fn codec_header_bytes(h: CodecPacketHeader) -> Seq<u8> {
    be32(h.codec) + seq![h.rotation] + be16(h.frame_size) + seq![0u8, 0u8, 0u8, 0u8, 0u8]
}

/// Wire bytes of a media header: flags and pts, then the payload size.
pub open spec fn media_header_bytes(h: MediaPacketHeader) -> Seq<u8> {
    be64(media_word(h)) + be32(h.size)
}

/// Wire bytes of a hole header: four zeros, the count, four zeros.
pub open spec fn hole_header_bytes(h: HolePacketHeader) -> Seq<u8> {
    seq![0u8, 0u8, 0u8, 0u8] + be32(h.missing_audio_samples) + seq![0u8, 0u8, 0u8, 0u8]
}

pub open spec fn header_bytes(h: AVPacketHeader) -> Seq<u8> {
    match h {
        AVPacketHeader::Codec(c) => codec_header_bytes(c),
        AVPacketHeader::Media(m) => media_header_bytes(m),
        AVPacketHeader::Hole(o) => hole_header_bytes(o),
    }
}

/// A codec header read from wire bytes.
pub open spec fn codec_header_of(b: Seq<u8>) -> CodecPacketHeader {
    CodecPacketHeader {
        codec: be32_value(b),
        rotation: b[4],
        frame_size: be16_value(b.subrange(5, 7)),
    }
}

/// A media header read from wire bytes.
pub open spec fn media_header_of(b: Seq<u8>) -> MediaPacketHeader {
    let word = be64_value(b);
    MediaPacketHeader {
        is_config: word & config_flag() != 0,
        is_key: word & key_flag() != 0,
        pts: word & pts_mask(),
        size: be32_value(b.subrange(8, 12)),
    }
}

/// A hole header read from wire bytes.
pub open spec fn hole_header_of(b: Seq<u8>) -> HolePacketHeader {
    HolePacketHeader { missing_audio_samples: be32_value(b.subrange(4, 8)) }
}

/// The wire bytes start with the media bit.
pub open spec fn is_media_bytes(b: Seq<u8>) -> bool {
    b[0] & 0x80 != 0
}

/// The first four wire bytes are zero: the mark of a hole header.
pub open spec fn is_hole_bytes(b: Seq<u8>) -> bool {
    b[0] == 0 && b[1] == 0 && b[2] == 0 && b[3] == 0
}

/// The header that twelve wire bytes hold.
pub open spec fn header_of(b: Seq<u8>) -> AVPacketHeader {
    if is_media_bytes(b) {
        AVPacketHeader::Media(media_header_of(b))
    } else if is_hole_bytes(b) {
        AVPacketHeader::Hole(hole_header_of(b))
    } else {
        AVPacketHeader::Codec(codec_header_of(b))
    }
}

/// Twelve bytes that decode without panicking: a hole header must announce
/// at least one missing sample.
pub open spec fn valid_header_bytes(b: Seq<u8>) -> bool {
    &&& b.len() == HEADER_SIZE
    &&& (!is_media_bytes(b) && is_hole_bytes(b)) ==> hole_header_of(b).missing_audio_samples > 0
}

impl CodecPacketHeader {
    pub fn serialize(&self) -> (b: [u8; 12])
        ensures
            b@ == codec_header_bytes(*self),
    {
        let c = be_bytes_u32(self.codec);
        let f = be_bytes_u16(self.frame_size);
        let b = [c[0], c[1], c[2], c[3], self.rotation, f[0], f[1], 0, 0, 0, 0, 0];
        assert(b@ =~= codec_header_bytes(*self));
        b
    }

    pub fn deserialize(buf: &[u8]) -> (h: Self)
        requires
            buf@.len() == HEADER_SIZE,
            !is_media_bytes(buf@),
        ensures
            h == codec_header_of(buf@),
    {
        let codec = read_be_u32(buf);
        let rotation = buf[4];
        let frame_size = read_be_u16(vstd::slice::slice_subrange(buf, 5, 7));
        CodecPacketHeader { codec, rotation, frame_size }
    }
}

impl MediaPacketHeader {
    pub fn serialize(&self) -> (b: [u8; 12])
        requires
            self.pts <= pts_mask(),
        ensures
            b@ == media_header_bytes(*self),
    {
        let config: u64 = if self.is_config { 0x4000_0000_0000_0000 } else { 0 };
        let key: u64 = if self.is_key { 0x2000_0000_0000_0000 } else { 0 };
        let word = self.pts | 0x8000_0000_0000_0000 | config | key;
        let w = be_bytes_u64(word);
        let s = be_bytes_u32(self.size);
        let b = [w[0], w[1], w[2], w[3], w[4], w[5], w[6], w[7], s[0], s[1], s[2], s[3]];
        assert(b@ =~= media_header_bytes(*self));
        b
    }

    pub fn deserialize(buf: &[u8]) -> (h: Self)
        requires
            buf@.len() == HEADER_SIZE,
            is_media_bytes(buf@),
        ensures
            h == media_header_of(buf@),
    {
        let word = read_be_u64(buf);
        let is_config = (word & 0x4000_0000_0000_0000) != 0;
        let is_key = (word & 0x2000_0000_0000_0000) != 0;
        let pts = word & 0x1FFF_FFFF_FFFF_FFFF;
        let size = read_be_u32(vstd::slice::slice_subrange(buf, 8, 12));
        MediaPacketHeader { is_config, is_key, pts, size }
    }
}

impl HolePacketHeader {
    pub fn serialize(&self) -> (b: [u8; 12])
        ensures
            b@ == hole_header_bytes(*self),
    {
        let m = be_bytes_u32(self.missing_audio_samples);
        let b = [0, 0, 0, 0, m[0], m[1], m[2], m[3], 0, 0, 0, 0];
        assert(b@ =~= hole_header_bytes(*self));
        b
    }

    pub fn deserialize(buf: &[u8]) -> (h: Self)
        requires
            buf@.len() == HEADER_SIZE,
            is_hole_bytes(buf@),
            hole_header_of(buf@).missing_audio_samples > 0,
        ensures
            h == hole_header_of(buf@),
    {
        let missing_audio_samples = read_be_u32(vstd::slice::slice_subrange(buf, 4, 8));
        HolePacketHeader { missing_audio_samples }
    }
}

impl AVPacketHeader {
    pub fn deserialize(buf: &[u8]) -> (h: Self)
        requires
            valid_header_bytes(buf@),
        ensures
            h == header_of(buf@),
    {
        let is_media = buf[0] & 0x80 != 0;
        if is_media {
            AVPacketHeader::Media(MediaPacketHeader::deserialize(buf))
        } else if buf[0] == 0 && buf[1] == 0 && buf[2] == 0 && buf[3] == 0 {
            AVPacketHeader::Hole(HolePacketHeader::deserialize(buf))
        } else {
            AVPacketHeader::Codec(CodecPacketHeader::deserialize(buf))
        }
    }
}

/// Reading back the bytes that serialize a media header gives the header
/// (the pts must fit in its 61 bits).
pub proof fn lemma_media_header_roundtrip(h: MediaPacketHeader)
    requires
        h.pts <= pts_mask(),
    ensures
        valid_header_bytes(media_header_bytes(h)),
        header_of(media_header_bytes(h)) == AVPacketHeader::Media(h),
{
    let b = media_header_bytes(h);
    let w = media_word(h);
    crate::wire::lemma_be64_roundtrip(w);
    crate::wire::lemma_be32_roundtrip(h.size);
    assert(b.subrange(0, 8) =~= be64(w));
    assert(b.subrange(8, 12) =~= be32(h.size));
    assert(be64_value(b) == be64_value(b.subrange(0, 8)));
    let pts = h.pts;
    let c = h.is_config;
    let k = h.is_key;
    let cf: u64 = if c { 0x4000_0000_0000_0000 } else { 0 };
    let kf: u64 = if k { 0x2000_0000_0000_0000 } else { 0 };
    assert(w == pts | 0x8000_0000_0000_0000u64 | cf | kf);
    assert((pts | 0x8000_0000_0000_0000u64 | cf | kf) & 0x1FFF_FFFF_FFFF_FFFFu64 == pts) by (bit_vector)
        requires
            pts <= 0x1FFF_FFFF_FFFF_FFFFu64,
            cf == 0 || cf == 0x4000_0000_0000_0000u64,
            kf == 0 || kf == 0x2000_0000_0000_0000u64;
    assert(((pts | 0x8000_0000_0000_0000u64 | cf | kf) & 0x4000_0000_0000_0000u64 != 0) == (cf != 0))
        by (bit_vector)
        requires
            pts <= 0x1FFF_FFFF_FFFF_FFFFu64,
            cf == 0 || cf == 0x4000_0000_0000_0000u64,
            kf == 0 || kf == 0x2000_0000_0000_0000u64;
    assert(((pts | 0x8000_0000_0000_0000u64 | cf | kf) & 0x2000_0000_0000_0000u64 != 0) == (kf != 0))
        by (bit_vector)
        requires
            pts <= 0x1FFF_FFFF_FFFF_FFFFu64,
            cf == 0 || cf == 0x4000_0000_0000_0000u64,
            kf == 0 || kf == 0x2000_0000_0000_0000u64;
    assert((((pts | 0x8000_0000_0000_0000u64 | cf | kf) >> 56u64) as u8) & 0x80u8 != 0) by (bit_vector);
}

/// Reading back a serialized codec header gives the header, for a codec
/// number that neither sets the media bit nor looks like a hole
/// (`0 < codec < 2^31`).
pub proof fn lemma_codec_header_roundtrip(h: CodecPacketHeader)
    requires
        0 < h.codec < 0x8000_0000,
    ensures
        valid_header_bytes(codec_header_bytes(h)),
        header_of(codec_header_bytes(h)) == AVPacketHeader::Codec(h),
{
    let b = codec_header_bytes(h);
    let v = h.codec;
    crate::wire::lemma_be32_roundtrip(v);
    crate::wire::lemma_be16_roundtrip(h.frame_size);
    assert(b.subrange(5, 7) =~= be16(h.frame_size));
    assert(((v >> 24u32) as u8) & 0x80u8 == 0) by (bit_vector)
        requires
            v < 0x8000_0000u32;
    assert(!(((v >> 24u32) as u8) == 0 && ((v >> 16u32) as u8) == 0 && ((v >> 8u32) as u8) == 0 && (v
        as u8) == 0)) by (bit_vector)
        requires
            v > 0u32;
}

/// Reading back a serialized hole header gives the header, when it
/// announces at least one missing sample.
pub proof fn lemma_hole_header_roundtrip(h: HolePacketHeader)
    requires
        h.missing_audio_samples > 0,
    ensures
        valid_header_bytes(hole_header_bytes(h)),
        header_of(hole_header_bytes(h)) == AVPacketHeader::Hole(h),
{
    let b = hole_header_bytes(h);
    crate::wire::lemma_be32_roundtrip(h.missing_audio_samples);
    assert(b.subrange(4, 8) =~= be32(h.missing_audio_samples));
    assert(0u8 & 0x80u8 == 0) by (bit_vector);
    assert(b[0] == 0u8);
}

/// Media header bytes are canonical: serializing the header they hold gives
/// the same twelve bytes back.
pub proof fn lemma_media_bytes_canonical(b: Seq<u8>)
    requires
        b.len() == HEADER_SIZE,
        is_media_bytes(b),
    ensures
        media_header_of(b).pts <= pts_mask(),
        media_header_bytes(media_header_of(b)) =~= b,
{
    let h = media_header_of(b);
    let w = be64_value(b);
    let (b0, b1, b2, b3, b4, b5, b6, b7) = (b[0], b[1], b[2], b[3], b[4], b[5], b[6], b[7]);
    assert(w == ((b0 as u64) << 56u64) | ((b1 as u64) << 48u64) | ((b2 as u64) << 40u64) | ((b3 as u64)
        << 32u64) | ((b4 as u64) << 24u64) | ((b5 as u64) << 16u64) | ((b6 as u64) << 8u64) | (b7
        as u64));
    let cf: u64 = if w & 0x4000_0000_0000_0000u64 != 0 { 0x4000_0000_0000_0000 } else { 0 };
    let kf: u64 = if w & 0x2000_0000_0000_0000u64 != 0 { 0x2000_0000_0000_0000 } else { 0 };
    assert((w & 0x1FFF_FFFF_FFFF_FFFFu64) | 0x8000_0000_0000_0000u64 | cf | kf == w) by (bit_vector)
        requires
            w == ((b0 as u64) << 56u64) | ((b1 as u64) << 48u64) | ((b2 as u64) << 40u64) | ((b3
                as u64) << 32u64) | ((b4 as u64) << 24u64) | ((b5 as u64) << 16u64) | ((b6 as u64)
                << 8u64) | (b7 as u64),
            b0 & 0x80u8 != 0,
            cf == (if w & 0x4000_0000_0000_0000u64 != 0 { 0x4000_0000_0000_0000u64 } else { 0u64 }),
            kf == (if w & 0x2000_0000_0000_0000u64 != 0 { 0x2000_0000_0000_0000u64 } else { 0u64 }),
    ;
    assert(media_word(h) == w);
    assert(w & 0x1FFF_FFFF_FFFF_FFFFu64 <= 0x1FFF_FFFF_FFFF_FFFFu64) by (bit_vector);
    crate::wire::lemma_be64_bytes_roundtrip(b.subrange(0, 8));
    crate::wire::lemma_be32_bytes_roundtrip(b.subrange(8, 12));
    assert(be64_value(b.subrange(0, 8)) == w);
}

} // verus!
