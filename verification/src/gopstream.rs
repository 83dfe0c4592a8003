//! Video over one reliable stream per group of pictures (GOP). The sender
//! opens a new stream at each key frame and starts it with three numbers,
//! those of the GOP and of the current codec and configuration packets,
//! followed by those two packets; it finishes the previous stream. The
//! receiver follows only the stream of the newest GOP, and hands out a
//! codec or configuration packet once per generation.
use crate::av::{AVPacket, CodecPacket, MediaPacket};
use crate::serial::{append_bytes, av_record, writable_av};
use crate::wire::{be32, be32_value, be_bytes_u32, lemma_be32_roundtrip, read_be_u32};
use vstd::prelude::*;

verus! {

/// The numbers that open each stream: the GOP, and the generations of the
/// codec and configuration packets repeated on the stream.
#[derive(Clone, Copy, Debug, PartialEq, Eq, Structural)]
pub struct Gop {
    pub id: u32,
    pub codec_gen: u32,
    pub config_gen: u32,
}

/// The bytes of the numbers that open a stream, each big-endian.
pub open spec fn gop_bytes(g: Gop) -> Seq<u8> {
    be32(g.id) + be32(g.codec_gen) + be32(g.config_gen)
}

/// The numbers in the twelve bytes that open a stream.
pub open spec fn gop_of(b: Seq<u8>) -> Gop {
    Gop {
        id: be32_value(b),
        codec_gen: be32_value(b.subrange(4, 8)),
        config_gen: be32_value(b.subrange(8, 12)),
    }
}

/// Reads the numbers that open a stream.
pub fn parse_gop(ids: &[u8]) -> (g: Gop)
    requires
        ids@.len() == 12,
    ensures
        g == gop_of(ids@),
{
    let id = read_be_u32(ids);
    let codec_gen = read_be_u32(vstd::slice::slice_subrange(ids, 4, 8));
    let config_gen = read_be_u32(vstd::slice::slice_subrange(ids, 8, 12));
    Gop { id, codec_gen, config_gen }
}

/// Reading the numbers written at the start of a stream gives them back.
pub proof fn lemma_gop_roundtrip(g: Gop, rest: Seq<u8>)
    ensures
        gop_of(gop_bytes(g) + rest) == g,
{
    let b = gop_bytes(g) + rest;
    lemma_be32_roundtrip(g.id);
    lemma_be32_roundtrip(g.codec_gen);
    lemma_be32_roundtrip(g.config_gen);
    assert(b.subrange(0, 4) =~= be32(g.id));
    assert(b.subrange(4, 8) =~= be32(g.codec_gen));
    assert(b.subrange(8, 12) =~= be32(g.config_gen));
    assert(be32_value(b) == be32_value(b.subrange(0, 4)));
}

/// The successor of `x`, wrapping at 32 bits.
pub open spec fn wrapped_next(x: u32) -> u32 {
    if x == u32::MAX {
        0
    } else {
        (x + 1) as u32
    }
}

/// What the sender does with one packet.
#[derive(Debug)]
pub enum GopSend {
    /// The packet is remembered, to be repeated on the next streams.
    Kept,
    /// Open a new stream, write `opening` then `record` on it, and finish
    /// the previous stream.
    NewStream { opening: Vec<u8>, record: Vec<u8> },
    /// Write `record` on the current stream.
    Write(Vec<u8>),
    /// No stream was opened yet (no key frame came): the packet is dropped.
    Dropped,
}

/// The send state: the number of the next GOP, the latest codec and
/// configuration packets with their generations, and whether a stream is
/// open.
pub struct GopSender {
    gop_id: u32,
    codec_gen: u32,
    codec_packet: Option<CodecPacket>,
    config_gen: u32,
    config_packet: Option<MediaPacket>,
    has_stream: bool,
}

impl GopSender {
    pub closed spec fn next_gop(&self) -> u32 {
        self.gop_id
    }

    pub closed spec fn codec_gen(&self) -> u32 {
        self.codec_gen
    }

    pub closed spec fn config_gen(&self) -> u32 {
        self.config_gen
    }

    pub closed spec fn codec(&self) -> Option<CodecPacket> {
        self.codec_packet
    }

    pub closed spec fn config(&self) -> Option<MediaPacket> {
        self.config_packet
    }

    pub closed spec fn streaming(&self) -> bool {
        self.has_stream
    }

    /// The kept configuration packet can be written.
    pub closed spec fn wf(&self) -> bool {
        self.config_packet matches Some(m) ==> writable_av(AVPacket::Media(m))
    }

    pub fn new() -> (s: Self)
        ensures
            s.wf(),
            s.next_gop() == 0,
            s.codec_gen() == 0,
            s.config_gen() == 0,
            s.codec() is None,
            s.config() is None,
            !s.streaming(),
    {
        GopSender {
            gop_id: 0,
            codec_gen: 0,
            codec_packet: None,
            config_gen: 0,
            config_packet: None,
            has_stream: false,
        }
    }

    /// Whether a key frame can open a stream now: the codec and
    /// configuration packets it repeats are known.
    pub fn can_open_stream(&self) -> (b: bool)
        ensures
            b == (self.codec() is Some && self.config() is Some),
    {
        self.codec_packet.is_some() && self.config_packet.is_some()
    }

    /// A codec or configuration packet is kept under its next generation. A
    /// key frame opens the stream of the next GOP: the stream starts with
    /// the GOP's numbers and the kept codec and configuration packets, then
    /// the frame. Any other frame goes on the current stream, or is dropped
    /// before the first key frame. Numbers wrap at 32 bits.
    pub fn send(&mut self, packet: AVPacket) -> (a: GopSend)
        requires
            old(self).wf(),
            !(packet is Hole),
            writable_av(packet),
            (packet matches AVPacket::Media(m) && !m.header.is_config && m.header.is_key) ==> old(
                self,
            ).codec() is Some && old(self).config() is Some,
        ensures
            final(self).wf(),
            match packet {
                AVPacket::Codec(c) => {
                    &&& a is Kept
                    &&& final(self).codec() == Some(c)
                    &&& final(self).codec_gen() == wrapped_next(old(self).codec_gen())
                    &&& final(self).config() == old(self).config()
                    &&& final(self).config_gen() == old(self).config_gen()
                    &&& final(self).next_gop() == old(self).next_gop()
                    &&& final(self).streaming() == old(self).streaming()
                },
                AVPacket::Media(m) => if m.header.is_config {
                    &&& a is Kept
                    &&& final(self).config() == Some(m)
                    &&& final(self).config_gen() == wrapped_next(old(self).config_gen())
                    &&& final(self).codec() == old(self).codec()
                    &&& final(self).codec_gen() == old(self).codec_gen()
                    &&& final(self).next_gop() == old(self).next_gop()
                    &&& final(self).streaming() == old(self).streaming()
                } else {
                    &&& final(self).codec() == old(self).codec()
                    &&& final(self).codec_gen() == old(self).codec_gen()
                    &&& final(self).config() == old(self).config()
                    &&& final(self).config_gen() == old(self).config_gen()
                    &&& if m.header.is_key {
                        &&& a matches GopSend::NewStream { opening, record } && opening@
                            == gop_bytes(
                            Gop {
                                id: old(self).next_gop(),
                                codec_gen: old(self).codec_gen(),
                                config_gen: old(self).config_gen(),
                            },
                        ) + av_record(AVPacket::Codec(old(self).codec()->0)) + av_record(
                            AVPacket::Media(old(self).config()->0),
                        ) && record@ == av_record(packet)
                        &&& final(self).next_gop() == wrapped_next(old(self).next_gop())
                        &&& final(self).streaming()
                    } else {
                        &&& final(self).next_gop() == old(self).next_gop()
                        &&& final(self).streaming() == old(self).streaming()
                        &&& if old(self).streaming() {
                            a matches GopSend::Write(record) && record@ == av_record(packet)
                        } else {
                            a is Dropped
                        }
                    }
                },
                AVPacket::Hole(_) => true,
            },
    {
        match packet {
            AVPacket::Codec(c) => {
                self.codec_gen = self.codec_gen.wrapping_add(1);
                self.codec_packet = Some(c);
                GopSend::Kept
            },
            AVPacket::Media(m) => {
                if m.header.is_config {
                    self.config_gen = self.config_gen.wrapping_add(1);
                    self.config_packet = Some(m);
                    return GopSend::Kept;
                }
                let mut record: Vec<u8> = Vec::new();
                let h = m.header.serialize();
                append_bytes(&mut record, &h);
                append_bytes(&mut record, m.payload.as_slice());
                assert(record@ =~= av_record(AVPacket::Media(m)));
                if m.header.is_key {
                    let mut opening: Vec<u8> = Vec::new();
                    let id = be_bytes_u32(self.gop_id);
                    let codec_gen = be_bytes_u32(self.codec_gen);
                    let config_gen = be_bytes_u32(self.config_gen);
                    append_bytes(&mut opening, &id);
                    append_bytes(&mut opening, &codec_gen);
                    append_bytes(&mut opening, &config_gen);
                    match &self.codec_packet {
                        Some(c) => {
                            let ch = c.header.serialize();
                            append_bytes(&mut opening, &ch);
                        },
                        None => {},
                    }
                    match &self.config_packet {
                        Some(cfg) => {
                            let fh = cfg.header.serialize();
                            append_bytes(&mut opening, &fh);
                            append_bytes(&mut opening, cfg.payload.as_slice());
                        },
                        None => {},
                    }
                    assert(opening@ =~= gop_bytes(
                        Gop {
                            id: self.gop_id,
                            codec_gen: self.codec_gen,
                            config_gen: self.config_gen,
                        },
                    ) + av_record(AVPacket::Codec(self.codec_packet->0)) + av_record(
                        AVPacket::Media(self.config_packet->0),
                    ));
                    self.gop_id = self.gop_id.wrapping_add(1);
                    self.has_stream = true;
                    GopSend::NewStream { opening, record }
                } else if self.has_stream {
                    GopSend::Write(record)
                } else {
                    GopSend::Dropped
                }
            },
            AVPacket::Hole(_) => GopSend::Dropped,
        }
    }
}

/// The receive state as plain values: the GOP whose stream is followed,
/// and the generations of the codec and configuration packets handed out
/// last.
#[derive(Clone, Copy, Debug, PartialEq, Eq, Structural)]
pub struct GopReceiverView {
    pub current: Option<Gop>,
    pub last_codec_gen: u32,
    pub last_config_gen: u32,
}

/// What the receiver does with the numbers opening a new stream: it follows
/// the stream if its GOP is newer than the one followed, or if none is.
pub open spec fn follows(v: GopReceiverView, gop: Gop) -> bool {
    match v.current {
        Some(p) => gop.id > p.id,
        None => true,
    }
}

/// What the receiver does with a packet read from the stream of GOP
/// `gop_id`, while it follows the GOP `v.current`: the state after, and the
/// packet handed out, if any. A packet of another GOP is dropped; a codec
/// or configuration packet of a generation already handed out is dropped;
/// any other packet is handed out, and a codec or configuration packet
/// records its generation.
pub open spec fn gop_receive(v: GopReceiverView, packet: AVPacket, gop_id: u32) -> (
    GopReceiverView,
    Option<AVPacket>,
) {
    let g = v.current->0;
    if gop_id != g.id {
        (v, None)
    } else {
        match packet {
            AVPacket::Codec(_) => if g.codec_gen == v.last_codec_gen {
                (v, None)
            } else {
                (GopReceiverView { last_codec_gen: g.codec_gen, ..v }, Some(packet))
            },
            AVPacket::Media(m) => if m.header.is_config {
                if g.config_gen == v.last_config_gen {
                    (v, None)
                } else {
                    (GopReceiverView { last_config_gen: g.config_gen, ..v }, Some(packet))
                }
            } else {
                (v, Some(packet))
            },
            AVPacket::Hole(_) => (v, None),
        }
    }
}

/// The receive state of the GOP stream protocol.
pub struct GopReceiver {
    gop: Option<Gop>,
    last_codec_gen: u32,
    last_config_gen: u32,
}

impl View for GopReceiver {
    type V = GopReceiverView;

    closed spec fn view(&self) -> GopReceiverView {
        GopReceiverView {
            current: self.gop,
            last_codec_gen: self.last_codec_gen,
            last_config_gen: self.last_config_gen,
        }
    }
}

impl GopReceiver {
    pub fn new() -> (r: Self)
        ensures
            r@ == (GopReceiverView { current: None, last_codec_gen: 0, last_config_gen: 0 }),
    {
        GopReceiver { gop: None, last_codec_gen: 0, last_config_gen: 0 }
    }

    /// Whether a GOP is followed yet.
    pub fn following(&self) -> (b: bool)
        ensures
            b == self@.current is Some,
    {
        self.gop.is_some()
    }

    /// The numbers opening a new stream arrived. Returns whether the stream
    /// is followed from now on, in place of the stream followed so far.
    pub fn on_stream_ids(&mut self, gop: Gop) -> (follow: bool)
        ensures
            follow == follows(old(self)@, gop),
            final(self)@ == if follow {
                GopReceiverView { current: Some(gop), ..old(self)@ }
            } else {
                old(self)@
            },
    {
        let follow = match &self.gop {
            Some(prev) => gop.id > prev.id,
            None => true,
        };
        if follow {
            self.gop = Some(gop);
        }
        follow
    }

    /// A packet read from the stream of GOP `gop_id`: what to hand out, as
    /// `gop_receive` says.
    pub fn on_packet(&mut self, packet: AVPacket, gop_id: u32) -> (r: Option<AVPacket>)
        requires
            old(self)@.current is Some,
            !(packet is Hole),
        ensures
            (final(self)@, r) == gop_receive(old(self)@, packet, gop_id),
    {
        let g = match &self.gop {
            Some(g) => *g,
            None => Gop { id: 0, codec_gen: 0, config_gen: 0 },
        };
        if gop_id != g.id {
            return None;
        }
        match &packet {
            AVPacket::Codec(_) => {
                if g.codec_gen == self.last_codec_gen {
                    return None;
                }
                self.last_codec_gen = g.codec_gen;
            },
            AVPacket::Media(m) => {
                if m.header.is_config {
                    if g.config_gen == self.last_config_gen {
                        return None;
                    }
                    self.last_config_gen = g.config_gen;
                }
            },
            AVPacket::Hole(_) => {
                return None;
            },
        }
        Some(packet)
    }
}

/// The codec packet of a generation is handed out at most once: once one
/// is handed out, the next codec packet of the same GOP is dropped.
pub proof fn lemma_codec_handed_out_once(
    v: GopReceiverView,
    first: CodecPacket,
    second: CodecPacket,
    gop_id: u32,
)
    requires
        v.current is Some,
    ensures
        gop_receive(v, AVPacket::Codec(first), gop_id).1 is Some ==> gop_receive(
            gop_receive(v, AVPacket::Codec(first), gop_id).0,
            AVPacket::Codec(second),
            gop_id,
        ).1 is None,
{
}

/// The configuration packet of a generation is handed out at most once:
/// once one is handed out, the next configuration packet of the same GOP
/// is dropped.
pub proof fn lemma_config_handed_out_once(
    v: GopReceiverView,
    first: MediaPacket,
    second: MediaPacket,
    gop_id: u32,
)
    requires
        v.current is Some,
        first.header.is_config,
        second.header.is_config,
    ensures
        gop_receive(v, AVPacket::Media(first), gop_id).1 is Some ==> gop_receive(
            gop_receive(v, AVPacket::Media(first), gop_id).0,
            AVPacket::Media(second),
            gop_id,
        ).1 is None,
{
}

/// The GOP followed only ever gets newer.
pub proof fn lemma_followed_gop_grows(v: GopReceiverView, gop: Gop)
    requires
        v.current is Some,
    ensures
        follows(v, gop) ==> gop.id > v.current->0.id,
{
}

} // verus!
