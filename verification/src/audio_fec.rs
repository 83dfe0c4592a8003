//! Receive side of the unreliable-FEC audio protocol: configuration
//! packets arrive on a reliable stream, media packets as RaptorQ symbols in
//! datagrams. Symbols are reassembled per packet and packets are handed out
//! in sequence order, waiting a bounded time for a missing one.
use crate::av::{AVPacket, HolePacket, HolePacketHeader, HEADER_SIZE};
use crate::error::ProtocolError;
use crate::fec::{
    check_pending, early_eof_message, invalid, invalid_message, lemma_audio_reservation_bound,
media_object_problem, oti_problem, parse_datagram, pending_admits, pending_limit,
    read_stream_packet, reservation, reservation_of, stream_packet_read, validate_oti, ObjectDecoder, Oti, PayloadId,
    MAX_AUDIO_PAYLOAD, MAX_PENDING_OBJECTS,
};
use crate::seq::{in_window, unroll_fits, Sequencer};
use crate::serial::{append_bytes, av_record, writable_av};
use crate::wire::{be16, be32, be32_value, be_bytes_u16, be_bytes_u32, read_be_u32};
use crate::fec::{
    datagram_problem, decode_problem, decoded_object, media_packet_of, oti_of, opt_bytes,
    payload_id_of, reassembly_completion, reassembly_problem, symbol_key, zero_counts,
};
use vstd::prelude::*;

verus! {

/// Datagram header: endpoint id (2 bytes), packet sequence number (4),
/// RaptorQ transmission information (12) and payload id (4).
pub const DATAGRAM_HEADER_SIZE: usize = 22;

/// How long to wait for a missing packet, in microseconds, counted from the
/// oldest reassembled packet still pending.
pub const MAX_BUFFERING_MICROS: u64 = 10_000;

/// Largest instant (in microseconds) the receiver accepts, so that adding the
/// buffering delay never overflows.
pub const INSTANT_LIMIT: u64 = 0x7FFF_FFFF_FFFF_FFFF;

/// A packet that arrived on the reliable stream, with its unrolled sequence
/// number.
#[derive(Clone, Debug)]
pub struct StreamPacket {
    pub packet: AVPacket,
    pub kypacket_seq: u64,
}

/// A packet reassembled from datagrams, with the instant it was completed.
#[derive(Clone, Debug)]
pub struct DatagramPacket {
    pub oti: Oti,
    pub packet: AVPacket,
    pub kypacket_seq: u64,
    pub instant: u64,
}

/// The configuration packet of the stream: not received yet, waiting to be
/// handed out, or handed out.
#[derive(Clone, Debug)]
pub enum ConfigPacket {
    NotReceived,
    Ready(StreamPacket),
    Sent,
}

impl ConfigPacket {
    pub fn is_ready(&self) -> (b: bool)
        ensures
            b == self is Ready,
    {
        match self {
            ConfigPacket::Ready(_) => true,
            _ => false,
        }
    }

    pub fn is_none(&self) -> (b: bool)
        ensures
            b == self is NotReceived,
    {
        match self {
            ConfigPacket::NotReceived => true,
            _ => false,
        }
    }

    pub fn is_sent(&self) -> (b: bool)
        ensures
            b == self is Sent,
    {
        match self {
            ConfigPacket::Sent => true,
            _ => false,
        }
    }

    /// Takes the ready packet out, leaving the state `Sent`.
    pub fn consume(&mut self) -> (p: StreamPacket)
        requires
            *old(self) is Ready,
        ensures
            *final(self) == ConfigPacket::Sent,
            *old(self) == ConfigPacket::Ready(p),
    {
        let mut ready_state = ConfigPacket::Sent;
        std::mem::swap(self, &mut ready_state);
        match ready_state {
            ConfigPacket::Ready(packet) => packet,
            _ => StreamPacket {
                packet: AVPacket::Hole(
                    HolePacket { header: HolePacketHeader { missing_audio_samples: 0 } },
                ),
                kypacket_seq: 0,
            },
        }
    }
}

/// What to do next: nothing to hand out, a packet to hand out (the pending
/// configuration packet or the oldest reassembled one), or wait until an
/// instant.
#[derive(Clone, Copy, Debug, PartialEq, Eq, Structural)]
pub enum NextPacket {
    Nothing,
    Ready(PacketRef),
    Deadline(u64),
}

#[derive(Clone, Copy, Debug, PartialEq, Eq, Structural)]
pub struct PacketRef {
    pub config_packet: bool,
}

/// The outcome of one step: a packet with its sequence number, an instant to
/// wait for, or nothing.
#[derive(Clone, Debug)]
pub enum Action {
    Packet { kypacket_seq: u64, packet: AVPacket },
    Deadline(u64),
    Idle,
}

/// The symbols of one packet still being reassembled.
pub struct DatagramSegments {
    kypacket_seq: u64,
    decoder: ObjectDecoder,
    assembled: Option<Vec<u8>>,
}

impl DatagramSegments {
    pub closed spec fn seq(&self) -> u64 {
        self.kypacket_seq
    }

    pub closed spec fn spec_oti(&self) -> Oti {
        self.decoder.spec_oti()
    }

    pub closed spec fn complete(&self) -> bool {
        self.assembled is Some
    }

    /// The symbols fed so far, by key.
    pub closed spec fn received_keys(&self) -> Set<u64> {
        self.decoder.received_keys()
    }

    /// The distinct symbols fed so far, per source block.
    pub closed spec fn block_counts(&self) -> Seq<u32> {
        self.decoder.block_counts()
    }

    /// The symbols handed to the decoder so far, in order.
    pub closed spec fn fed(&self) -> Seq<(PayloadId, Seq<u8>)> {
        self.decoder.fed()
    }

    /// The bytes of the packet, once the decoder has returned them.
    pub closed spec fn assembled_bytes(&self) -> Option<Seq<u8>> {
        opt_bytes(self.assembled)
    }

    /// A well-formed, still incomplete packet of audio symbols.
    pub closed spec fn wf(&self) -> bool {
        &&& self.decoder.wf()
        &&& oti_problem(self.decoder.spec_oti(), MAX_AUDIO_PAYLOAD as int) is None
    }

    pub fn new(kypacket_seq: u64, oti: Oti) -> (r: Result<Self, ProtocolError>)
        ensures
            match r {
                Ok(s) => s.wf() && !s.complete() && s.seq() == kypacket_seq && s.spec_oti() == oti
                    && s.received_keys() == Set::<u64>::empty() && s.block_counts() == zero_counts(
                    oti,
                ) && s.fed() == Seq::<(PayloadId, Seq<u8>)>::empty(),
                Err(e) => oti_problem(oti, MAX_AUDIO_PAYLOAD as int) matches Some(reason) && e.0@
                    == invalid_message(reason),
            },
    {
        match ObjectDecoder::new(oti, MAX_AUDIO_PAYLOAD) {
            Ok(decoder) => Ok(DatagramSegments { kypacket_seq, decoder, assembled: None }),
            Err(e) => Err(e),
        }
    }

    /// Feeds one symbol; the packet is complete once the decoder returns it.
    pub fn add_packet(&mut self, oti: Oti, payload_id: PayloadId, data: Vec<u8>) -> (r: Result<
        (),
        ProtocolError,
    >)
        requires
            old(self).wf(),
            payload_id.encoding_symbol_id < 0x100_0000,
        ensures
            final(self).wf(),
            final(self).seq() == old(self).seq(),
            final(self).spec_oti() == old(self).spec_oti(),
            r is Err ==> final(self).complete() == old(self).complete(),
            oti != old(self).spec_oti() ==> r is Err,
            match decode_problem(
                old(self).spec_oti(),
                old(self).received_keys(),
                old(self).block_counts(),
                oti,
                payload_id,
                data@.len() as int,
            ) {
                Some(reason) => (r matches Err(e) && e.0@ == invalid_message(reason))
                    && *final(self) == *old(self),
                None => {
                    &&& r is Ok
                    &&& final(self).seq() == old(self).seq()
                    &&& old(self).received_keys().contains(symbol_key(payload_id))
                        ==> final(self).assembled_bytes() is None
                        && final(self).received_keys() == old(self).received_keys()
                        && final(self).fed() == old(self).fed()
                    &&& !old(self).received_keys().contains(symbol_key(payload_id))
                        ==> final(self).received_keys()
                        == old(self).received_keys().insert(symbol_key(payload_id))
                        && final(self).fed() == old(self).fed().push((payload_id, data@))
                        && final(self).assembled_bytes() == decoded_object(oti, final(self).fed())
                },
            },
    {
        match self.decoder.decode(oti, payload_id, data) {
            Ok(assembled) => {
                self.assembled = assembled;
                Ok(())
            },
            Err(e) => Err(e),
        }
    }

    pub fn is_complete(&self) -> (b: bool)
        ensures
            b == self.complete(),
    {
        self.assembled.is_some()
    }

    /// The reassembled packet, completed at `now`: it must be a media packet
    /// whose header agrees with its length.
    pub fn assemble(self, now: u64) -> (r: Result<DatagramPacket, ProtocolError>)
        requires
            self.wf(),
        ensures
            !self.complete() ==> (r matches Err(e) && e.0@ == invalid_message(
                "incomplete audio object"@,
            )),
            r matches Ok(d) ==> d.oti == self.spec_oti() && d.kypacket_seq == self.seq()
                && d.instant == now && d.packet is Media,
            match self.assembled_bytes() {
                None => r is Err,
                Some(data) => match media_object_problem(data) {
                    Some(reason) => r matches Err(e) && e.0@ == invalid_message(reason),
                    None => r matches Ok(d) && media_packet_of(d.packet, data),
                },
            },
    {
        let oti = self.decoder.oti();
        match self.assembled {
            None => Err(invalid("incomplete audio object")),
            Some(data) => match crate::fec::media_packet(data) {
                Ok(packet) => Ok(
                    DatagramPacket { oti, packet, kypacket_seq: self.kypacket_seq, instant: now },
                ),
                Err(e) => Err(e),
            },
        }
    }
}

/// The sequence numbers of reassembled packets, in storage order.
pub open spec fn datagram_seqs(s: Seq<DatagramPacket>) -> Seq<u64> {
    s.map_values(|d: DatagramPacket| d.kypacket_seq)
}

/// Why feeding a symbol of packet `seq` to the reassemblies `segments`
/// fails, if it does. The packet's reassembly is the one under way, or else
/// a new one, which needs valid transmission information and room in the
/// receive budget (`admits`).
pub open spec fn segments_problem(
    segments: Seq<DatagramSegments>,
    seq: u64,
    oti: Oti,
    id: PayloadId,
    data: Seq<u8>,
    admits: bool,
) -> Option<Seq<char>> {
    if segment_seqs(segments).contains(seq) {
        let s = segments[segment_seqs(segments).index_of(seq)];
        reassembly_problem(s.spec_oti(), s.received_keys(), s.block_counts(), s.fed(), oti, id, data)
    } else if oti_problem(oti, MAX_AUDIO_PAYLOAD as int) is Some {
        oti_problem(oti, MAX_AUDIO_PAYLOAD as int)
    } else if !admits {
        Some("pending receive budget exceeded"@)
    } else {
        reassembly_problem(oti, Set::empty(), zero_counts(oti), Seq::empty(), oti, id, data)
    }
}

/// The bytes of the media packet that a symbol of packet `seq` completes in
/// the reassemblies `segments`, if it completes one.
pub open spec fn segments_completion(
    segments: Seq<DatagramSegments>,
    seq: u64,
    oti: Oti,
    id: PayloadId,
    data: Seq<u8>,
    admits: bool,
) -> Option<Seq<u8>> {
    if segment_seqs(segments).contains(seq) {
        let s = segments[segment_seqs(segments).index_of(seq)];
        reassembly_completion(
            s.spec_oti(),
            s.received_keys(),
            s.block_counts(),
            s.fed(),
            oti,
            id,
            data,
        )
    } else if oti_problem(oti, MAX_AUDIO_PAYLOAD as int) is Some || !admits {
        None
    } else {
        reassembly_completion(oti, Set::empty(), zero_counts(oti), Seq::empty(), oti, id, data)
    }
}

/// The reassembled packets after a symbol of packet `seq`, received at
/// `now`, completed the media packet `completion` (or none).
pub open spec fn filed(
    before: Seq<DatagramPacket>,
    after: Seq<DatagramPacket>,
    completion: Option<Seq<u8>>,
    seq: u64,
    oti: Oti,
    now: u64,
) -> bool {
    match completion {
        None => after == before,
        Some(bytes) => exists|i: int, d: DatagramPacket|
            0 <= i <= before.len() && after == before.insert(i, d) && d.kypacket_seq == seq && d.oti
                == oti && d.instant == now && media_packet_of(d.packet, bytes),
    }
}

/// Where the sequence numbers increase, a packet's number gives its
/// position.
proof fn lemma_segment_position(s: Seq<DatagramSegments>, i: int)
    requires
        strictly_increasing(segment_seqs(s)),
        0 <= i < s.len(),
    ensures
        segment_seqs(s).contains(s[i].seq()),
        segment_seqs(s).index_of(s[i].seq()) == i,
{
    let q = segment_seqs(s);
    assert(q[i] == s[i].seq());
    let k = q.index_of(s[i].seq());
    assert(q[k] == s[i].seq());
}

/// The sequence numbers of packets being reassembled, in storage order.
pub open spec fn segment_seqs(s: Seq<DatagramSegments>) -> Seq<u64> {
    s.map_values(|d: DatagramSegments| d.seq())
}

pub open spec fn strictly_increasing(s: Seq<u64>) -> bool {
    forall|i: int, j: int| 0 <= i < j < s.len() ==> s[i] < s[j]
}

/// Bytes reserved by the packets being reassembled.
pub open spec fn segment_reservations(s: Seq<DatagramSegments>) -> int
    decreases s.len(),
{
    if s.len() == 0 {
        0
    } else {
        segment_reservations(s.drop_last()) + reservation_of(s.last().spec_oti())
    }
}

/// Bytes reserved by the reassembled packets.
pub open spec fn datagram_reservations(s: Seq<DatagramPacket>) -> int
    decreases s.len(),
{
    if s.len() == 0 {
        0
    } else {
        datagram_reservations(s.drop_last()) + reservation_of(s.last().oti)
    }
}

/// The earliest completion instant of the reassembled packets.
pub open spec fn min_instant_of(s: Seq<DatagramPacket>) -> u64
    decreases s.len(),
{
    if s.len() <= 1 {
        s[0].instant
    } else {
        let m = min_instant_of(s.drop_last());
        if s.last().instant < m {
            s.last().instant
        } else {
            m
        }
    }
}

/// The objects and bytes that the configuration packet holds while it waits.
pub open spec fn config_objects(c: ConfigPacket) -> int {
    match c {
        ConfigPacket::Ready(p) => match p.packet {
            AVPacket::Media(_) => 1,
            _ => 0,
        },
        _ => 0,
    }
}

pub open spec fn config_bytes(c: ConfigPacket) -> int {
    match c {
        ConfigPacket::Ready(p) => match p.packet {
            AVPacket::Media(m) => m.payload@.len() as int,
            _ => 0,
        },
        _ => 0,
    }
}

/// What to hand out next, with `next` the expected sequence number: nothing
/// before the configuration packet has arrived; the configuration packet if
/// it is the expected one; otherwise the oldest reassembled packet (preceded
/// by the configuration packet if still waiting) once it is the expected one
/// or once the buffering delay after the earliest completion has passed.
pub open spec fn next_packet_of(
    config: ConfigPacket,
    datagrams: Seq<DatagramPacket>,
    next: u64,
    now: u64,
) -> NextPacket {
    if config is NotReceived {
        NextPacket::Nothing
    } else if config matches ConfigPacket::Ready(p) && p.kypacket_seq == next {
        NextPacket::Ready(PacketRef { config_packet: true })
    } else if datagrams.len() == 0 {
        NextPacket::Nothing
    } else if datagrams[0].kypacket_seq == next {
        NextPacket::Ready(PacketRef { config_packet: config is Ready })
    } else {
        let deadline = (min_instant_of(datagrams) + MAX_BUFFERING_MICROS) as u64;
        if deadline <= now {
            NextPacket::Ready(PacketRef { config_packet: config is Ready })
        } else {
            NextPacket::Deadline(deadline)
        }
    }
}

/// The pending packets of the audio stream.
pub struct PendingGroup {
    config_packet: ConfigPacket,
    datagrams: Vec<DatagramPacket>,
    segments: Vec<DatagramSegments>,
}

proof fn lemma_segment_reservations_bound(s: Seq<DatagramSegments>)
    requires
        forall|i: int| 0 <= i < s.len() ==> #[trigger] s[i].wf(),
    ensures
        0 <= segment_reservations(s) <= s.len() * 10_000_000,
    decreases s.len(),
{
    if s.len() > 0 {
        assert forall|i: int| 0 <= i < s.drop_last().len() implies #[trigger] s.drop_last()[i].wf() by {
            assert(s.drop_last()[i] == s[i]);
        }
        lemma_segment_reservations_bound(s.drop_last());
        assert(s[s.len() - 1].wf());
        lemma_audio_reservation_bound(s.last().spec_oti());
    }
}

/// Each reassembled packet reserves at most ten million bytes of the budget.
pub proof fn lemma_datagram_reservations_bound(s: Seq<DatagramPacket>)
    requires
        forall|i: int|
            0 <= i < s.len() ==> oti_problem(#[trigger] s[i].oti, MAX_AUDIO_PAYLOAD as int) is None,
    ensures
        0 <= datagram_reservations(s) <= s.len() * 10_000_000,
    decreases s.len(),
{
    if s.len() > 0 {
        assert forall|i: int| 0 <= i < s.drop_last().len() implies oti_problem(
            #[trigger] s.drop_last()[i].oti,
            MAX_AUDIO_PAYLOAD as int,
        ) is None by {
            assert(s.drop_last()[i] == s[i]);
        }
        lemma_datagram_reservations_bound(s.drop_last());
        assert(oti_problem(s[s.len() - 1].oti, MAX_AUDIO_PAYLOAD as int) is None);
        lemma_audio_reservation_bound(s.last().oti);
    }
}

impl PendingGroup {
    pub closed spec fn config(&self) -> ConfigPacket {
        self.config_packet
    }

    pub closed spec fn datagrams(&self) -> Seq<DatagramPacket> {
        self.datagrams@
    }

    pub closed spec fn segments(&self) -> Seq<DatagramSegments> {
        self.segments@
    }

    /// The pending objects, as counted against the receive budget.
    pub open spec fn objects(&self) -> int {
        self.segments().len() + self.datagrams().len() + config_objects(self.config())
    }

    /// The pending bytes, as counted against the receive budget.
    pub open spec fn pending_bytes(&self) -> int {
        segment_reservations(self.segments()) + datagram_reservations(self.datagrams())
            + config_bytes(self.config())
    }

    pub closed spec fn wf(&self) -> bool {
        &&& strictly_increasing(datagram_seqs(self.datagrams@))
        &&& strictly_increasing(segment_seqs(self.segments@))
        &&& forall|i: int| 0 <= i < self.segments@.len() ==> #[trigger] self.segments@[i].wf()
        &&& forall|i: int|
            0 <= i < self.datagrams@.len() ==> oti_problem(
                #[trigger] self.datagrams@[i].oti,
                MAX_AUDIO_PAYLOAD as int,
            ) is None && self.datagrams@[i].instant <= INSTANT_LIMIT
        &&& self.objects() <= MAX_PENDING_OBJECTS
        &&& self.pending_bytes() <= pending_limit(MAX_AUDIO_PAYLOAD as int)
        &&& config_bytes(self.config_packet) <= 0x80_0000
        &&& (self.config_packet matches ConfigPacket::Ready(p) ==> p.packet is Media)
    }

    pub fn new() -> (g: Self)
        ensures
            g.wf(),
            g.config() is NotReceived,
            g.datagrams().len() == 0,
            g.segments().len() == 0,
    {
        let g = PendingGroup {
            config_packet: ConfigPacket::NotReceived,
            datagrams: Vec::new(),
            segments: Vec::new(),
        };
        assert(datagram_seqs(g.datagrams@) =~= Seq::<u64>::empty());
        assert(segment_seqs(g.segments@) =~= Seq::<u64>::empty());
        g
    }

    proof fn lemma_bytes_bound(&self)
        requires
            self.wf(),
        ensures
            0 <= segment_reservations(self.segments@) <= 1_280_000_000,
            0 <= datagram_reservations(self.datagrams@) <= 1_280_000_000,
            0 <= self.pending_bytes() <= 2_570_000_000,
    {
        lemma_segment_reservations_bound(self.segments@);
        lemma_datagram_reservations_bound(self.datagrams@);
        assert(self.segments@.len() * 10_000_000 <= 128 * 10_000_000) by (nonlinear_arith)
            requires
                self.segments@.len() <= 128;
        assert(self.datagrams@.len() * 10_000_000 <= 128 * 10_000_000) by (nonlinear_arith)
            requires
                self.datagrams@.len() <= 128;
    }

    /// Whether one more object of `additional` bytes fits in the receive
    /// budget.
    pub fn check_capacity(&self, additional: usize) -> (r: Result<(), ProtocolError>)
        requires
            self.wf(),
        ensures
            r is Ok <==> pending_admits(
                self.objects(),
                self.pending_bytes(),
                additional as int,
                MAX_AUDIO_PAYLOAD as int,
            ),
            r matches Err(e) ==> e.0@ == invalid_message("pending receive budget exceeded"@),
    {
        proof {
            self.lemma_bytes_bound();
        }
        let mut objects = self.segments.len() + self.datagrams.len();
        let mut bytes: usize = 0;
        let mut i: usize = 0;
        while i < self.segments.len()
            invariant
                self.wf(),
                i <= self.segments@.len(),
                bytes == segment_reservations(self.segments@.subrange(0, i as int)),
                0 <= segment_reservations(self.segments@) <= 1_280_000_000,
            decreases self.segments@.len() - i,
        {
            assert(self.segments@.subrange(0, i + 1).drop_last() =~= self.segments@.subrange(
                0,
                i as int,
            ));
            assert(self.segments@[i as int].wf());
            proof {
                lemma_audio_reservation_bound(self.segments@[i as int].spec_oti());
                let t = self.segments@.subrange(0, i + 1);
                assert forall|j: int| 0 <= j < t.len() implies #[trigger] t[j].wf() by {
                    assert(t[j] == self.segments@[j]);
                }
                lemma_segment_reservations_bound(t);
                assert(t.len() * 10_000_000 <= 128 * 10_000_000) by (nonlinear_arith)
                    requires
                        t.len() <= 128;
            }
            bytes = bytes + reservation(&self.segments[i].decoder.oti());
            i = i + 1;
        }
        assert(self.segments@.subrange(0, self.segments@.len() as int) =~= self.segments@);
        let mut j: usize = 0;
        while j < self.datagrams.len()
            invariant
                self.wf(),
                j <= self.datagrams@.len(),
                bytes == segment_reservations(self.segments@) + datagram_reservations(
                    self.datagrams@.subrange(0, j as int),
                ),
                0 <= segment_reservations(self.segments@) <= 1_280_000_000,
            decreases self.datagrams@.len() - j,
        {
            assert(self.datagrams@.subrange(0, j + 1).drop_last() =~= self.datagrams@.subrange(
                0,
                j as int,
            ));
            proof {
                assert(oti_problem(self.datagrams@[j as int].oti, MAX_AUDIO_PAYLOAD as int) is None);
                lemma_audio_reservation_bound(self.datagrams@[j as int].oti);
                let t = self.datagrams@.subrange(0, j + 1);
                assert forall|k: int| 0 <= k < t.len() implies oti_problem(
                    #[trigger] t[k].oti,
                    MAX_AUDIO_PAYLOAD as int,
                ) is None by {
                    assert(t[k] == self.datagrams@[k]);
                }
                lemma_datagram_reservations_bound(t);
                assert(t.len() * 10_000_000 <= 128 * 10_000_000) by (nonlinear_arith)
                    requires
                        t.len() <= 128;
            }
            bytes = bytes + reservation(&self.datagrams[j].oti);
            j = j + 1;
        }
        assert(self.datagrams@.subrange(0, self.datagrams@.len() as int) =~= self.datagrams@);
        match &self.config_packet {
            ConfigPacket::Ready(p) => match &p.packet {
                AVPacket::Media(media) => {
                    objects = objects + 1;
                    bytes = bytes + media.payload.len();
                },
                _ => {},
            },
            _ => {},
        }
        check_pending(objects, bytes, additional, MAX_AUDIO_PAYLOAD)
    }
}


/// Where `key` stands in the strictly increasing `s`: found at an index, or
/// the index at which inserting it keeps `s` increasing.
pub open spec fn search_result(s: Seq<u64>, key: u64, r: Result<usize, usize>) -> bool {
    match r {
        Ok(i) => i < s.len() && s[i as int] == key,
        Err(i) => i <= s.len() && (forall|j: int| 0 <= j < i ==> s[j] < key) && (forall|j: int|
            i <= j < s.len() ==> s[j] > key),
    }
}

proof fn lemma_segment_reservations_remove(s: Seq<DatagramSegments>, i: int)
    requires
        0 <= i < s.len(),
    ensures
        segment_reservations(s) == segment_reservations(s.remove(i)) + reservation_of(
            s[i].spec_oti(),
        ),
    decreases s.len(),
{
    if i == s.len() - 1 {
        assert(s.remove(i) =~= s.drop_last());
    } else {
        lemma_segment_reservations_remove(s.drop_last(), i);
        assert(s.remove(i).drop_last() =~= s.drop_last().remove(i));
        assert(s.remove(i).last() == s.last());
    }
}

proof fn lemma_segment_reservations_insert(s: Seq<DatagramSegments>, i: int, x: DatagramSegments)
    requires
        0 <= i <= s.len(),
    ensures
        segment_reservations(s.insert(i, x)) == segment_reservations(s) + reservation_of(
            x.spec_oti(),
        ),
{
    lemma_segment_reservations_remove(s.insert(i, x), i);
    assert(s.insert(i, x).remove(i) =~= s);
}

proof fn lemma_segment_reservations_update(s: Seq<DatagramSegments>, i: int, x: DatagramSegments)
    requires
        0 <= i < s.len(),
        x.spec_oti() == s[i].spec_oti(),
    ensures
        segment_reservations(s.update(i, x)) == segment_reservations(s),
{
    lemma_segment_reservations_remove(s.update(i, x), i);
    lemma_segment_reservations_remove(s, i);
    assert(s.update(i, x).remove(i) =~= s.remove(i));
}

/// Removing a packet frees exactly its reservation.
pub proof fn lemma_datagram_reservations_remove(s: Seq<DatagramPacket>, i: int)
    requires
        0 <= i < s.len(),
    ensures
        datagram_reservations(s) == datagram_reservations(s.remove(i)) + reservation_of(s[i].oti),
    decreases s.len(),
{
    if i == s.len() - 1 {
        assert(s.remove(i) =~= s.drop_last());
    } else {
        lemma_datagram_reservations_remove(s.drop_last(), i);
        assert(s.remove(i).drop_last() =~= s.drop_last().remove(i));
        assert(s.remove(i).last() == s.last());
    }
}

/// Inserting a packet adds exactly its reservation.
pub proof fn lemma_datagram_reservations_insert(s: Seq<DatagramPacket>, i: int, x: DatagramPacket)
    requires
        0 <= i <= s.len(),
    ensures
        datagram_reservations(s.insert(i, x)) == datagram_reservations(s) + reservation_of(x.oti),
{
    lemma_datagram_reservations_remove(s.insert(i, x), i);
    assert(s.insert(i, x).remove(i) =~= s);
}

/// The segment sequence numbers stay increasing when one is removed.
pub proof fn lemma_increasing_remove(s: Seq<u64>, i: int)
    requires
        strictly_increasing(s),
        0 <= i < s.len(),
    ensures
        strictly_increasing(s.remove(i)),
{
    assert forall|a: int, b: int| 0 <= a < b < s.remove(i).len() implies s.remove(i)[a] < s.remove(
        i,
    )[b] by {
        let a2 = if a < i { a } else { a + 1 };
        let b2 = if b < i { b } else { b + 1 };
        assert(s.remove(i)[a] == s[a2]);
        assert(s.remove(i)[b] == s[b2]);
    }
}

/// Inserting at the search position keeps a sequence increasing.
pub proof fn lemma_increasing_insert(s: Seq<u64>, i: usize, key: u64)
    requires
        strictly_increasing(s),
        search_result(s, key, Err(i)),
    ensures
        strictly_increasing(s.insert(i as int, key)),
{
    let t = s.insert(i as int, key);
    assert(t[i as int] == key);
    assert forall|a: int, b: int| 0 <= a < b < t.len() implies t[a] < t[b] by {
        if a < i {
            assert(t[a] == s[a]);
        } else if a > i {
            assert(t[a] == s[a - 1]);
        }
        if b < i {
            assert(t[b] == s[b]);
        } else if b > i {
            assert(t[b] == s[b - 1]);
        }
    }
}

impl PendingGroup {
    /// The position of the reassembled packet `seq`.
    fn find_datagram(&self, seq: u64) -> (r: Result<usize, usize>)
        requires
            strictly_increasing(datagram_seqs(self.datagrams@)),
        ensures
            search_result(datagram_seqs(self.datagrams@), seq, r),
    {
        let mut i: usize = 0;
        while i < self.datagrams.len()
            invariant
                i <= self.datagrams@.len(),
                forall|j: int| 0 <= j < i ==> datagram_seqs(self.datagrams@)[j] < seq,
                strictly_increasing(datagram_seqs(self.datagrams@)),
            decreases self.datagrams@.len() - i,
        {
            let s = self.datagrams[i].kypacket_seq;
            if s == seq {
                return Ok(i);
            }
            if s > seq {
                assert forall|j: int| i <= j < self.datagrams@.len() implies datagram_seqs(
                    self.datagrams@,
                )[j] > seq by {
                    if j > i {
                        assert(datagram_seqs(self.datagrams@)[i as int] < datagram_seqs(
                            self.datagrams@,
                        )[j]);
                    }
                }
                return Err(i);
            }
            i = i + 1;
        }
        Err(i)
    }

    /// The position of the packet `seq` being reassembled.
    fn find_segments(&self, seq: u64) -> (r: Result<usize, usize>)
        requires
            strictly_increasing(segment_seqs(self.segments@)),
        ensures
            search_result(segment_seqs(self.segments@), seq, r),
    {
        let mut i: usize = 0;
        while i < self.segments.len()
            invariant
                i <= self.segments@.len(),
                forall|j: int| 0 <= j < i ==> segment_seqs(self.segments@)[j] < seq,
                strictly_increasing(segment_seqs(self.segments@)),
            decreases self.segments@.len() - i,
        {
            let s = self.segments[i].kypacket_seq;
            if s == seq {
                return Ok(i);
            }
            if s > seq {
                assert forall|j: int| i <= j < self.segments@.len() implies segment_seqs(
                    self.segments@,
                )[j] > seq by {
                    if j > i {
                        assert(segment_seqs(self.segments@)[i as int] < segment_seqs(
                            self.segments@,
                        )[j]);
                    }
                }
                return Err(i);
            }
            i = i + 1;
        }
        Err(i)
    }
}


/// Why a packet from the reliable stream is refused, if it is: it must be the
/// first configuration packet, and it must fit in the receive budget.
pub open spec fn config_problem(config: ConfigPacket, objects: int, bytes: int, packet: AVPacket) -> Option<
    Seq<char>,
> {
    match packet {
        AVPacket::Media(m) => if !m.header.is_config || !(config is NotReceived) {
            Some("invalid or duplicate audio config"@)
        } else if !pending_admits(objects, bytes, m.payload@.len() as int, MAX_AUDIO_PAYLOAD as int) {
            Some("pending receive budget exceeded"@)
        } else {
            None
        },
        _ => Some("expected audio config"@),
    }
}

/// The segments left once those of packets before `until` are dropped.
pub open spec fn segments_from(s: Seq<DatagramSegments>, until: u64, rest: Seq<DatagramSegments>) -> bool {
    exists|k: int|
        0 <= k <= s.len() && rest == s.subrange(k, s.len() as int) && (forall|j: int|
            0 <= j < k ==> #[trigger] segment_seqs(s)[j] < until) && (forall|j: int|
            k <= j < s.len() ==> #[trigger] segment_seqs(s)[j] >= until)
}

impl PendingGroup {
    /// Accepts the configuration packet from the reliable stream.
    pub fn insert_stream_packet(&mut self, kypacket_seq: u64, packet: AVPacket) -> (r: Result<
        (),
        ProtocolError,
    >)
        requires
            old(self).wf(),
        ensures
            final(self).wf(),
            final(self).datagrams() == old(self).datagrams(),
            final(self).segments() == old(self).segments(),
            match config_problem(
                old(self).config(),
                old(self).objects(),
                old(self).pending_bytes(),
                packet,
            ) {
                None => r is Ok && final(self).config() == ConfigPacket::Ready(
                    StreamPacket { packet, kypacket_seq },
                ),
                Some(reason) => (r matches Err(e) && e.0@ == invalid_message(reason)) && final(self).config() == old(self).config(),
            },
    {
        let size = match &packet {
            AVPacket::Media(media) => {
                if !media.header.is_config || !self.config_packet.is_none() {
                    return Err(invalid("invalid or duplicate audio config"));
                }
                media.payload.len()
            },
            _ => {
                return Err(invalid("expected audio config"));
            },
        };
        match self.check_capacity(size) {
            Ok(()) => {},
            Err(e) => {
                return Err(e);
            },
        }
        self.config_packet = ConfigPacket::Ready(StreamPacket { packet, kypacket_seq });
        Ok(())
    }

    /// Files a reassembled packet in sequence order; a packet already filed
    /// is ignored.
    fn insert_datagram_packet(&mut self, packet: DatagramPacket)
        requires
            old(self).wf(),
            oti_problem(packet.oti, MAX_AUDIO_PAYLOAD as int) is None,
            packet.instant <= INSTANT_LIMIT,
            old(self).objects() < MAX_PENDING_OBJECTS,
            old(self).pending_bytes() + reservation_of(packet.oti) <= pending_limit(
                MAX_AUDIO_PAYLOAD as int,
            ),
        ensures
            final(self).wf(),
            final(self).config() == old(self).config(),
            final(self).segments() == old(self).segments(),
            datagram_seqs(old(self).datagrams()).contains(packet.kypacket_seq) ==> final(self).datagrams() == old(self).datagrams(),
            !datagram_seqs(old(self).datagrams()).contains(packet.kypacket_seq) ==> exists|i: int|
                0 <= i <= old(self).datagrams().len() && final(self).datagrams() == old(self).datagrams().insert(i, packet),
    {
        match self.find_datagram(packet.kypacket_seq) {
            Ok(i) => {
                assert(datagram_seqs(self.datagrams@)[i as int] == packet.kypacket_seq);
            },
            Err(i) => {
                let ghost before = self.datagrams@;
                proof {
                    lemma_datagram_reservations_insert(before, i as int, packet);
                    lemma_increasing_insert(datagram_seqs(before), i, packet.kypacket_seq);
                    assert(datagram_seqs(before.insert(i as int, packet)) =~= datagram_seqs(
                        before,
                    ).insert(i as int, packet.kypacket_seq));
                    if datagram_seqs(before).contains(packet.kypacket_seq) {
                        let j = datagram_seqs(before).index_of(packet.kypacket_seq);
                        assert(datagram_seqs(before)[j] == packet.kypacket_seq);
                    }
                }
                self.datagrams.insert(i, packet);
                proof {
                    assert forall|k: int| 0 <= k < self.datagrams@.len() implies oti_problem(
                        #[trigger] self.datagrams@[k].oti,
                        MAX_AUDIO_PAYLOAD as int,
                    ) is None && self.datagrams@[k].instant <= INSTANT_LIMIT by {
                        if k < i {
                            assert(self.datagrams@[k] == before[k]);
                        } else if k > i {
                            assert(self.datagrams@[k] == before[k - 1]);
                        }
                    }
                }
            },
        }
    }

    /// Drops the packets still being reassembled whose sequence number is
    /// before `until`.
    pub fn drop_expired_segments(&mut self, until: u64)
        requires
            old(self).wf(),
        ensures
            final(self).wf(),
            final(self).config() == old(self).config(),
            final(self).datagrams() == old(self).datagrams(),
            segments_from(old(self).segments(), until, final(self).segments()),
    {
        let ghost start = self.segments@;
        let ghost mut k: int = 0;
        while self.segments.len() > 0 && self.segments[0].kypacket_seq < until
            invariant
                self.wf(),
                0 <= k <= start.len(),
                self.segments@ == start.subrange(k, start.len() as int),
                self.config() == old(self).config(),
                self.datagrams() == old(self).datagrams(),
                forall|j: int| 0 <= j < k ==> #[trigger] segment_seqs(start)[j] < until,
                strictly_increasing(segment_seqs(start)),
            decreases self.segments@.len(),
        {
            let ghost before = self.segments@;
            proof {
                lemma_segment_reservations_remove(before, 0);
                lemma_increasing_remove(segment_seqs(before), 0);
                assert(before[0].wf());
                lemma_audio_reservation_bound(before[0].spec_oti());
                assert(segment_seqs(before.remove(0)) =~= segment_seqs(before).remove(0));
                assert(segment_seqs(start)[k] == before[0].seq());
            }
            self.segments.remove(0);
            proof {
                assert forall|j: int| 0 <= j < self.segments@.len() implies #[trigger] self.segments@[j].wf() by {
                    assert(self.segments@[j] == before[j + 1]);
                }
                k = k + 1;
                assert(self.segments@ =~= start.subrange(k, start.len() as int));

            }
        }
        proof {
            assert forall|j: int| k <= j < start.len() implies #[trigger] segment_seqs(start)[j] >= until by {
                if j > k {
                    assert(segment_seqs(start)[k] < segment_seqs(start)[j]);
                }
                assert(self.segments@[0] == start[k]);
            }
        }
    }

    /// The earliest completion instant of the reassembled packets.
    pub fn min_instant(&self) -> (m: Option<u64>)
        ensures
            self.datagrams().len() == 0 ==> m is None,
            self.datagrams().len() > 0 ==> m == Some(min_instant_of(self.datagrams())),
    {
        if self.datagrams.len() == 0 {
            return None;
        }
        let mut m = self.datagrams[0].instant;
        let mut i: usize = 1;
        assert(self.datagrams@.subrange(0, 1).len() == 1);
        while i < self.datagrams.len()
            invariant
                1 <= i <= self.datagrams@.len(),
                m == min_instant_of(self.datagrams@.subrange(0, i as int)),
            decreases self.datagrams@.len() - i,
        {
            proof {
                let t = self.datagrams@.subrange(0, i + 1);
                assert(t.drop_last() =~= self.datagrams@.subrange(0, i as int));
                assert(t.last() == self.datagrams@[i as int]);
            }
            if self.datagrams[i].instant < m {
                m = self.datagrams[i].instant;
            }
            i = i + 1;
        }
        assert(self.datagrams@.subrange(0, self.datagrams@.len() as int) =~= self.datagrams@);
        Some(m)
    }

    /// What to hand out next, given the expected sequence number `next` and
    /// the current instant `now`.
    pub fn next_packet(&self, next: u64, now: u64) -> (p: NextPacket)
        requires
            self.wf(),
        ensures
            p == next_packet_of(self.config(), self.datagrams(), next, now),
    {
        match &self.config_packet {
            ConfigPacket::NotReceived => {
                return NextPacket::Nothing;
            },
            ConfigPacket::Ready(p) => {
                if p.kypacket_seq == next {
                    return NextPacket::Ready(PacketRef { config_packet: true });
                }
            },
            ConfigPacket::Sent => {},
        }
        if self.datagrams.len() == 0 {
            return NextPacket::Nothing;
        }
        let ready = self.config_packet.is_ready();
        if self.datagrams[0].kypacket_seq == next {
            return NextPacket::Ready(PacketRef { config_packet: ready });
        }
        match self.min_instant() {
            Some(min) => {
                proof {
                    lemma_min_instant_member(self.datagrams@);
                }
                let deadline = min + MAX_BUFFERING_MICROS;
                if deadline <= now {
                    NextPacket::Ready(PacketRef { config_packet: ready })
                } else {
                    NextPacket::Deadline(deadline)
                }
            },
            None => NextPacket::Nothing,
        }
    }

    /// Takes out what `next_packet` designates: the configuration packet, or
    /// the oldest reassembled packet, dropping the reassembly of every packet
    /// before it.
    pub fn take_next_packet(&mut self, next: u64, now: u64) -> (a: Action)
        requires
            old(self).wf(),
        ensures
            final(self).wf(),
            match next_packet_of(old(self).config(), old(self).datagrams(), next, now) {
                NextPacket::Nothing => a is Idle && *final(self) == *old(self),
                NextPacket::Deadline(d) => a == Action::Deadline(d) && *final(self) == *old(self),
                NextPacket::Ready(r) => if r.config_packet {
                    old(self).config() matches ConfigPacket::Ready(p) && a == (Action::Packet {
                        kypacket_seq: p.kypacket_seq,
                        packet: p.packet,
                    }) && final(self).config() == ConfigPacket::Sent && final(self).datagrams()
                        == old(self).datagrams() && final(self).segments() == old(self).segments()
                } else {
                    let d = old(self).datagrams()[0];
                    &&& a == (Action::Packet { kypacket_seq: d.kypacket_seq, packet: d.packet })
                    &&& final(self).config() == old(self).config()
                    &&& final(self).datagrams() == old(self).datagrams().drop_first()
                    &&& segments_from(old(self).segments(), d.kypacket_seq, final(self).segments())
                },
            },
    {
        match self.next_packet(next, now) {
            NextPacket::Nothing => Action::Idle,
            NextPacket::Deadline(instant) => Action::Deadline(instant),
            NextPacket::Ready(packet_ref) => {
                if packet_ref.config_packet {
                    let config_packet = self.config_packet.consume();
                    Action::Packet {
                        kypacket_seq: config_packet.kypacket_seq,
                        packet: config_packet.packet,
                    }
                } else {
                    let ghost before = self.datagrams@;
                    proof {
                        lemma_datagram_reservations_remove(before, 0);
                        lemma_increasing_remove(datagram_seqs(before), 0);
                        assert(datagram_seqs(before.remove(0)) =~= datagram_seqs(before).remove(0));
                        assert(before.remove(0) =~= before.drop_first());
                    }
                    let datagram = self.datagrams.remove(0);
                    proof {
                        assert forall|k: int| 0 <= k < self.datagrams@.len() implies oti_problem(
                            #[trigger] self.datagrams@[k].oti,
                            MAX_AUDIO_PAYLOAD as int,
                        ) is None && self.datagrams@[k].instant <= INSTANT_LIMIT by {
                            assert(self.datagrams@[k] == before[k + 1]);
                        }
                    }
                    self.drop_expired_segments(datagram.kypacket_seq);
                    Action::Packet { kypacket_seq: datagram.kypacket_seq, packet: datagram.packet }
                }
            },
        }
    }
}

/// The earliest instant is that of one of the packets, and no later than any.
pub proof fn lemma_min_instant_member(s: Seq<DatagramPacket>)
    requires
        s.len() > 0,
    ensures
        exists|i: int| 0 <= i < s.len() && s[i].instant == min_instant_of(s),
        forall|i: int| 0 <= i < s.len() ==> min_instant_of(s) <= #[trigger] s[i].instant,
    decreases s.len(),
{
    if s.len() > 1 {
        lemma_min_instant_member(s.drop_last());
        let i0 = choose|i: int| 0 <= i < s.drop_last().len() && s.drop_last()[i].instant == min_instant_of(s.drop_last());
        assert(s[i0] == s.drop_last()[i0]);
        assert forall|i: int| 0 <= i < s.len() implies min_instant_of(s) <= #[trigger] s[i].instant by {
            if i < s.len() - 1 {
                assert(s[i] == s.drop_last()[i]);
            }
        }
    } else {
        assert(s[0].instant == min_instant_of(s));
    }
}


/// Replacing the segments of packet `seq` leaves those of other packets.
proof fn lemma_update_keeps_others(p: Seq<DatagramSegments>, i: int, y: DatagramSegments, seq: u64)
    requires
        0 <= i < p.len(),
        p[i].seq() == seq,
        y.seq() == seq,
    ensures
        forall|x: DatagramSegments|
            x.seq() != seq ==> (#[trigger] p.update(i, y).contains(x) <==> p.contains(x)),
{
    assert forall|x: DatagramSegments| x.seq() != seq implies (#[trigger] p.update(i, y).contains(
        x,
    ) <==> p.contains(x)) by {
        if p.update(i, y).contains(x) {
            let k = p.update(i, y).index_of(x);
            assert(k != i);
            assert(p[k] == x);
        }
        if p.contains(x) {
            let k = p.index_of(x);
            assert(k != i);
            assert(p.update(i, y)[k] == x);
        }
    }
}

/// The reassembly of packet `seq` among `segments`, if one is under way.
pub open spec fn reassembly_of(segments: Seq<DatagramSegments>, seq: u64) -> Option<DatagramSegments> {
    if segment_seqs(segments).contains(seq) {
        Some(segments[segment_seqs(segments).index_of(seq)])
    } else {
        None
    }
}

/// The reassemblies `after` a symbol `(id, data)` of packet `seq`, which is
/// not reassembled yet, went to the reassemblies `before`; a new reassembly
/// needs valid transmission information and room in the receive budget
/// (`admits`). Those of other packets stay. The packet's own is not started
/// when it cannot be; it keeps its symbols when the decoder refuses the
/// symbol or already holds it; it is gone once the decoder returns the
/// object; and otherwise it holds the symbol as well.
pub open spec fn segments_fed(
    before: Seq<DatagramSegments>,
    after: Seq<DatagramSegments>,
    seq: u64,
    oti: Oti,
    id: PayloadId,
    data: Seq<u8>,
    admits: bool,
) -> bool {
    let prior = reassembly_of(before, seq);
    let own = match prior {
        Some(x) => x.spec_oti(),
        None => oti,
    };
    let keys = match prior {
        Some(x) => x.received_keys(),
        None => Set::<u64>::empty(),
    };
    let counts = match prior {
        Some(x) => x.block_counts(),
        None => zero_counts(oti),
    };
    let fed = match prior {
        Some(x) => x.fed(),
        None => Seq::<(PayloadId, Seq<u8>)>::empty(),
    };
    &&& forall|x: DatagramSegments|
        x.seq() != seq ==> (after.contains(x) <==> before.contains(x))
    &&& if prior is None && (oti_problem(oti, MAX_AUDIO_PAYLOAD as int) is Some || !admits) {
        reassembly_of(after, seq) is None
    } else if decode_problem(own, keys, counts, oti, id, data.len() as int) is Some
        || keys.contains(symbol_key(id)) {
        (reassembly_of(after, seq) matches Some(y) && y.received_keys() == keys && y.fed() == fed)
    } else if decoded_object(oti, fed.push((id, data))) is Some {
        reassembly_of(after, seq) is None
    } else {
        (reassembly_of(after, seq) matches Some(y) && y.spec_oti() == oti && y.received_keys()
            == keys.insert(symbol_key(id)) && y.fed() == fed.push((id, data)))
    }
}

/// In reassemblies ordered by sequence number, the one at `i` is that of
/// its packet; replacing it by another of the same packet makes that the
/// packet's reassembly, and removing it leaves the packet none.
proof fn lemma_reassembly_at(p: Seq<DatagramSegments>, i: int, y: DatagramSegments)
    requires
        strictly_increasing(segment_seqs(p)),
        0 <= i < p.len(),
        y.seq() == p[i].seq(),
    ensures
        reassembly_of(p, p[i].seq()) == Some(p[i]),
        reassembly_of(p.update(i, y), p[i].seq()) == Some(y),
        reassembly_of(p.remove(i), p[i].seq()) is None,
{
    let seq = p[i].seq();
    lemma_segment_position(p, i);
    let q = p.update(i, y);
    assert(segment_seqs(q) =~= segment_seqs(p));
    lemma_segment_position(q, i);
    let r = p.remove(i);
    assert(segment_seqs(r) =~= segment_seqs(p).remove(i));
    if segment_seqs(r).contains(seq) {
        let k = segment_seqs(r).index_of(seq);
        assert(segment_seqs(r)[k] == seq);
        if k < i {
            assert(segment_seqs(p)[k] == seq);
            assert(segment_seqs(p)[k] < segment_seqs(p)[i]);
        } else {
            assert(segment_seqs(p)[k + 1] == seq);
            assert(segment_seqs(p)[i] < segment_seqs(p)[k + 1]);
        }
    }
}

impl PendingGroup {
    /// The position of the packet `seq` among those being reassembled,
    /// starting its reassembly if needed: its transmission information must
    /// be valid and its reservation must fit in the receive budget.
    fn prepare_datagram_segments(&mut self, seq: u64, oti: Oti) -> (r: Result<usize, ProtocolError>)
        requires
            old(self).wf(),
        ensures
            final(self).wf(),
            final(self).config() == old(self).config(),
            final(self).datagrams() == old(self).datagrams(),
            segment_seqs(old(self).segments()).contains(seq) ==> r is Ok && final(self).segments()
                == old(self).segments(),
            match r {
                Ok(i) => i < final(self).segments().len() && final(self).segments()[i as int].seq()
                    == seq && (!segment_seqs(old(self).segments()).contains(seq) ==> (i
                    <= old(self).segments().len() && final(self).segments() == old(self).segments().insert(
                    i as int,
                    final(self).segments()[i as int],
                ) && final(self).segments()[i as int].spec_oti() == oti
                    && final(self).segments()[i as int].received_keys() == Set::<u64>::empty()
                    && final(self).segments()[i as int].block_counts() == zero_counts(oti)
                    && final(self).segments()[i as int].fed() == Seq::<(PayloadId, Seq<u8>)>::empty()
                    && oti_problem(
                    oti,
                    MAX_AUDIO_PAYLOAD as int,
                ) is None && pending_admits(
                    old(self).objects(),
                    old(self).pending_bytes(),
                    reservation_of(oti),
                    MAX_AUDIO_PAYLOAD as int,
                ))),
                Err(e) => *final(self) == *old(self) && !segment_seqs(old(self).segments()).contains(
                    seq,
                ) && match oti_problem(oti, MAX_AUDIO_PAYLOAD as int) {
                    Some(reason) => e.0@ == invalid_message(reason),
                    None => !pending_admits(
                        old(self).objects(),
                        old(self).pending_bytes(),
                        reservation_of(oti),
                        MAX_AUDIO_PAYLOAD as int,
                    ) && e.0@ == invalid_message("pending receive budget exceeded"@),
                },
            },
    {
        match self.find_segments(seq) {
            Ok(i) => Ok(i),
            Err(i) => {
                proof {
                    if segment_seqs(self.segments@).contains(seq) {
                        let j = segment_seqs(self.segments@).index_of(seq);
                        assert(segment_seqs(self.segments@)[j] == seq);
                    }
                }
                match validate_oti(&oti, MAX_AUDIO_PAYLOAD) {
                    Ok(()) => {},
                    Err(e) => {
                        return Err(e);
                    },
                }
                proof {
                    lemma_audio_reservation_bound(oti);
                }
                match self.check_capacity(reservation(&oti)) {
                    Ok(()) => {},
                    Err(e) => {
                        return Err(e);
                    },
                }
                let segments = match DatagramSegments::new(seq, oti) {
                    Ok(s) => s,
                    Err(e) => {
                        return Err(e);
                    },
                };
                let ghost before = self.segments@;
                proof {
                    lemma_segment_reservations_insert(before, i as int, segments);
                    lemma_increasing_insert(segment_seqs(before), i, seq);
                    assert(segment_seqs(before.insert(i as int, segments)) =~= segment_seqs(
                        before,
                    ).insert(i as int, seq));
                }
                self.segments.insert(i, segments);
                proof {
                    assert forall|k: int| 0 <= k < self.segments@.len() implies #[trigger] self.segments@[k].wf() by {
                        if k < i {
                            assert(self.segments@[k] == before[k]);
                        } else if k > i {
                            assert(self.segments@[k] == before[k - 1]);
                        }
                    }
                }
                Ok(i)
            },
        }
    }

    /// Feeds one symbol of packet `seq`, received at `now`. The symbol of a
    /// packet already reassembled is only checked against that packet's
    /// transmission information. Otherwise it goes to the packet's
    /// reassembly, started if needed; once the packet is complete it is filed
    /// among the reassembled ones.
    #[verifier::spinoff_prover]
    #[verifier::rlimit(60)]
    pub fn insert_datagram(
        &mut self,
        seq: u64,
        oti: Oti,
        payload_id: PayloadId,
        data: Vec<u8>,
        now: u64,
    ) -> (r: Result<(), ProtocolError>)
        requires
            old(self).wf(),
            payload_id.encoding_symbol_id < 0x100_0000,
            now <= INSTANT_LIMIT,
        ensures
            final(self).wf(),
            final(self).config() == old(self).config(),
            forall|i: int|
                0 <= i < old(self).datagrams().len() && old(self).datagrams()[i].kypacket_seq == seq
                    ==> *final(self) == *old(self) && (r is Ok <==> old(self).datagrams()[i].oti
                    == oti) && (r matches Err(e) ==> e.0@ == invalid_message(
                    "OTI changed for completed audio object"@,
                )),
            !datagram_seqs(old(self).datagrams()).contains(seq) ==> {
                &&& final(self).datagrams() == old(self).datagrams() || exists|i: int, d: DatagramPacket|
                    0 <= i <= old(self).datagrams().len() && final(self).datagrams() == old(self).datagrams().insert(i, d) && d.kypacket_seq == seq && d.oti == oti && d.instant
                        == now && d.packet is Media
                &&& segments_fed(
                    old(self).segments(),
                    final(self).segments(),
                    seq,
                    oti,
                    payload_id,
                    data@,
                    pending_admits(
                        old(self).objects(),
                        old(self).pending_bytes(),
                        reservation_of(oti),
                        MAX_AUDIO_PAYLOAD as int,
                    ),
                )
                &&& !segment_seqs(old(self).segments()).contains(seq) ==> match oti_problem(
                    oti,
                    MAX_AUDIO_PAYLOAD as int,
                ) {
                    Some(reason) => (r matches Err(e) && e.0@ == invalid_message(reason)) && *final(self) == *old(self),
                    None => !pending_admits(
                        old(self).objects(),
                        old(self).pending_bytes(),
                        reservation_of(oti),
                        MAX_AUDIO_PAYLOAD as int,
                    ) ==> (r matches Err(e) && e.0@ == invalid_message(
                        "pending receive budget exceeded"@,
                    )) && *final(self) == *old(self),
                }
                &&& match segments_problem(
                    old(self).segments(),
                    seq,
                    oti,
                    payload_id,
                    data@,
                    pending_admits(
                        old(self).objects(),
                        old(self).pending_bytes(),
                        reservation_of(oti),
                        MAX_AUDIO_PAYLOAD as int,
                    ),
                ) {
                    Some(reason) => r matches Err(e) && e.0@ == invalid_message(reason),
                    None => r is Ok,
                }
                &&& filed(
                    old(self).datagrams(),
                    final(self).datagrams(),
                    segments_completion(
                        old(self).segments(),
                        seq,
                        oti,
                        payload_id,
                        data@,
                        pending_admits(
                            old(self).objects(),
                            old(self).pending_bytes(),
                            reservation_of(oti),
                            MAX_AUDIO_PAYLOAD as int,
                        ),
                    ),
                    seq,
                    oti,
                    now,
                )
            },
    {
        let ghost sym = data@;
        match self.find_datagram(seq) {
            Ok(i) => {
                proof {
                    assert forall|k: int|
                        0 <= k < self.datagrams@.len() && self.datagrams@[k].kypacket_seq
                            == seq implies k == i by {
                        if k < i {
                            assert(datagram_seqs(self.datagrams@)[k] < datagram_seqs(
                                self.datagrams@,
                            )[i as int]);
                        } else if k > i {
                            assert(datagram_seqs(self.datagrams@)[i as int] < datagram_seqs(
                                self.datagrams@,
                            )[k]);
                        }
                    }
                }
                if self.datagrams[i].oti != oti {
                    return Err(invalid("OTI changed for completed audio object"));
                }
                return Ok(());
            },
            Err(_) => {},
        }
        let ghost old_datagrams = self.datagrams@;
        proof {
            assert forall|i: int| 0 <= i < old_datagrams.len() implies old_datagrams[i].kypacket_seq
                != seq by {
                assert(datagram_seqs(old_datagrams)[i] == old_datagrams[i].kypacket_seq);
            }
            if datagram_seqs(old_datagrams).contains(seq) {
                let j = datagram_seqs(old_datagrams).index_of(seq);
                assert(datagram_seqs(old_datagrams)[j] == seq);
            }
        }
        let index = match self.prepare_datagram_segments(seq, oti) {
            Ok(index) => index,
            Err(e) => {
                return Err(e);
            },
        };
        let ghost prepared = self.segments@;
        let ghost start = old(self).segments();
        let ghost cur = prepared[index as int];
        let ghost admits = pending_admits(
            old(self).objects(),
            old(self).pending_bytes(),
            reservation_of(oti),
            MAX_AUDIO_PAYLOAD as int,
        );
        proof {
            if segment_seqs(start).contains(seq) {
                lemma_segment_position(start, index as int);
            }
            assert(segments_problem(start, seq, oti, payload_id, sym, admits) == reassembly_problem(
                cur.spec_oti(),
                cur.received_keys(),
                cur.block_counts(),
                cur.fed(),
                oti,
                payload_id,
                sym,
            ));
            assert(segments_completion(start, seq, oti, payload_id, sym, admits)
                == reassembly_completion(
                cur.spec_oti(),
                cur.received_keys(),
                cur.block_counts(),
                cur.fed(),
                oti,
                payload_id,
                sym,
            ));
        }
        proof {
            assert forall|x: DatagramSegments| x.seq() != seq implies (prepared.contains(x)
                <==> start.contains(x)) by {
                if !segment_seqs(start).contains(seq) {
                    if prepared.contains(x) {
                        let k = prepared.index_of(x);
                        if k < index {
                            assert(prepared[k] == start[k]);
                        } else {
                            assert(k != index);
                            assert(prepared[k] == start[k - 1]);
                        }
                    }
                    if start.contains(x) {
                        let k = start.index_of(x);
                        if k < index {
                            assert(prepared[k] == start[k]);
                        } else {
                            assert(prepared[k + 1] == start[k]);
                        }
                    }
                }
            }
            lemma_segment_reservations_remove(prepared, index as int);
            lemma_increasing_remove(segment_seqs(prepared), index as int);
            assert(segment_seqs(prepared.remove(index as int)) =~= segment_seqs(prepared).remove(
                index as int,
            ));
            assert(prepared[index as int].wf());
            lemma_audio_reservation_bound(prepared[index as int].spec_oti());
        }
        let mut segments = self.segments.remove(index);
        proof {
            assert forall|k: int| 0 <= k < self.segments@.len() implies #[trigger] self.segments@[k].wf() by {
                if k < index {
                    assert(self.segments@[k] == prepared[k]);
                } else {
                    assert(self.segments@[k] == prepared[k + 1]);
                }
            }
            assert forall|x: DatagramSegments| x.seq() != seq implies (self.segments@.contains(x)
                <==> prepared.contains(x)) by {
                if self.segments@.contains(x) {
                    let k = self.segments@.index_of(x);
                    if k < index {
                        assert(prepared[k] == self.segments@[k]);
                    } else {
                        assert(prepared[k + 1] == self.segments@[k]);
                    }
                }
                if prepared.contains(x) {
                    let k = prepared.index_of(x);
                    assert(k != index);
                    if k < index {
                        assert(self.segments@[k] == prepared[k]);
                    } else {
                        assert(self.segments@[k - 1] == prepared[k]);
                    }
                }
            }
        }
        match segments.add_packet(oti, payload_id, data) {
            Ok(()) => {},
            Err(e) => {
                proof {
                    lemma_update_keeps_others(prepared, index as int, segments, seq);
                    lemma_segment_reservations_update(prepared, index as int, segments);
                    assert(prepared.remove(index as int).insert(index as int, segments)
                        =~= prepared.update(index as int, segments));
                    assert(segment_seqs(prepared.update(index as int, segments)) =~= segment_seqs(
                        prepared,
                    ));
                }
                self.segments.insert(index, segments);
                proof {
                    assert(self.segments@ =~= prepared.update(index as int, segments));
                    assert forall|k: int| 0 <= k < self.segments@.len() implies #[trigger] self.segments@[k].wf() by {
                        if k != index {
                            assert(self.segments@[k] == prepared[k]);
                        }
                    }
                    lemma_reassembly_at(prepared, index as int, segments);
                }
                return Err(e);
            },
        }
        proof {
            lemma_reassembly_at(prepared, index as int, segments);
        }
        if segments.is_complete() {
            match segments.assemble(now) {
                Ok(packet) => {
                    self.insert_datagram_packet(packet);
                    Ok(())
                },
                Err(e) => Err(e),
            }
        } else {
            proof {
                lemma_update_keeps_others(prepared, index as int, segments, seq);
                lemma_segment_reservations_update(prepared, index as int, segments);
                assert(prepared.remove(index as int).insert(index as int, segments)
                    =~= prepared.update(index as int, segments));
                assert(segment_seqs(prepared.update(index as int, segments)) =~= segment_seqs(
                    prepared,
                ));
            }
            self.segments.insert(index, segments);
            proof {
                assert(self.segments@ =~= prepared.update(index as int, segments));
                assert forall|k: int| 0 <= k < self.segments@.len() implies #[trigger] self.segments@[k].wf() by {
                    if k != index {
                        assert(self.segments@[k] == prepared[k]);
                    }
                }
            }
            Ok(())
        }
    }
}


/// Why a symbol of packet `seq` fed to the group `g` is refused, if it is:
/// a symbol of a packet already reassembled must carry that packet's
/// transmission information; any other goes to the packet's reassembly.
pub open spec fn group_symbol_problem(
    g: PendingGroup,
    seq: u64,
    oti: Oti,
    id: PayloadId,
    data: Seq<u8>,
) -> Option<Seq<char>> {
    let d = g.datagrams();
    if datagram_seqs(d).contains(seq) {
        if d[datagram_seqs(d).index_of(seq)].oti == oti {
            None
        } else {
            Some("OTI changed for completed audio object"@)
        }
    } else {
        segments_problem(
            g.segments(),
            seq,
            oti,
            id,
            data,
            pending_admits(g.objects(), g.pending_bytes(), reservation_of(oti), MAX_AUDIO_PAYLOAD as int),
        )
    }
}

/// The bytes of the media packet that a symbol of packet `seq` fed to the
/// group `g` completes, if it completes one.
pub open spec fn group_completion(
    g: PendingGroup,
    seq: u64,
    oti: Oti,
    id: PayloadId,
    data: Seq<u8>,
) -> Option<Seq<u8>> {
    segments_completion(
        g.segments(),
        seq,
        oti,
        id,
        data,
        pending_admits(g.objects(), g.pending_bytes(), reservation_of(oti), MAX_AUDIO_PAYLOAD as int),
    )
}

/// Every sequence number the group holds is at most `bound`.
pub open spec fn seqs_bounded(config: ConfigPacket, datagrams: Seq<DatagramPacket>, segments: Seq<
    DatagramSegments,
>, bound: int) -> bool {
    &&& (config matches ConfigPacket::Ready(p) ==> p.kypacket_seq <= bound)
    &&& forall|i: int| 0 <= i < datagrams.len() ==> #[trigger] datagrams[i].kypacket_seq <= bound
    &&& forall|i: int| 0 <= i < segments.len() ==> #[trigger] segments[i].seq() <= bound
}

/// Audio samples lost with `missing` packets of `frame_size` samples each,
/// capped to the 32-bit field of a hole packet.
pub open spec fn missing_samples(missing: int, frame_size: int) -> u32 {
    if missing * frame_size > u32::MAX {
        u32::MAX
    } else {
        (missing * frame_size) as u32
    }
}

/// The wire value `raw` unrolls to `s` next to `newest`.
pub open spec fn unrolls_to(newest: int, raw: u32, s: u64) -> bool {
    s as int % 0x1_0000_0000 == raw as int && in_window(newest, s as int, 0x1_0000_0000)
}

/// The message of a sequence space that can no longer be unrolled.
pub open spec fn exhausted_message() -> Seq<char> {
    invalid_message("audio sequence space exhausted"@)
}

/// What the receiver hands its client in one step: a packet, preceded by a
/// hole packet where packets were lost; or nothing, until the deadline if
/// there is one.
#[derive(Debug)]
pub enum AudioStep {
    Deliver { kypacket_seq: u64, missing_packets: u64, hole: Option<AVPacket>, packet: AVPacket },
    Wait(Option<u64>),
}

/// The receive state of an audio stream: the sequence unroller, the pending
/// packets, the next expected sequence number and the frame size announced
/// by the codec packet.
pub struct AudioFecReceiver {
    sequencer: Sequencer<u32>,
    group: PendingGroup,
    next_kypacket_seq: u64,
    frame_size: Option<u16>,
}

impl AudioFecReceiver {
    pub closed spec fn newest(&self) -> int {
        self.sequencer.newest() as int
    }

    pub closed spec fn next(&self) -> u64 {
        self.next_kypacket_seq
    }

    pub closed spec fn frame(&self) -> Option<u16> {
        self.frame_size
    }

    pub closed spec fn group(&self) -> PendingGroup {
        self.group
    }

    /// The pending packets stay within the receive budget and in sequence
    /// order, and every sequence number held is at most the newest one seen,
    /// itself far below the end of the 64-bit space.
    pub closed spec fn wf(&self) -> bool {
        &&& self.group.wf()
        &&& (self.frame_size matches Some(f) ==> f > 0)
        &&& self.sequencer.newest() <= u64::MAX - 0x8000_0000
        &&& seqs_bounded(
            self.group.config(),
            self.group.datagrams(),
            self.group.segments(),
            self.sequencer.newest() as int,
        )
    }

    pub fn new() -> (r: Self)
        ensures
            r.wf(),
            r.newest() == 0,
            r.next() == 0,
            r.frame() is None,
            r.group().config() is NotReceived,
            r.group().datagrams().len() == 0,
            r.group().segments().len() == 0,
    {
        AudioFecReceiver {
            sequencer: Sequencer::new(),
            group: PendingGroup::new(),
            next_kypacket_seq: 0,
            frame_size: None,
        }
    }

    /// Unrolls a wire sequence number, or refuses once the 64-bit space is
    /// nearly used up.
    fn unroll(&mut self, raw: u32) -> (r: Result<u64, ProtocolError>)
        requires
            old(self).wf(),
        ensures
            final(self).group == old(self).group,
            final(self).next_kypacket_seq == old(self).next_kypacket_seq,
            final(self).frame_size == old(self).frame_size,
            match r {
                Ok(s) => unroll_fits(old(self).newest(), raw as int, 0x1_0000_0000) && unrolls_to(old(self).newest(), raw, s)
                    && final(self).newest() == (if s > old(self).newest() {
                    s as int
                } else {
                    old(self).newest()
                }) && s <= final(self).newest() && final(self).wf(),
                Err(e) => !unroll_fits(old(self).newest(), raw as int, 0x1_0000_0000) && e.0@ == exhausted_message() && *final(self) == *old(self),
            },
    {
        if !self.sequencer.can_unroll(raw) {
            return Err(invalid("audio sequence space exhausted"));
        }
        let s = self.sequencer.seq(raw);
        Ok(s)
    }

    /// A packet from the reliable stream. A codec packet sets the frame size
    /// (which must not be zero) and goes to the client at once; any other
    /// packet, once unrolled, is offered to the group as its configuration
    /// packet unless it comes before the expected sequence number.
    pub fn on_stream_packet(&mut self, raw_seq: u32, packet: AVPacket) -> (r: Result<
        Option<AVPacket>,
        ProtocolError,
    >)
        requires
            old(self).wf(),
        ensures
            final(self).wf(),
            final(self).next() == old(self).next(),
            match packet {
                AVPacket::Codec(c) => if c.header.frame_size == 0 {
                    r matches Err(e) && e.0@ == invalid_message("zero audio frame size"@)
                } else {
                    r == Ok::<Option<AVPacket>, ProtocolError>(Some(packet)) && final(self).frame()
                        == Some(c.header.frame_size) && final(self).group() == old(self).group()
                        && final(self).newest() == old(self).newest()
                },
                _ => {
                    &&& final(self).frame() == old(self).frame()
                    &&& r matches Ok(o) ==> o is None
                    &&& !unroll_fits(old(self).newest(), raw_seq as int, 0x1_0000_0000) ==> (r matches Err(e) && e.0@
                        == exhausted_message())
                    &&& unroll_fits(old(self).newest(), raw_seq as int, 0x1_0000_0000) ==> exists|s: u64|
                        #![trigger unrolls_to(old(self).newest(), raw_seq, s)]
                        unrolls_to(old(self).newest(), raw_seq, s) && if s < old(self).next() {
                            r is Ok && final(self).group() == old(self).group()
                        } else {
                            final(self).group().datagrams() == old(self).group().datagrams()
                                && final(self).group().segments() == old(self).group().segments()
                                && match config_problem(
                                old(self).group().config(),
                                old(self).group().objects(),
                                old(self).group().pending_bytes(),
                                packet,
                            ) {
                                None => r is Ok && final(self).group().config()
                                    == ConfigPacket::Ready(StreamPacket { packet, kypacket_seq: s }),
                                Some(reason) => (r matches Err(e) && e.0@ == invalid_message(
                                    reason,
                                )) && final(self).group().config() == old(self).group().config(),
                            }
                        }
                },
            },
    {
        match &packet {
            AVPacket::Codec(c) => {
                let frame_size = c.header.frame_size;
                if frame_size == 0 {
                    return Err(invalid("zero audio frame size"));
                }
                self.frame_size = Some(frame_size);
                return Ok(Some(packet));
            },
            _ => {},
        }
        let s = match self.unroll(raw_seq) {
            Ok(s) => s,
            Err(e) => {
                return Err(e);
            },
        };
        if s < self.next_kypacket_seq {
            return Ok(None);
        }
        let ghost before = self.group;
        match self.group.insert_stream_packet(s, packet) {
            Ok(()) => {
                assert(seqs_bounded(
                    self.group.config(),
                    self.group.datagrams(),
                    self.group.segments(),
                    self.sequencer.newest() as int,
                ));
                Ok(None)
            },
            Err(e) => Err(e),
        }
    }

    /// A symbol from a datagram, received at `now`. A symbol of a packet
    /// before the expected sequence number is dropped (`false`); any other
    /// goes to the group (`true`).
    pub fn on_datagram(
        &mut self,
        raw_seq: u32,
        oti: Oti,
        payload_id: PayloadId,
        data: Vec<u8>,
        now: u64,
    ) -> (r: Result<bool, ProtocolError>)
        requires
            old(self).wf(),
            payload_id.encoding_symbol_id < 0x100_0000,
            now <= INSTANT_LIMIT,
        ensures
            final(self).wf(),
            final(self).next() == old(self).next(),
            final(self).frame() == old(self).frame(),
            final(self).group().config() == old(self).group().config(),
            !unroll_fits(old(self).newest(), raw_seq as int, 0x1_0000_0000) ==> (r matches Err(e) && e.0@ == exhausted_message()),
            unroll_fits(old(self).newest(), raw_seq as int, 0x1_0000_0000) ==> exists|s: u64|
                #![trigger unrolls_to(old(self).newest(), raw_seq, s)]
                unrolls_to(old(self).newest(), raw_seq, s) && if s < old(self).next() {
                    r == Ok::<bool, ProtocolError>(false) && final(self).group() == old(self).group()
                } else {
                    &&& (r matches Ok(b) ==> b)
                    &&& (forall|d: DatagramPacket|
                        #[trigger] final(self).group().datagrams().contains(d) ==> old(self).group().datagrams().contains(d) || (d.kypacket_seq == s && d.oti == oti
                            && d.instant == now && d.packet is Media))
                    &&& match group_symbol_problem(old(self).group(), s, oti, payload_id, data@) {
                        Some(reason) => r matches Err(e) && e.0@ == invalid_message(reason),
                        None => r == Ok::<bool, ProtocolError>(true),
                    }
                    &&& datagram_seqs(old(self).group().datagrams()).contains(s) ==> final(self).group()
                        == old(self).group()
                    &&& !datagram_seqs(old(self).group().datagrams()).contains(s) ==> filed(
                        old(self).group().datagrams(),
                        final(self).group().datagrams(),
                        group_completion(old(self).group(), s, oti, payload_id, data@),
                        s,
                        oti,
                        now,
                    )
                    &&& !datagram_seqs(old(self).group().datagrams()).contains(s) ==> segments_fed(
                        old(self).group().segments(),
                        final(self).group().segments(),
                        s,
                        oti,
                        payload_id,
                        data@,
                        pending_admits(
                            old(self).group().objects(),
                            old(self).group().pending_bytes(),
                            reservation_of(oti),
                            MAX_AUDIO_PAYLOAD as int,
                        ),
                    )
                },
    {
        let ghost sym = data@;
        let s = match self.unroll(raw_seq) {
            Ok(s) => s,
            Err(e) => {
                return Err(e);
            },
        };
        if s < self.next_kypacket_seq {
            return Ok(false);
        }
        let ghost before = self.group;
        let ghost bound = self.sequencer.newest() as int;
        let r = self.group.insert_datagram(s, oti, payload_id, data, now);
        proof {
            let g = self.group;
            if datagram_seqs(before.datagrams()).contains(s) {
                let j = datagram_seqs(before.datagrams()).index_of(s);
                assert(datagram_seqs(before.datagrams())[j] == s);
                assert(before.datagrams()[j].kypacket_seq == s);
            } else {
                assert forall|i: int| 0 <= i < g.datagrams().len() implies #[trigger] g.datagrams()[i].kypacket_seq
                    <= bound by {
                    if g.datagrams() != before.datagrams() {
                        let (k, d) = choose|k: int, d: DatagramPacket|
                            0 <= k <= before.datagrams().len() && g.datagrams()
                                == before.datagrams().insert(k, d) && d.kypacket_seq == s && d.oti
                                == oti && d.instant == now && d.packet is Media;
                        if i < k {
                            assert(g.datagrams()[i] == before.datagrams()[i]);
                        } else if i > k {
                            assert(g.datagrams()[i] == before.datagrams()[i - 1]);
                        }
                    }
                }
                assert forall|i: int| 0 <= i < g.segments().len() implies #[trigger] g.segments()[i].seq()
                    <= bound by {
                    let x = g.segments()[i];
                    if x.seq() != s {
                        assert(g.segments().contains(x));
                        assert(before.segments().contains(x));
                        let k = before.segments().index_of(x);
                        assert(before.segments()[k].seq() <= bound);
                    }
                }
                assert forall|d: DatagramPacket| #[trigger] g.datagrams().contains(d) implies before.datagrams().contains(
                    d,
                ) || (d.kypacket_seq == s && d.oti == oti && d.instant == now && d.packet is Media) by {
                    if g.datagrams() != before.datagrams() {
                        let (k, e) = choose|k: int, e: DatagramPacket|
                            0 <= k <= before.datagrams().len() && g.datagrams()
                                == before.datagrams().insert(k, e) && e.kypacket_seq == s && e.oti
                                == oti && e.instant == now && e.packet is Media;
                        let i = g.datagrams().index_of(d);
                        if i < k {
                            assert(g.datagrams()[i] == before.datagrams()[i]);
                        } else if i > k {
                            assert(g.datagrams()[i] == before.datagrams()[i - 1]);
                        }
                    }
                }
            }
        }
        match r {
            Ok(()) => Ok(true),
            Err(e) => Err(e),
        }
    }
}


/// The packet that `next_packet_of` designates, with its sequence number.
pub open spec fn next_delivery(config: ConfigPacket, datagrams: Seq<DatagramPacket>, next: u64, now: u64) -> Option<
    (u64, AVPacket),
> {
    match next_packet_of(config, datagrams, next, now) {
        NextPacket::Ready(r) => if r.config_packet {
            match config {
                ConfigPacket::Ready(p) => Some((p.kypacket_seq, p.packet)),
                _ => None,
            }
        } else {
            Some((datagrams[0].kypacket_seq, datagrams[0].packet))
        },
        _ => None,
    }
}

/// The step that hands out packet `p` numbered `s` when `next` is expected,
/// with frames of `frame_size` samples: a hole packet first where `s` is
/// ahead of `next`.
pub open spec fn delivery_step(s: u64, p: AVPacket, next: u64, frame_size: u16) -> AudioStep {
    if s > next {
        AudioStep::Deliver {
            kypacket_seq: s,
            missing_packets: (s - next) as u64,
            hole: Some(
                AVPacket::Hole(
                    HolePacket {
                        header: HolePacketHeader {
                            missing_audio_samples: missing_samples(s - next, frame_size as int),
                        },
                    },
                ),
            ),
            packet: p,
        }
    } else {
        AudioStep::Deliver { kypacket_seq: s, missing_packets: 0, hole: None, packet: p }
    }
}

/// The group `g` after the packet designated in `g0` was taken out: the
/// configuration packet is marked sent, or else the oldest reassembled
/// packet leaves together with the reassemblies of the packets before it.
pub open spec fn packet_taken(g0: PendingGroup, g: PendingGroup, config_packet: bool) -> bool {
    if config_packet {
        g.config() == ConfigPacket::Sent && g.datagrams() == g0.datagrams() && g.segments()
            == g0.segments()
    } else {
        &&& g.config() == g0.config()
        &&& g.datagrams() == g0.datagrams().drop_first()
        &&& segments_from(g0.segments(), g0.datagrams()[0].kypacket_seq, g.segments())
    }
}

/// The samples lost with `missing` packets, capped to 32 bits.
fn hole_samples(missing: u64, frame_size: u16) -> (n: u32)
    requires
        frame_size > 0,
    ensures
        n == missing_samples(missing as int, frame_size as int),
{
    if missing > u32::MAX as u64 {
        assert(missing * frame_size >= missing) by (nonlinear_arith)
            requires
                frame_size >= 1,
                missing >= 0,
        ;
        return u32::MAX;
    }
    assert(missing * frame_size <= 0xFFFF_FFFF * 0xFFFF) by (nonlinear_arith)
        requires
            missing <= 0xFFFF_FFFF,
            frame_size <= 0xFFFF,
    ;
    let total = missing * (frame_size as u64);
    if total > u32::MAX as u64 {
        u32::MAX
    } else {
        total as u32
    }
}

impl AudioFecReceiver {
    /// One step of handing packets to the client at instant `now`: the next
    /// packet the group designates, preceded by a hole for the packets
    /// skipped, after which the packet following it is expected; or nothing
    /// to hand out yet.
    pub fn next_step(&mut self, now: u64) -> (r: Result<AudioStep, ProtocolError>)
        requires
            old(self).wf(),
        ensures
            final(self).wf(),
            final(self).frame() == old(self).frame(),
            match next_packet_of(old(self).group().config(), old(self).group().datagrams(), old(self).next(), now) {
                NextPacket::Nothing => r matches Ok(AudioStep::Wait(None)) && *final(self) == *old(self),
                NextPacket::Deadline(d) => (r matches Ok(AudioStep::Wait(w)) && w == Some(d)) && *final(self)
                    == *old(self),
                NextPacket::Ready(taken) => next_delivery(
                    old(self).group().config(),
                    old(self).group().datagrams(),
                    old(self).next(),
                    now,
                ) matches Some((s, p)) && packet_taken(
                    old(self).group(),
                    final(self).group(),
                    taken.config_packet,
                ) && final(self).newest() == old(self).newest() && match old(self).frame() {
                    None => (r matches Err(e) && e.0@ == invalid_message("audio before codec"@))
                        && final(self).next() == old(self).next(),
                    Some(f) => r == Ok::<AudioStep, ProtocolError>(delivery_step(s, p, old(self).next(), f))
                        && final(self).next() == s + 1,
                },
            },
    {
        let ghost g0 = self.group;
        let ghost bound = self.sequencer.newest() as int;
        let action = self.group.take_next_packet(self.next_kypacket_seq, now);
        proof {
            let g = self.group;
            assert forall|i: int| 0 <= i < g.datagrams().len() implies #[trigger] g.datagrams()[i].kypacket_seq
                <= bound by {
                if g.datagrams() != g0.datagrams() {
                    assert(g.datagrams()[i] == g0.datagrams()[i + 1]);
                }
            }
            assert forall|i: int| 0 <= i < g.segments().len() implies #[trigger] g.segments()[i].seq()
                <= bound by {
                if g.segments() != g0.segments() {
                    let k = choose|k: int|
                        0 <= k <= g0.segments().len() && g.segments() == g0.segments().subrange(
                            k,
                            g0.segments().len() as int,
                        ) && (forall|j: int| 0 <= j < k ==> #[trigger] segment_seqs(g0.segments())[j]
                            < g0.datagrams()[0].kypacket_seq) && (forall|j: int|
                            k <= j < g0.segments().len() ==> #[trigger] segment_seqs(g0.segments())[j]
                            >= g0.datagrams()[0].kypacket_seq);
                    assert(g.segments()[i] == g0.segments()[i + k]);
                }
            }
        }
        match action {
            Action::Idle => Ok(AudioStep::Wait(None)),
            Action::Deadline(d) => Ok(AudioStep::Wait(Some(d))),
            Action::Packet { kypacket_seq, packet } => {
                let frame_size = match self.frame_size {
                    Some(f) => f,
                    None => {
                        return Err(invalid("audio before codec"));
                    },
                };
                let next = self.next_kypacket_seq;
                self.next_kypacket_seq = kypacket_seq + 1;
                if kypacket_seq > next {
                    let missing_packets = kypacket_seq - next;
                    let samples = hole_samples(missing_packets, frame_size);
                    let hole = AVPacket::Hole(
                        HolePacket { header: HolePacketHeader { missing_audio_samples: samples } },
                    );
                    Ok(
                        AudioStep::Deliver {
                            kypacket_seq,
                            missing_packets,
                            hole: Some(hole),
                            packet,
                        },
                    )
                } else {
                    Ok(AudioStep::Deliver { kypacket_seq, missing_packets: 0, hole: None, packet })
                }
            },
        }
    }
}


/// A datagram of the audio stream, split into its parts.
#[derive(Debug)]
pub struct DatagramMsg {
    pub data: Vec<u8>,
    pub raw_kypacket_seq: u32,
    pub oti: Oti,
    pub payload_id: PayloadId,
}

impl DatagramMsg {
    /// Splits an audio datagram: the sequence number follows the endpoint
    /// id, then come the checked transmission information and payload id,
    /// then the symbol.
    pub fn parse(datagram: &[u8]) -> (r: Result<Self, ProtocolError>)
        ensures
            match r {
                Ok(m) => {
                    &&& datagram_problem(
                        datagram@,
                        DATAGRAM_HEADER_SIZE as int,
                        MAX_AUDIO_PAYLOAD as int,
                    ) is None
                    &&& m.raw_kypacket_seq == be32_value(datagram@.subrange(2, 6))
                    &&& m.oti == oti_of(datagram@.subrange(6, 18))
                    &&& m.payload_id == payload_id_of(datagram@.subrange(18, 22))
                    &&& m.payload_id.encoding_symbol_id < 0x100_0000
                    &&& m.data@ == datagram@.subrange(22, datagram@.len() as int)
                },
                Err(e) => datagram_problem(
                    datagram@,
                    DATAGRAM_HEADER_SIZE as int,
                    MAX_AUDIO_PAYLOAD as int,
                ) matches Some(reason) && e.0@ == invalid_message(reason),
            },
    {
        match parse_datagram(datagram, DATAGRAM_HEADER_SIZE, MAX_AUDIO_PAYLOAD) {
            Ok((data, oti, payload_id)) => {
                let raw = read_be_u32(vstd::slice::slice_subrange(datagram, 2, 6));
                let ghost b = datagram@.subrange(18, 22);
                assert((b[1] as u32) * 0x1_0000 + (b[2] as u32) * 0x100 + (b[3] as u32)
                    < 0x100_0000);
                Ok(DatagramMsg { data, raw_kypacket_seq: raw, oti, payload_id })
            },
            Err(e) => Err(e),
        }
    }
}

/// Reads one record of the audio stream from its unread bytes: a four-byte
/// sequence number, then a packet as `read_stream_packet` reads it. Returns
/// the sequence number, the packet and the bytes used.
pub fn parse_stream_record(input: &[u8]) -> (r: Result<(u32, AVPacket, usize), ProtocolError>)
    ensures
        input@.len() < 4 ==> (r matches Err(e) && e.0@ == early_eof_message()),
        input@.len() >= 4 ==> stream_packet_read(
            input@.subrange(4, input@.len() as int),
            MAX_AUDIO_PAYLOAD as int,
            match r {
                Ok((_, p, n)) => Ok((p, (n - 4) as usize)),
                Err(e) => Err(e),
            },
        ),
        r matches Ok((raw, p, n)) ==> raw == be32_value(input@) && 4 < n <= input@.len(),
{
    if input.len() < 4 {
        return Err(ProtocolError::from_message("early eof"));
    }
    let raw = read_be_u32(input);
    let rest = vstd::slice::slice_subrange(input, 4, input.len());
    match read_stream_packet(rest, MAX_AUDIO_PAYLOAD) {
        Ok((packet, n)) => {
            assert(n <= rest@.len()) by {
                if rest@.len() >= HEADER_SIZE && rest@[0] & 0x80 != 0 {
                    assert(rest@.subrange(0, HEADER_SIZE as int)[0] == rest@[0]);
                }
            }
            Ok((raw, packet, n + 4))
        },
        Err(e) => Err(e),
    }
}

/// What the sender does with one packet: write a record on the reliable
/// stream, or code the packet's bytes into datagrams under a sequence
/// number.
#[derive(Debug)]
pub enum AudioSend {
    Stream(Vec<u8>),
    Datagrams { kypacket_seq: u32, object: Vec<u8> },
}

/// The send state of an audio stream: the sequence number of the next media
/// packet.
pub struct AudioFecSender {
    kypacket_seq: u32,
}

impl AudioFecSender {
    pub closed spec fn seq(&self) -> u32 {
        self.kypacket_seq
    }

    pub fn new() -> (s: Self)
        ensures
            s.seq() == 0,
    {
        AudioFecSender { kypacket_seq: 0 }
    }

    /// A codec packet goes on the stream after a meaningless zero sequence
    /// number; a configuration media packet goes on the stream after its
    /// sequence number; any other media packet goes as datagrams. Each media
    /// packet takes the next sequence number, wrapping at 32 bits.
    pub fn send(&mut self, packet: AVPacket) -> (a: AudioSend)
        requires
            !(packet is Hole),
            writable_av(packet),
        ensures
            match packet {
                AVPacket::Codec(_) => a matches AudioSend::Stream(b) && b@ == be32(0) + av_record(
                    packet,
                ) && final(self).seq() == old(self).seq(),
                AVPacket::Media(m) => final(self).seq() == (if old(self).seq() == u32::MAX {
                    0
                } else {
                    old(self).seq() + 1
                }) && if m.header.is_config {
                    a matches AudioSend::Stream(b) && b@ == be32(old(self).seq()) + av_record(
                        packet,
                    )
                } else {
                    a matches AudioSend::Datagrams { kypacket_seq, object } && kypacket_seq == old(self).seq() && object@ == av_record(packet)
                },
                _ => true,
            },
    {
        match packet {
            AVPacket::Codec(c) => {
                let mut out: Vec<u8> = Vec::new();
                let z = be_bytes_u32(0);
                append_bytes(&mut out, &z);
                let h = c.header.serialize();
                append_bytes(&mut out, &h);
                AudioSend::Stream(out)
            },
            AVPacket::Media(m) => {
                let seq = self.kypacket_seq;
                self.kypacket_seq = self.kypacket_seq.wrapping_add(1);
                let h = m.header.serialize();
                let mut object: Vec<u8> = Vec::new();
                append_bytes(&mut object, &h);
                append_bytes(&mut object, m.payload.as_slice());
                if m.header.is_config {
                    let mut out: Vec<u8> = Vec::new();
                    let s = be_bytes_u32(seq);
                    append_bytes(&mut out, &s);
                    append_bytes(&mut out, object.as_slice());
                    assert(out@ =~= be32(seq) + av_record(AVPacket::Media(m)));
                    AudioSend::Stream(out)
                } else {
                    AudioSend::Datagrams { kypacket_seq: seq, object }
                }
            },
            AVPacket::Hole(_) => AudioSend::Stream(Vec::new()),
        }
    }
}

/// The bytes of one audio datagram: endpoint id, sequence number,
/// transmission information, payload id and symbol.
pub fn frame_datagram(endpoint_id: u16, kypacket_seq: u32, oti: &[u8], payload_id: &[u8], data: &[u8]) -> (b: Vec<u8>)
    requires
        oti@.len() == 12,
        payload_id@.len() == 4,
    ensures
        b@ == be16(endpoint_id) + be32(kypacket_seq) + oti@ + payload_id@ + data@,
{
    let mut out: Vec<u8> = Vec::new();
    let e = be_bytes_u16(endpoint_id);
    let s = be_bytes_u32(kypacket_seq);
    append_bytes(&mut out, &e);
    append_bytes(&mut out, &s);
    append_bytes(&mut out, oti);
    append_bytes(&mut out, payload_id);
    append_bytes(&mut out, data);
    out
}


impl PendingGroup {
    /// How many packets are being reassembled.
    pub fn segments_len(&self) -> (n: usize)
        ensures
            n == self.segments().len(),
    {
        self.segments.len()
    }

    /// How many packets are reassembled and waiting.
    pub fn datagrams_len(&self) -> (n: usize)
        ensures
            n == self.datagrams().len(),
    {
        self.datagrams.len()
    }

    /// The reassembled packet at position `i`, in sequence order.
    pub fn datagram_at(&self, i: usize) -> (d: &DatagramPacket)
        requires
            i < self.datagrams().len(),
        ensures
            *d == self.datagrams()[i as int],
    {
        &self.datagrams[i]
    }
}


/// A media packet is handed out only once the configuration packet has
/// been: while the configuration packet waits, it goes first.
pub proof fn lemma_audio_media_after_config(
    config: ConfigPacket,
    datagrams: Seq<DatagramPacket>,
    next: u64,
    now: u64,
)
    ensures
        next_packet_of(config, datagrams, next, now) matches NextPacket::Ready(r)
            ==> (!r.config_packet ==> config is Sent),
{
}

/// Packets are skipped only after the buffering delay: a reassembled packet
/// that is not the expected one is handed out only once the delay after the
/// earliest completion has passed, and until then the receiver waits for
/// exactly that instant.
pub proof fn lemma_audio_gap_waits_for_delay(
    config: ConfigPacket,
    datagrams: Seq<DatagramPacket>,
    next: u64,
    now: u64,
)
    requires
        datagrams.len() > 0,
        datagrams[0].kypacket_seq != next,
        config is Sent || (config matches ConfigPacket::Ready(p) && p.kypacket_seq != next),
        min_instant_of(datagrams) <= INSTANT_LIMIT,
    ensures
        match next_packet_of(config, datagrams, next, now) {
            NextPacket::Ready(_) => min_instant_of(datagrams) + MAX_BUFFERING_MICROS <= now,
            NextPacket::Deadline(d) => d == min_instant_of(datagrams) + MAX_BUFFERING_MICROS
                && now < d,
            NextPacket::Nothing => false,
        },
{
}

/// Packets are handed out in increasing sequence order: where the
/// configuration packet comes before every reassembled packet, the packet
/// handed out after packet `s`, once `s + 1` is expected, comes after `s`.
pub proof fn lemma_audio_deliveries_increase(
    g0: PendingGroup,
    g1: PendingGroup,
    next: u64,
    now: u64,
    later: u64,
    s: u64,
    s2: u64,
)
    requires
        g0.wf(),
        g0.config() matches ConfigPacket::Ready(c) ==> forall|i: int|
            0 <= i < g0.datagrams().len() ==> c.kypacket_seq < #[trigger] g0.datagrams()[i].kypacket_seq,
        next_packet_of(g0.config(), g0.datagrams(), next, now) matches NextPacket::Ready(taken)
            && packet_taken(g0, g1, taken.config_packet),
        next_delivery(g0.config(), g0.datagrams(), next, now) matches Some(d) && d.0 == s,
        s < u64::MAX,
        next_delivery(g1.config(), g1.datagrams(), (s + 1) as u64, later) matches Some(e) && e.0
            == s2,
    ensures
        s < s2,
{
    let d0 = g0.datagrams();
    let d1 = g1.datagrams();
    if let NextPacket::Ready(taken) = next_packet_of(g0.config(), d0, next, now) {
        if taken.config_packet {
            assert(d1.len() > 0);
            assert(d1[0] == d0[0]);
        } else {
            assert(g0.config() is Sent);
            assert(d1.len() > 0);
            assert(d1[0] == d0[1]);
            assert(datagram_seqs(d0)[0] < datagram_seqs(d0)[1]);
        }
    }
}

/// Progress of the audio receiver: once the configuration packet has
/// arrived, the packet numbered `next` goes out as soon as the group holds
/// it, whatever the instant: the configuration packet if it is the one; else
/// the oldest reassembled packet, preceded by the configuration packet if
/// that still waits. Before the configuration packet arrives, or with no
/// packet to hand out, nothing goes out and there is no instant to wait for.
pub proof fn lemma_audio_expected_packet_goes_out(
    config: ConfigPacket,
    datagrams: Seq<DatagramPacket>,
    next: u64,
    now: u64,
)
    ensures
        (config matches ConfigPacket::Ready(p) && p.kypacket_seq == next) ==> next_packet_of(
            config,
            datagrams,
            next,
            now,
        ) == NextPacket::Ready(PacketRef { config_packet: true }),
        !(config is NotReceived) && datagrams.len() > 0 && datagrams[0].kypacket_seq == next
            ==> next_packet_of(config, datagrams, next, now) == NextPacket::Ready(
            PacketRef { config_packet: config is Ready },
        ),
        config is NotReceived ==> next_packet_of(config, datagrams, next, now) == NextPacket::Nothing,
        datagrams.len() == 0 && !(config matches ConfigPacket::Ready(p) && p.kypacket_seq == next)
            ==> next_packet_of(config, datagrams, next, now) == NextPacket::Nothing,
{
}

/// Gaps in the audio stream: where the configuration packet has arrived and
/// neither it nor the oldest reassembled packet is numbered `next`, what the
/// group holds goes out (the configuration packet first if it still waits)
/// exactly once the buffering delay after the earliest completion of a
/// reassembled packet has passed; until then the receiver waits for that
/// instant.
pub proof fn lemma_audio_gap_after_earliest_completion(
    config: ConfigPacket,
    datagrams: Seq<DatagramPacket>,
    next: u64,
    now: u64,
)
    requires
        !(config is NotReceived),
        !(config matches ConfigPacket::Ready(p) && p.kypacket_seq == next),
        datagrams.len() > 0,
        datagrams[0].kypacket_seq != next,
        forall|i: int| 0 <= i < datagrams.len() ==> #[trigger] datagrams[i].instant <= INSTANT_LIMIT,
    ensures
        exists|m: u64|
            #[trigger] earliest_instant(datagrams, m) && next_packet_of(config, datagrams, next, now)
                == if m + MAX_BUFFERING_MICROS <= now {
                NextPacket::Ready(PacketRef { config_packet: config is Ready })
            } else {
                NextPacket::Deadline((m + MAX_BUFFERING_MICROS) as u64)
            },
{
    lemma_min_instant_member(datagrams);
    let m = min_instant_of(datagrams);
    let i = choose|i: int| 0 <= i < datagrams.len() && datagrams[i].instant == m;
    assert(datagrams[i].instant <= INSTANT_LIMIT);
    assert(earliest_instant(datagrams, m));
    assert(next_packet_of(config, datagrams, next, now) == if m + MAX_BUFFERING_MICROS <= now {
        NextPacket::Ready(PacketRef { config_packet: config is Ready })
    } else {
        NextPacket::Deadline((m + MAX_BUFFERING_MICROS) as u64)
    });
}

/// `m` is the earliest instant at which one of the reassembled packets
/// `datagrams` was completed.
pub open spec fn earliest_instant(datagrams: Seq<DatagramPacket>, m: u64) -> bool {
    &&& exists|i: int| 0 <= i < datagrams.len() && #[trigger] datagrams[i].instant == m
    &&& forall|i: int| 0 <= i < datagrams.len() ==> m <= #[trigger] datagrams[i].instant
}

} // verus!
