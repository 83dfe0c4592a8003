//! Receive and send sides of the unreliable-FEC video protocol: each
//! configuration packet opens a group and travels on a reliable stream;
//! media packets travel as RaptorQ symbols in datagrams, tagged with their
//! group. Symbols are reassembled per packet, packets are kept per group,
//! and packets are handed out in sequence order, waiting a bounded time for
//! a missing one. Every group shares one receive budget.
use crate::audio_fec::{
    datagram_reservations, datagram_seqs, lemma_datagram_reservations_insert,
    lemma_datagram_reservations_remove, lemma_increasing_insert, lemma_increasing_remove,
    lemma_min_instant_member, min_instant_of, search_result, strictly_increasing, Action,
    ConfigPacket, DatagramPacket, NextPacket, PacketRef, StreamPacket, INSTANT_LIMIT,
    config_bytes, config_objects, unrolls_to,
};
use crate::av::{AVPacket, HEADER_SIZE};
use crate::seq::{unroll_fits, Sequencer};
use crate::serial::{append_bytes, av_record, writable_av};
use crate::wire::{be16, be32, be32_value, be_bytes_u16, be_bytes_u32, read_be_u32};
use crate::error::ProtocolError;
use crate::fec::{
    check_pending, invalid, invalid_message, lemma_video_reservation_bound, oti_problem,
    pending_admits, pending_limit, reservation, reservation_of, validate_oti, ObjectDecoder, Oti,
    PayloadId, MAX_PENDING_GROUPS, MAX_PENDING_OBJECTS, MAX_VIDEO_PAYLOAD, datagram_problem,
    early_eof_message, oti_of, parse_datagram, payload_id_of, read_stream_packet,
    stream_packet_read, decode_problem, symbol_key, decoded_object, media_packet_of, opt_bytes,
    media_object_problem, reassembly_completion, reassembly_problem, zero_counts,
};
use vstd::prelude::*;

verus! {

/// The symbols of one packet still being reassembled.
pub struct DatagramSegments {
    kypacket_seq: u64,
    decoder: ObjectDecoder,
    assembled: Option<Vec<u8>>,
}

impl DatagramSegments {
    pub closed spec fn seq(&self) -> u64 {
        self.kypacket_seq
    }

    pub closed spec fn spec_oti(&self) -> Oti {
        self.decoder.spec_oti()
    }

    pub closed spec fn complete(&self) -> bool {
        self.assembled is Some
    }

    /// The symbols fed so far, by key.
    pub closed spec fn received_keys(&self) -> Set<u64> {
        self.decoder.received_keys()
    }

    /// The distinct symbols fed so far, per source block.
    pub closed spec fn block_counts(&self) -> Seq<u32> {
        self.decoder.block_counts()
    }

    /// The symbols handed to the decoder so far, in order.
    pub closed spec fn fed(&self) -> Seq<(PayloadId, Seq<u8>)> {
        self.decoder.fed()
    }

    /// The bytes of the packet, once the decoder has returned them.
    pub closed spec fn assembled_bytes(&self) -> Option<Seq<u8>> {
        opt_bytes(self.assembled)
    }

    /// A well-formed, still incomplete packet of video symbols.
    pub closed spec fn wf(&self) -> bool {
        &&& self.decoder.wf()
        &&& oti_problem(self.decoder.spec_oti(), MAX_VIDEO_PAYLOAD as int) is None
    }

    pub fn new(kypacket_seq: u64, oti: Oti) -> (r: Result<Self, ProtocolError>)
        ensures
            match r {
                Ok(s) => s.wf() && !s.complete() && s.seq() == kypacket_seq && s.spec_oti() == oti
                    && s.received_keys() == Set::<u64>::empty() && s.block_counts() == zero_counts(
                    oti,
                ) && s.fed() == Seq::<(PayloadId, Seq<u8>)>::empty(),
                Err(e) => oti_problem(oti, MAX_VIDEO_PAYLOAD as int) matches Some(reason) && e.0@
                    == invalid_message(reason),
            },
    {
        match ObjectDecoder::new(oti, MAX_VIDEO_PAYLOAD) {
            Ok(decoder) => Ok(DatagramSegments { kypacket_seq, decoder, assembled: None }),
            Err(e) => Err(e),
        }
    }

    /// Feeds one symbol; the packet is complete once the decoder returns it.
    pub fn add_packet(&mut self, oti: Oti, payload_id: PayloadId, data: Vec<u8>) -> (r: Result<
        (),
        ProtocolError,
    >)
        requires
            old(self).wf(),
            payload_id.encoding_symbol_id < 0x100_0000,
        ensures
            final(self).wf(),
            final(self).seq() == old(self).seq(),
            final(self).spec_oti() == old(self).spec_oti(),
            r is Err ==> final(self).complete() == old(self).complete(),
            oti != old(self).spec_oti() ==> r is Err,
            match decode_problem(
                old(self).spec_oti(),
                old(self).received_keys(),
                old(self).block_counts(),
                oti,
                payload_id,
                data@.len() as int,
            ) {
                Some(reason) => (r matches Err(e) && e.0@ == invalid_message(reason))
                    && *final(self) == *old(self),
                None => {
                    &&& r is Ok
                    &&& final(self).seq() == old(self).seq()
                    &&& old(self).received_keys().contains(symbol_key(payload_id))
                        ==> final(self).assembled_bytes() is None
                        && final(self).received_keys() == old(self).received_keys()
                        && final(self).fed() == old(self).fed()
                    &&& !old(self).received_keys().contains(symbol_key(payload_id))
                        ==> final(self).received_keys()
                        == old(self).received_keys().insert(symbol_key(payload_id))
                        && final(self).fed() == old(self).fed().push((payload_id, data@))
                        && final(self).assembled_bytes() == decoded_object(oti, final(self).fed())
                },
            },
    {
        match self.decoder.decode(oti, payload_id, data) {
            Ok(assembled) => {
                self.assembled = assembled;
                Ok(())
            },
            Err(e) => Err(e),
        }
    }

    pub fn is_complete(&self) -> (b: bool)
        ensures
            b == self.complete(),
    {
        self.assembled.is_some()
    }

    /// The reassembled packet, completed at `now`: it must be a media packet
    /// whose header agrees with its length.
    pub fn assemble(self, now: u64) -> (r: Result<DatagramPacket, ProtocolError>)
        requires
            self.wf(),
        ensures
            !self.complete() ==> (r matches Err(e) && e.0@ == invalid_message(
                "incomplete video object"@,
            )),
            r matches Ok(d) ==> d.oti == self.spec_oti() && d.kypacket_seq == self.seq()
                && d.instant == now && d.packet is Media,
            match self.assembled_bytes() {
                None => r is Err,
                Some(data) => match media_object_problem(data) {
                    Some(reason) => r matches Err(e) && e.0@ == invalid_message(reason),
                    None => r matches Ok(d) && media_packet_of(d.packet, data),
                },
            },
    {
        let oti = self.decoder.oti();
        match self.assembled {
            None => Err(invalid("incomplete video object")),
            Some(data) => match crate::fec::media_packet(data) {
                Ok(packet) => Ok(
                    DatagramPacket { oti, packet, kypacket_seq: self.kypacket_seq, instant: now },
                ),
                Err(e) => Err(e),
            },
        }
    }
}


/// Why feeding a symbol of packet `seq` to the reassemblies `segments`
/// fails, if it does. The packet's reassembly is the one under way, or else
/// a new one, which needs valid transmission information and room in the
/// receive budget (`admits`).
pub open spec fn segments_problem(
    segments: Seq<DatagramSegments>,
    seq: u64,
    oti: Oti,
    id: PayloadId,
    data: Seq<u8>,
    admits: bool,
) -> Option<Seq<char>> {
    if segment_seqs(segments).contains(seq) {
        let s = segments[segment_seqs(segments).index_of(seq)];
        reassembly_problem(s.spec_oti(), s.received_keys(), s.block_counts(), s.fed(), oti, id, data)
    } else if oti_problem(oti, MAX_VIDEO_PAYLOAD as int) is Some {
        oti_problem(oti, MAX_VIDEO_PAYLOAD as int)
    } else if !admits {
        Some("pending receive budget exceeded"@)
    } else {
        reassembly_problem(oti, Set::empty(), zero_counts(oti), Seq::empty(), oti, id, data)
    }
}

/// The bytes of the media packet that a symbol of packet `seq` completes in
/// the reassemblies `segments`, if it completes one.
pub open spec fn segments_completion(
    segments: Seq<DatagramSegments>,
    seq: u64,
    oti: Oti,
    id: PayloadId,
    data: Seq<u8>,
    admits: bool,
) -> Option<Seq<u8>> {
    if segment_seqs(segments).contains(seq) {
        let s = segments[segment_seqs(segments).index_of(seq)];
        reassembly_completion(
            s.spec_oti(),
            s.received_keys(),
            s.block_counts(),
            s.fed(),
            oti,
            id,
            data,
        )
    } else if oti_problem(oti, MAX_VIDEO_PAYLOAD as int) is Some || !admits {
        None
    } else {
        reassembly_completion(oti, Set::empty(), zero_counts(oti), Seq::empty(), oti, id, data)
    }
}

/// The reassembled packets after a symbol of packet `seq`, received at
/// `now`, completed the media packet `completion` (or none).
pub open spec fn filed(
    before: Seq<DatagramPacket>,
    after: Seq<DatagramPacket>,
    completion: Option<Seq<u8>>,
    seq: u64,
    oti: Oti,
    now: u64,
) -> bool {
    match completion {
        None => after == before,
        Some(bytes) => exists|i: int, d: DatagramPacket|
            0 <= i <= before.len() && after == before.insert(i, d) && d.kypacket_seq == seq && d.oti
                == oti && d.instant == now && media_packet_of(d.packet, bytes),
    }
}

/// Where the sequence numbers increase, a packet's number gives its
/// position.
proof fn lemma_segment_position(s: Seq<DatagramSegments>, i: int)
    requires
        strictly_increasing(segment_seqs(s)),
        0 <= i < s.len(),
    ensures
        segment_seqs(s).contains(s[i].seq()),
        segment_seqs(s).index_of(s[i].seq()) == i,
{
    let q = segment_seqs(s);
    assert(q[i] == s[i].seq());
    let k = q.index_of(s[i].seq());
    assert(q[k] == s[i].seq());
}

/// The sequence numbers of packets being reassembled, in storage order.
pub open spec fn segment_seqs(s: Seq<DatagramSegments>) -> Seq<u64> {
    s.map_values(|d: DatagramSegments| d.seq())
}


/// Bytes reserved by the packets being reassembled.
pub open spec fn segment_reservations(s: Seq<DatagramSegments>) -> int
    decreases s.len(),
{
    if s.len() == 0 {
        0
    } else {
        segment_reservations(s.drop_last()) + reservation_of(s.last().spec_oti())
    }
}


/// The pending packets of one group of the video stream: the packets that
/// follow one configuration packet.
pub struct VideoGroup {
    group_seq: u64,
    config_packet: ConfigPacket,
    datagrams: Vec<DatagramPacket>,
    segments: Vec<DatagramSegments>,
}

/// Any prefix of the reservations of packets being reassembled is at most
/// their total, and not negative.
proof fn lemma_segment_prefix(s: Seq<DatagramSegments>, i: int)
    requires
        0 <= i <= s.len(),
        forall|k: int| 0 <= k < s.len() ==> #[trigger] s[k].wf(),
    ensures
        0 <= segment_reservations(s.subrange(0, i)) <= segment_reservations(s),
    decreases s.len(),
{
    if s.len() == 0 {
        assert(s.subrange(0, i) =~= s);
    } else {
        let d = s.drop_last();
        assert forall|k: int| 0 <= k < d.len() implies #[trigger] d[k].wf() by {
            assert(d[k] == s[k]);
        }
        assert(s[s.len() - 1].wf());
        lemma_video_reservation_bound(s.last().spec_oti());
        if i == s.len() {
            assert(s.subrange(0, i) =~= s);
            lemma_segment_prefix(d, d.len() as int);
            assert(d.subrange(0, d.len() as int) =~= d);
        } else {
            lemma_segment_prefix(d, i);
            assert(s.subrange(0, i) =~= d.subrange(0, i));
        }
    }
}

/// Any prefix of the reservations of reassembled packets is at most their
/// total, and not negative.
proof fn lemma_datagram_prefix(s: Seq<DatagramPacket>, i: int)
    requires
        0 <= i <= s.len(),
        forall|k: int|
            0 <= k < s.len() ==> oti_problem(#[trigger] s[k].oti, MAX_VIDEO_PAYLOAD as int) is None,
    ensures
        0 <= datagram_reservations(s.subrange(0, i)) <= datagram_reservations(s),
    decreases s.len(),
{
    if s.len() == 0 {
        assert(s.subrange(0, i) =~= s);
    } else {
        let d = s.drop_last();
        assert forall|k: int| 0 <= k < d.len() implies oti_problem(
            #[trigger] d[k].oti,
            MAX_VIDEO_PAYLOAD as int,
        ) is None by {
            assert(d[k] == s[k]);
        }
        assert(oti_problem(s[s.len() - 1].oti, MAX_VIDEO_PAYLOAD as int) is None);
        lemma_video_reservation_bound(s.last().oti);
        if i == s.len() {
            assert(s.subrange(0, i) =~= s);
            lemma_datagram_prefix(d, d.len() as int);
            assert(d.subrange(0, d.len() as int) =~= d);
        } else {
            lemma_datagram_prefix(d, i);
            assert(s.subrange(0, i) =~= d.subrange(0, i));
        }
    }
}

impl VideoGroup {
    pub closed spec fn group(&self) -> u64 {
        self.group_seq
    }

    pub closed spec fn config(&self) -> ConfigPacket {
        self.config_packet
    }

    pub closed spec fn datagrams(&self) -> Seq<DatagramPacket> {
        self.datagrams@
    }

    pub closed spec fn segments(&self) -> Seq<DatagramSegments> {
        self.segments@
    }

    /// The pending objects, as counted against the receive budget.
    pub open spec fn objects(&self) -> int {
        self.segments().len() + self.datagrams().len() + config_objects(self.config())
    }

    /// The pending bytes, as counted against the receive budget.
    pub open spec fn pending_bytes(&self) -> int {
        segment_reservations(self.segments()) + datagram_reservations(self.datagrams())
            + config_bytes(self.config())
    }

    /// With `others` objects of `other_bytes` bytes pending elsewhere, this
    /// group stays within the receive budget.
    pub open spec fn fits(&self, others: int, other_bytes: int) -> bool {
        &&& 0 <= others
        &&& 0 <= other_bytes
        &&& others + self.objects() <= MAX_PENDING_OBJECTS
        &&& other_bytes + self.pending_bytes() <= pending_limit(MAX_VIDEO_PAYLOAD as int)
    }

    pub closed spec fn wf(&self) -> bool {
        &&& strictly_increasing(datagram_seqs(self.datagrams@))
        &&& strictly_increasing(segment_seqs(self.segments@))
        &&& forall|i: int| 0 <= i < self.segments@.len() ==> #[trigger] self.segments@[i].wf()
        &&& forall|i: int|
            0 <= i < self.datagrams@.len() ==> oti_problem(
                #[trigger] self.datagrams@[i].oti,
                MAX_VIDEO_PAYLOAD as int,
            ) is None && self.datagrams@[i].instant <= INSTANT_LIMIT
        &&& self.objects() <= MAX_PENDING_OBJECTS
        &&& self.pending_bytes() <= pending_limit(MAX_VIDEO_PAYLOAD as int)
        &&& (self.config_packet matches ConfigPacket::Ready(p) ==> p.packet is Media)
    }

    pub fn new(group_seq: u64) -> (g: Self)
        ensures
            g.wf(),
            g.group() == group_seq,
            g.config() is NotReceived,
            g.datagrams().len() == 0,
            g.segments().len() == 0,
    {
        let g = VideoGroup {
            group_seq,
            config_packet: ConfigPacket::NotReceived,
            datagrams: Vec::new(),
            segments: Vec::new(),
        };
        assert(datagram_seqs(g.datagrams@) =~= Seq::<u64>::empty());
        assert(segment_seqs(g.segments@) =~= Seq::<u64>::empty());
        g
    }

    /// The group's sequence number.
    pub fn group_seq(&self) -> (s: u64)
        ensures
            s == self.group(),
    {
        self.group_seq
    }

    proof fn lemma_bytes_bound(&self)
        requires
            self.wf(),
        ensures
            0 <= segment_reservations(self.segments@),
            0 <= datagram_reservations(self.datagrams@),
            0 <= config_bytes(self.config()),
            0 <= self.pending_bytes() <= pending_limit(MAX_VIDEO_PAYLOAD as int),
            0 <= self.objects(),
    {
        lemma_segment_prefix(self.segments@, 0);
        lemma_datagram_prefix(self.datagrams@, 0);
        assert(self.segments@.subrange(0, 0) =~= Seq::<DatagramSegments>::empty());
        assert(self.datagrams@.subrange(0, 0) =~= Seq::<DatagramPacket>::empty());
    }

    /// The objects and bytes this group holds against the receive budget.
    pub fn usage(&self) -> (u: (usize, usize))
        requires
            self.wf(),
        ensures
            u.0 == self.objects(),
            u.1 == self.pending_bytes(),
    {
        proof {
            self.lemma_bytes_bound();
        }
        let mut objects = self.segments.len() + self.datagrams.len();
        let mut bytes: usize = 0;
        let mut i: usize = 0;
        while i < self.segments.len()
            invariant
                self.wf(),
                i <= self.segments@.len(),
                bytes == segment_reservations(self.segments@.subrange(0, i as int)),
                0 <= segment_reservations(self.segments@) <= pending_limit(MAX_VIDEO_PAYLOAD as int),
            decreases self.segments@.len() - i,
        {
            assert(self.segments@.subrange(0, i + 1).drop_last() =~= self.segments@.subrange(
                0,
                i as int,
            ));
            assert(self.segments@[i as int].wf());
            proof {
                lemma_video_reservation_bound(self.segments@[i as int].spec_oti());
                lemma_segment_prefix(self.segments@, i + 1);
            }
            bytes = bytes + reservation(&self.segments[i].decoder.oti());
            i = i + 1;
        }
        assert(self.segments@.subrange(0, self.segments@.len() as int) =~= self.segments@);
        let mut j: usize = 0;
        while j < self.datagrams.len()
            invariant
                self.wf(),
                j <= self.datagrams@.len(),
                bytes == segment_reservations(self.segments@) + datagram_reservations(
                    self.datagrams@.subrange(0, j as int),
                ),
                0 <= segment_reservations(self.segments@),
                0 <= datagram_reservations(self.datagrams@),
                segment_reservations(self.segments@) + datagram_reservations(self.datagrams@)
                    <= pending_limit(MAX_VIDEO_PAYLOAD as int),
            decreases self.datagrams@.len() - j,
        {
            assert(self.datagrams@.subrange(0, j + 1).drop_last() =~= self.datagrams@.subrange(
                0,
                j as int,
            ));
            proof {
                assert(oti_problem(self.datagrams@[j as int].oti, MAX_VIDEO_PAYLOAD as int) is None);
                lemma_video_reservation_bound(self.datagrams@[j as int].oti);
                lemma_datagram_prefix(self.datagrams@, j + 1);
            }
            bytes = bytes + reservation(&self.datagrams[j].oti);
            j = j + 1;
        }
        assert(self.datagrams@.subrange(0, self.datagrams@.len() as int) =~= self.datagrams@);
        match &self.config_packet {
            ConfigPacket::Ready(p) => match &p.packet {
                AVPacket::Media(media) => {
                    objects = objects + 1;
                    bytes = bytes + media.payload.len();
                },
                _ => {},
            },
            _ => {},
        }
        (objects, bytes)
    }

    /// Whether one more object of `additional` bytes fits in the receive
    /// budget, with `others` objects of `other_bytes` bytes pending in other
    /// groups.
    pub fn check_capacity(&self, others: usize, other_bytes: usize, additional: usize) -> (r: Result<
        (),
        ProtocolError,
    >)
        requires
            self.wf(),
            self.fits(others as int, other_bytes as int),
        ensures
            r is Ok <==> pending_admits(
                others + self.objects(),
                other_bytes + self.pending_bytes(),
                additional as int,
                MAX_VIDEO_PAYLOAD as int,
            ),
            r matches Err(e) ==> e.0@ == invalid_message("pending receive budget exceeded"@),
    {
        let (objects, bytes) = self.usage();
        check_pending(others + objects, other_bytes + bytes, additional, MAX_VIDEO_PAYLOAD)
    }
}



proof fn lemma_segment_reservations_remove(s: Seq<DatagramSegments>, i: int)
    requires
        0 <= i < s.len(),
    ensures
        segment_reservations(s) == segment_reservations(s.remove(i)) + reservation_of(
            s[i].spec_oti(),
        ),
    decreases s.len(),
{
    if i == s.len() - 1 {
        assert(s.remove(i) =~= s.drop_last());
    } else {
        lemma_segment_reservations_remove(s.drop_last(), i);
        assert(s.remove(i).drop_last() =~= s.drop_last().remove(i));
        assert(s.remove(i).last() == s.last());
    }
}

proof fn lemma_segment_reservations_insert(s: Seq<DatagramSegments>, i: int, x: DatagramSegments)
    requires
        0 <= i <= s.len(),
    ensures
        segment_reservations(s.insert(i, x)) == segment_reservations(s) + reservation_of(
            x.spec_oti(),
        ),
{
    lemma_segment_reservations_remove(s.insert(i, x), i);
    assert(s.insert(i, x).remove(i) =~= s);
}

proof fn lemma_segment_reservations_update(s: Seq<DatagramSegments>, i: int, x: DatagramSegments)
    requires
        0 <= i < s.len(),
        x.spec_oti() == s[i].spec_oti(),
    ensures
        segment_reservations(s.update(i, x)) == segment_reservations(s),
{
    lemma_segment_reservations_remove(s.update(i, x), i);
    lemma_segment_reservations_remove(s, i);
    assert(s.update(i, x).remove(i) =~= s.remove(i));
}


impl VideoGroup {
    /// The position of the reassembled packet `seq`.
    fn find_datagram(&self, seq: u64) -> (r: Result<usize, usize>)
        requires
            strictly_increasing(datagram_seqs(self.datagrams@)),
        ensures
            search_result(datagram_seqs(self.datagrams@), seq, r),
    {
        let mut i: usize = 0;
        while i < self.datagrams.len()
            invariant
                i <= self.datagrams@.len(),
                forall|j: int| 0 <= j < i ==> datagram_seqs(self.datagrams@)[j] < seq,
                strictly_increasing(datagram_seqs(self.datagrams@)),
            decreases self.datagrams@.len() - i,
        {
            let s = self.datagrams[i].kypacket_seq;
            if s == seq {
                return Ok(i);
            }
            if s > seq {
                assert forall|j: int| i <= j < self.datagrams@.len() implies datagram_seqs(
                    self.datagrams@,
                )[j] > seq by {
                    if j > i {
                        assert(datagram_seqs(self.datagrams@)[i as int] < datagram_seqs(
                            self.datagrams@,
                        )[j]);
                    }
                }
                return Err(i);
            }
            i = i + 1;
        }
        Err(i)
    }

    /// The position of the packet `seq` being reassembled.
    fn find_segments(&self, seq: u64) -> (r: Result<usize, usize>)
        requires
            strictly_increasing(segment_seqs(self.segments@)),
        ensures
            search_result(segment_seqs(self.segments@), seq, r),
    {
        let mut i: usize = 0;
        while i < self.segments.len()
            invariant
                i <= self.segments@.len(),
                forall|j: int| 0 <= j < i ==> segment_seqs(self.segments@)[j] < seq,
                strictly_increasing(segment_seqs(self.segments@)),
            decreases self.segments@.len() - i,
        {
            let s = self.segments[i].kypacket_seq;
            if s == seq {
                return Ok(i);
            }
            if s > seq {
                assert forall|j: int| i <= j < self.segments@.len() implies segment_seqs(
                    self.segments@,
                )[j] > seq by {
                    if j > i {
                        assert(segment_seqs(self.segments@)[i as int] < segment_seqs(
                            self.segments@,
                        )[j]);
                    }
                }
                return Err(i);
            }
            i = i + 1;
        }
        Err(i)
    }
}



/// Why a packet from the reliable stream is refused, if it is: it must be the
/// first configuration packet, and it must fit in the receive budget.
pub open spec fn config_problem(config: ConfigPacket, objects: int, bytes: int, packet: AVPacket) -> Option<
    Seq<char>,
> {
    match packet {
        AVPacket::Media(m) => if !m.header.is_config || !(config is NotReceived) {
            Some("invalid or duplicate video config"@)
        } else if !pending_admits(objects, bytes, m.payload@.len() as int, MAX_VIDEO_PAYLOAD as int) {
            Some("pending receive budget exceeded"@)
        } else {
            None
        },
        _ => Some("expected video config"@),
    }
}

/// The segments left once those of packets before `until` are dropped.
pub open spec fn segments_from(s: Seq<DatagramSegments>, until: u64, rest: Seq<DatagramSegments>) -> bool {
    exists|k: int|
        0 <= k <= s.len() && rest == s.subrange(k, s.len() as int) && (forall|j: int|
            0 <= j < k ==> #[trigger] segment_seqs(s)[j] < until) && (forall|j: int|
            k <= j < s.len() ==> #[trigger] segment_seqs(s)[j] >= until)
}

/// `g` is group `g0` once its next packet is taken out: its configuration
/// packet, which is then sent, or its oldest reassembled packet, with the
/// reassemblies of the packets before that one dropped.
pub open spec fn packet_taken(g0: VideoGroup, g: VideoGroup, config_packet: bool) -> bool {
    &&& g.group() == g0.group()
    &&& if config_packet {
        g.config() == ConfigPacket::Sent && g.datagrams() == g0.datagrams() && g.segments()
            == g0.segments()
    } else {
        &&& g.config() == g0.config()
        &&& g.datagrams() == g0.datagrams().drop_first()
        &&& segments_from(g0.segments(), g0.datagrams()[0].kypacket_seq, g.segments())
    }
}

impl VideoGroup {
    /// Accepts the configuration packet from the reliable stream.
    pub fn insert_stream_packet(
        &mut self,
        others: usize,
        other_bytes: usize,
        kypacket_seq: u64,
        packet: AVPacket,
    ) -> (r: Result<(), ProtocolError>)
        requires
            old(self).wf(),
            old(self).fits(others as int, other_bytes as int),
        ensures
            final(self).wf(),
            final(self).fits(others as int, other_bytes as int),
            final(self).group() == old(self).group(),
            final(self).datagrams() == old(self).datagrams(),
            final(self).segments() == old(self).segments(),
            match config_problem(
                old(self).config(),
                others + old(self).objects(),
                other_bytes + old(self).pending_bytes(),
                packet,
            ) {
                None => r is Ok && final(self).config() == ConfigPacket::Ready(
                    StreamPacket { packet, kypacket_seq },
                ),
                Some(reason) => (r matches Err(e) && e.0@ == invalid_message(reason)) && final(self).config() == old(self).config(),
            },
    {
        let size = match &packet {
            AVPacket::Media(media) => {
                if !media.header.is_config || !self.config_packet.is_none() {
                    return Err(invalid("invalid or duplicate video config"));
                }
                media.payload.len()
            },
            _ => {
                return Err(invalid("expected video config"));
            },
        };
        match self.check_capacity(others, other_bytes, size) {
            Ok(()) => {},
            Err(e) => {
                return Err(e);
            },
        }
        self.config_packet = ConfigPacket::Ready(StreamPacket { packet, kypacket_seq });
        Ok(())
    }

    /// Files a reassembled packet in sequence order; a packet already filed
    /// is ignored.
    fn insert_datagram_packet(&mut self, packet: DatagramPacket)
        requires
            old(self).wf(),
            oti_problem(packet.oti, MAX_VIDEO_PAYLOAD as int) is None,
            packet.instant <= INSTANT_LIMIT,
            old(self).objects() < MAX_PENDING_OBJECTS,
            old(self).pending_bytes() + reservation_of(packet.oti) <= pending_limit(
                MAX_VIDEO_PAYLOAD as int,
            ),
        ensures
            final(self).wf(),
            final(self).group() == old(self).group(),
            final(self).config() == old(self).config(),
            final(self).segments() == old(self).segments(),
            final(self).objects() <= old(self).objects() + 1,
            final(self).pending_bytes() <= old(self).pending_bytes() + reservation_of(packet.oti),
            datagram_seqs(old(self).datagrams()).contains(packet.kypacket_seq) ==> final(self).datagrams() == old(self).datagrams(),
            !datagram_seqs(old(self).datagrams()).contains(packet.kypacket_seq) ==> exists|i: int|
                0 <= i <= old(self).datagrams().len() && final(self).datagrams() == old(self).datagrams().insert(i, packet),
    {
        match self.find_datagram(packet.kypacket_seq) {
            Ok(i) => {
                assert(datagram_seqs(self.datagrams@)[i as int] == packet.kypacket_seq);
            },
            Err(i) => {
                let ghost before = self.datagrams@;
                proof {
                    lemma_datagram_reservations_insert(before, i as int, packet);
                    lemma_increasing_insert(datagram_seqs(before), i, packet.kypacket_seq);
                    assert(datagram_seqs(before.insert(i as int, packet)) =~= datagram_seqs(
                        before,
                    ).insert(i as int, packet.kypacket_seq));
                    if datagram_seqs(before).contains(packet.kypacket_seq) {
                        let j = datagram_seqs(before).index_of(packet.kypacket_seq);
                        assert(datagram_seqs(before)[j] == packet.kypacket_seq);
                    }
                }
                self.datagrams.insert(i, packet);
                proof {
                    assert forall|k: int| 0 <= k < self.datagrams@.len() implies oti_problem(
                        #[trigger] self.datagrams@[k].oti,
                        MAX_VIDEO_PAYLOAD as int,
                    ) is None && self.datagrams@[k].instant <= INSTANT_LIMIT by {
                        if k < i {
                            assert(self.datagrams@[k] == before[k]);
                        } else if k > i {
                            assert(self.datagrams@[k] == before[k - 1]);
                        }
                    }
                }
            },
        }
    }

    /// Drops the packets still being reassembled whose sequence number is
    /// before `until`.
    pub fn drop_expired_segments(&mut self, until: u64)
        requires
            old(self).wf(),
        ensures
            final(self).wf(),
            final(self).group() == old(self).group(),
            final(self).config() == old(self).config(),
            final(self).datagrams() == old(self).datagrams(),
            final(self).objects() <= old(self).objects(),
            final(self).pending_bytes() <= old(self).pending_bytes(),
            segments_from(old(self).segments(), until, final(self).segments()),
    {
        let ghost start = self.segments@;
        let ghost mut k: int = 0;
        while self.segments.len() > 0 && self.segments[0].kypacket_seq < until
            invariant
                self.wf(),
                0 <= k <= start.len(),
                self.segments@ == start.subrange(k, start.len() as int),
                self.config() == old(self).config(),
                self.datagrams() == old(self).datagrams(),
                self.group_seq == old(self).group_seq,
                self.objects() <= old(self).objects(),
                self.pending_bytes() <= old(self).pending_bytes(),
                forall|j: int| 0 <= j < k ==> #[trigger] segment_seqs(start)[j] < until,
                strictly_increasing(segment_seqs(start)),
            decreases self.segments@.len(),
        {
            let ghost before = self.segments@;
            proof {
                lemma_segment_reservations_remove(before, 0);
                lemma_increasing_remove(segment_seqs(before), 0);
                assert(before[0].wf());
                lemma_video_reservation_bound(before[0].spec_oti());
                assert(segment_seqs(before.remove(0)) =~= segment_seqs(before).remove(0));
                assert(segment_seqs(start)[k] == before[0].seq());
            }
            self.segments.remove(0);
            proof {
                assert forall|j: int| 0 <= j < self.segments@.len() implies #[trigger] self.segments@[j].wf() by {
                    assert(self.segments@[j] == before[j + 1]);
                }
                k = k + 1;
                assert(self.segments@ =~= start.subrange(k, start.len() as int));

            }
        }
        proof {
            assert forall|j: int| k <= j < start.len() implies #[trigger] segment_seqs(start)[j] >= until by {
                if j > k {
                    assert(segment_seqs(start)[k] < segment_seqs(start)[j]);
                }
                assert(self.segments@[0] == start[k]);
            }
        }
    }

    /// The earliest completion instant of the reassembled packets.
    pub fn min_instant(&self) -> (m: Option<u64>)
        ensures
            self.datagrams().len() == 0 ==> m is None,
            self.datagrams().len() > 0 ==> m == Some(min_instant_of(self.datagrams())),
    {
        if self.datagrams.len() == 0 {
            return None;
        }
        let mut m = self.datagrams[0].instant;
        let mut i: usize = 1;
        assert(self.datagrams@.subrange(0, 1).len() == 1);
        while i < self.datagrams.len()
            invariant
                1 <= i <= self.datagrams@.len(),
                m == min_instant_of(self.datagrams@.subrange(0, i as int)),
            decreases self.datagrams@.len() - i,
        {
            proof {
                let t = self.datagrams@.subrange(0, i + 1);
                assert(t.drop_last() =~= self.datagrams@.subrange(0, i as int));
                assert(t.last() == self.datagrams@[i as int]);
            }
            if self.datagrams[i].instant < m {
                m = self.datagrams[i].instant;
            }
            i = i + 1;
        }
        assert(self.datagrams@.subrange(0, self.datagrams@.len() as int) =~= self.datagrams@);
        Some(m)
    }

    /// Takes out the packet that is next in this group: the configuration
    /// packet, or the oldest reassembled packet, dropping the reassembly of
    /// every packet before it.
    pub fn take_packet(&mut self, config_packet: bool) -> (r: (u64, AVPacket))
        requires
            old(self).wf(),
            config_packet ==> old(self).config() is Ready,
            !config_packet ==> old(self).datagrams().len() > 0,
        ensures
            final(self).wf(),
            final(self).objects() <= old(self).objects(),
            final(self).pending_bytes() <= old(self).pending_bytes(),
            config_packet ==> (old(self).config() matches ConfigPacket::Ready(p) && r == (
                p.kypacket_seq,
                p.packet,
            )),
            !config_packet ==> r == (
                old(self).datagrams()[0].kypacket_seq,
                old(self).datagrams()[0].packet,
            ),
            packet_taken(*old(self), *final(self), config_packet),
    {
        if config_packet {
            let config_packet = self.config_packet.consume();
            (config_packet.kypacket_seq, config_packet.packet)
        } else {
            let ghost before = self.datagrams@;
            proof {
                lemma_datagram_reservations_remove(before, 0);
                lemma_increasing_remove(datagram_seqs(before), 0);
                assert(datagram_seqs(before.remove(0)) =~= datagram_seqs(before).remove(0));
                assert(before.remove(0) =~= before.drop_first());
                assert(oti_problem(before[0].oti, MAX_VIDEO_PAYLOAD as int) is None);
                lemma_video_reservation_bound(before[0].oti);
            }
            let datagram = self.datagrams.remove(0);
            proof {
                assert forall|k: int| 0 <= k < self.datagrams@.len() implies oti_problem(
                    #[trigger] self.datagrams@[k].oti,
                    MAX_VIDEO_PAYLOAD as int,
                ) is None && self.datagrams@[k].instant <= INSTANT_LIMIT by {
                    assert(self.datagrams@[k] == before[k + 1]);
                }
            }
            self.drop_expired_segments(datagram.kypacket_seq);
            (datagram.kypacket_seq, datagram.packet)
        }
    }
}


/// Replacing the segments of packet `seq` leaves those of other packets.
proof fn lemma_update_keeps_others(p: Seq<DatagramSegments>, i: int, y: DatagramSegments, seq: u64)
    requires
        0 <= i < p.len(),
        p[i].seq() == seq,
        y.seq() == seq,
    ensures
        forall|x: DatagramSegments|
            x.seq() != seq ==> (#[trigger] p.update(i, y).contains(x) <==> p.contains(x)),
{
    assert forall|x: DatagramSegments| x.seq() != seq implies (#[trigger] p.update(i, y).contains(
        x,
    ) <==> p.contains(x)) by {
        if p.update(i, y).contains(x) {
            let k = p.update(i, y).index_of(x);
            assert(k != i);
            assert(p[k] == x);
        }
        if p.contains(x) {
            let k = p.index_of(x);
            assert(k != i);
            assert(p.update(i, y)[k] == x);
        }
    }
}

/// What feeding one symbol of packet `seq` (transmission information `oti`,
/// received at `now`) does to a group that held the configuration state
/// `config`, the reassembled packets `datagrams` and the reassemblies
/// `segments`, and is `g` afterwards, with `others` objects of `other_bytes`
/// bytes pending in other groups; `r` is the outcome. A symbol of a packet
/// already reassembled is only checked against that packet's transmission
/// information. Otherwise the packet may be filed as reassembled, no other
/// reassembly changes, and a new reassembly is refused for invalid
/// transmission information or a full budget.
pub open spec fn symbol_fed(
    config: ConfigPacket,
    datagrams: Seq<DatagramPacket>,
    segments: Seq<DatagramSegments>,
    g: VideoGroup,
    others: int,
    other_bytes: int,
    seq: u64,
    oti: Oti,
    id: PayloadId,
    data: Seq<u8>,
    now: u64,
    r: Result<(), ProtocolError>,
) -> bool {
    let unchanged = g.datagrams() == datagrams && g.segments() == segments;
    let objects = segments.len() + datagrams.len() + config_objects(config);
    let bytes = segment_reservations(segments) + datagram_reservations(datagrams) + config_bytes(
        config,
    );
    &&& g.config() == config
    &&& forall|i: int|
        0 <= i < datagrams.len() && datagrams[i].kypacket_seq == seq ==> unchanged && (r is Ok
            <==> datagrams[i].oti == oti) && (r matches Err(e) ==> e.0@ == invalid_message(
            "OTI changed for completed video object"@,
        ))
    &&& !datagram_seqs(datagrams).contains(seq) ==> {
        &&& g.datagrams() == datagrams || exists|i: int, d: DatagramPacket|
            0 <= i <= datagrams.len() && g.datagrams() == datagrams.insert(i, d) && d.kypacket_seq
                == seq && d.oti == oti && d.instant == now && d.packet is Media
        &&& forall|x: DatagramSegments|
            x.seq() != seq ==> (g.segments().contains(x) <==> segments.contains(x))
        &&& !segment_seqs(segments).contains(seq) ==> match oti_problem(
            oti,
            MAX_VIDEO_PAYLOAD as int,
        ) {
            Some(reason) => (r matches Err(e) && e.0@ == invalid_message(reason)) && unchanged,
            None => !pending_admits(
                others + objects,
                other_bytes + bytes,
                reservation_of(oti),
                MAX_VIDEO_PAYLOAD as int,
            ) ==> (r matches Err(e) && e.0@ == invalid_message("pending receive budget exceeded"@))
                && unchanged,
        }
        &&& match segments_problem(
            segments,
            seq,
            oti,
            id,
            data,
            pending_admits(
                others + objects,
                other_bytes + bytes,
                reservation_of(oti),
                MAX_VIDEO_PAYLOAD as int,
            ),
        ) {
            Some(reason) => r matches Err(e) && e.0@ == invalid_message(reason),
            None => r is Ok,
        }
        &&& filed(
            datagrams,
            g.datagrams(),
            segments_completion(
                segments,
                seq,
                oti,
                id,
                data,
                pending_admits(
                    others + objects,
                    other_bytes + bytes,
                    reservation_of(oti),
                    MAX_VIDEO_PAYLOAD as int,
                ),
            ),
            seq,
            oti,
            now,
        )
    }
}

impl VideoGroup {
    /// The position of the packet `seq` among those being reassembled,
    /// starting its reassembly if needed: its transmission information must
    /// be valid and its reservation must fit in the receive budget.
    fn prepare_datagram_segments(&mut self, others: usize, other_bytes: usize, seq: u64, oti: Oti) -> (r:
        Result<usize, ProtocolError>)
        requires
            old(self).wf(),
            old(self).fits(others as int, other_bytes as int),
        ensures
            final(self).wf(),
            final(self).fits(others as int, other_bytes as int),
            final(self).group() == old(self).group(),
            final(self).config() == old(self).config(),
            final(self).datagrams() == old(self).datagrams(),
            segment_seqs(old(self).segments()).contains(seq) ==> r is Ok && final(self).segments()
                == old(self).segments(),
            match r {
                Ok(i) => i < final(self).segments().len() && final(self).segments()[i as int].seq()
                    == seq && (!segment_seqs(old(self).segments()).contains(seq) ==> (i
                    <= old(self).segments().len() && final(self).segments() == old(self).segments().insert(
                    i as int,
                    final(self).segments()[i as int],
                ) && final(self).segments()[i as int].spec_oti() == oti
                    && final(self).segments()[i as int].received_keys() == Set::<u64>::empty()
                    && final(self).segments()[i as int].block_counts() == zero_counts(oti)
                    && final(self).segments()[i as int].fed() == Seq::<(PayloadId, Seq<u8>)>::empty()
                    && oti_problem(
                    oti,
                    MAX_VIDEO_PAYLOAD as int,
                ) is None && pending_admits(
                    others + old(self).objects(),
                    other_bytes + old(self).pending_bytes(),
                    reservation_of(oti),
                    MAX_VIDEO_PAYLOAD as int,
                ))),
                Err(e) => *final(self) == *old(self) && !segment_seqs(old(self).segments()).contains(
                    seq,
                ) && match oti_problem(oti, MAX_VIDEO_PAYLOAD as int) {
                    Some(reason) => e.0@ == invalid_message(reason),
                    None => !pending_admits(
                        others + old(self).objects(),
                        other_bytes + old(self).pending_bytes(),
                        reservation_of(oti),
                        MAX_VIDEO_PAYLOAD as int,
                    ) && e.0@ == invalid_message("pending receive budget exceeded"@),
                },
            },
    {
        match self.find_segments(seq) {
            Ok(i) => Ok(i),
            Err(i) => {
                proof {
                    if segment_seqs(self.segments@).contains(seq) {
                        let j = segment_seqs(self.segments@).index_of(seq);
                        assert(segment_seqs(self.segments@)[j] == seq);
                    }
                }
                match validate_oti(&oti, MAX_VIDEO_PAYLOAD) {
                    Ok(()) => {},
                    Err(e) => {
                        return Err(e);
                    },
                }
                proof {
                    lemma_video_reservation_bound(oti);
                }
                match self.check_capacity(others, other_bytes, reservation(&oti)) {
                    Ok(()) => {},
                    Err(e) => {
                        return Err(e);
                    },
                }
                let segments = match DatagramSegments::new(seq, oti) {
                    Ok(s) => s,
                    Err(e) => {
                        return Err(e);
                    },
                };
                let ghost before = self.segments@;
                proof {
                    lemma_segment_reservations_insert(before, i as int, segments);
                    lemma_increasing_insert(segment_seqs(before), i, seq);
                    assert(segment_seqs(before.insert(i as int, segments)) =~= segment_seqs(
                        before,
                    ).insert(i as int, seq));
                }
                self.segments.insert(i, segments);
                proof {
                    assert forall|k: int| 0 <= k < self.segments@.len() implies #[trigger] self.segments@[k].wf() by {
                        if k < i {
                            assert(self.segments@[k] == before[k]);
                        } else if k > i {
                            assert(self.segments@[k] == before[k - 1]);
                        }
                    }
                }
                Ok(i)
            },
        }
    }

    /// Feeds one symbol of packet `seq`, received at `now`. The symbol of a
    /// packet already reassembled is only checked against that packet's
    /// transmission information. Otherwise it goes to the packet's
    /// reassembly, started if needed; once the packet is complete it is filed
    /// among the reassembled ones.
    #[verifier::spinoff_prover]
    #[verifier::rlimit(60)]
    pub fn insert_datagram(
        &mut self,
        others: usize,
        other_bytes: usize,
        seq: u64,
        oti: Oti,
        payload_id: PayloadId,
        data: Vec<u8>,
        now: u64,
    ) -> (r: Result<(), ProtocolError>)
        requires
            old(self).wf(),
            old(self).fits(others as int, other_bytes as int),
            payload_id.encoding_symbol_id < 0x100_0000,
            now <= INSTANT_LIMIT,
        ensures
            final(self).wf(),
            final(self).fits(others as int, other_bytes as int),
            final(self).group() == old(self).group(),
            symbol_fed(
                old(self).config(),
                old(self).datagrams(),
                old(self).segments(),
                *final(self),
                others as int,
                other_bytes as int,
                seq,
                oti,
                payload_id,
                data@,
                now,
                r,
            ),
    {
        let ghost sym = data@;
        match self.find_datagram(seq) {
            Ok(i) => {
                proof {
                    assert forall|k: int|
                        0 <= k < self.datagrams@.len() && self.datagrams@[k].kypacket_seq
                            == seq implies k == i by {
                        if k < i {
                            assert(datagram_seqs(self.datagrams@)[k] < datagram_seqs(
                                self.datagrams@,
                            )[i as int]);
                        } else if k > i {
                            assert(datagram_seqs(self.datagrams@)[i as int] < datagram_seqs(
                                self.datagrams@,
                            )[k]);
                        }
                    }
                }
                if self.datagrams[i].oti != oti {
                    return Err(invalid("OTI changed for completed video object"));
                }
                return Ok(());
            },
            Err(_) => {},
        }
        let ghost old_datagrams = self.datagrams@;
        proof {
            assert forall|i: int| 0 <= i < old_datagrams.len() implies old_datagrams[i].kypacket_seq
                != seq by {
                assert(datagram_seqs(old_datagrams)[i] == old_datagrams[i].kypacket_seq);
            }
            if datagram_seqs(old_datagrams).contains(seq) {
                let j = datagram_seqs(old_datagrams).index_of(seq);
                assert(datagram_seqs(old_datagrams)[j] == seq);
            }
        }
        let index = match self.prepare_datagram_segments(others, other_bytes, seq, oti) {
            Ok(index) => index,
            Err(e) => {
                return Err(e);
            },
        };
        let ghost prepared = self.segments@;
        let ghost start = old(self).segments();
        let ghost cur = prepared[index as int];
        let ghost admits = pending_admits(
            others + old(self).objects(),
            other_bytes + old(self).pending_bytes(),
            reservation_of(oti),
            MAX_VIDEO_PAYLOAD as int,
        );
        proof {
            if segment_seqs(start).contains(seq) {
                lemma_segment_position(start, index as int);
            }
            assert(segments_problem(start, seq, oti, payload_id, sym, admits) == reassembly_problem(
                cur.spec_oti(),
                cur.received_keys(),
                cur.block_counts(),
                cur.fed(),
                oti,
                payload_id,
                sym,
            ));
            assert(segments_completion(start, seq, oti, payload_id, sym, admits)
                == reassembly_completion(
                cur.spec_oti(),
                cur.received_keys(),
                cur.block_counts(),
                cur.fed(),
                oti,
                payload_id,
                sym,
            ));
        }
        proof {
            assert forall|x: DatagramSegments| x.seq() != seq implies (prepared.contains(x)
                <==> start.contains(x)) by {
                if !segment_seqs(start).contains(seq) {
                    if prepared.contains(x) {
                        let k = prepared.index_of(x);
                        if k < index {
                            assert(prepared[k] == start[k]);
                        } else {
                            assert(k != index);
                            assert(prepared[k] == start[k - 1]);
                        }
                    }
                    if start.contains(x) {
                        let k = start.index_of(x);
                        if k < index {
                            assert(prepared[k] == start[k]);
                        } else {
                            assert(prepared[k + 1] == start[k]);
                        }
                    }
                }
            }
            lemma_segment_reservations_remove(prepared, index as int);
            lemma_increasing_remove(segment_seqs(prepared), index as int);
            assert(segment_seqs(prepared.remove(index as int)) =~= segment_seqs(prepared).remove(
                index as int,
            ));
            assert(prepared[index as int].wf());
            lemma_video_reservation_bound(prepared[index as int].spec_oti());
        }
        let mut segments = self.segments.remove(index);
        proof {
            assert forall|k: int| 0 <= k < self.segments@.len() implies #[trigger] self.segments@[k].wf() by {
                if k < index {
                    assert(self.segments@[k] == prepared[k]);
                } else {
                    assert(self.segments@[k] == prepared[k + 1]);
                }
            }
            assert forall|x: DatagramSegments| x.seq() != seq implies (self.segments@.contains(x)
                <==> prepared.contains(x)) by {
                if self.segments@.contains(x) {
                    let k = self.segments@.index_of(x);
                    if k < index {
                        assert(prepared[k] == self.segments@[k]);
                    } else {
                        assert(prepared[k + 1] == self.segments@[k]);
                    }
                }
                if prepared.contains(x) {
                    let k = prepared.index_of(x);
                    assert(k != index);
                    if k < index {
                        assert(self.segments@[k] == prepared[k]);
                    } else {
                        assert(self.segments@[k - 1] == prepared[k]);
                    }
                }
            }
        }
        match segments.add_packet(oti, payload_id, data) {
            Ok(()) => {},
            Err(e) => {
                proof {
                    lemma_update_keeps_others(prepared, index as int, segments, seq);
                    lemma_segment_reservations_update(prepared, index as int, segments);
                    assert(prepared.remove(index as int).insert(index as int, segments)
                        =~= prepared.update(index as int, segments));
                    assert(segment_seqs(prepared.update(index as int, segments)) =~= segment_seqs(
                        prepared,
                    ));
                }
                self.segments.insert(index, segments);
                proof {
                    assert(self.segments@ =~= prepared.update(index as int, segments));
                    assert forall|k: int| 0 <= k < self.segments@.len() implies #[trigger] self.segments@[k].wf() by {
                        if k != index {
                            assert(self.segments@[k] == prepared[k]);
                        }
                    }
                }
                return Err(e);
            },
        }
        if segments.is_complete() {
            match segments.assemble(now) {
                Ok(packet) => {
                    self.insert_datagram_packet(packet);
                    Ok(())
                },
                Err(e) => Err(e),
            }
        } else {
            proof {
                lemma_update_keeps_others(prepared, index as int, segments, seq);
                lemma_segment_reservations_update(prepared, index as int, segments);
                assert(prepared.remove(index as int).insert(index as int, segments)
                    =~= prepared.update(index as int, segments));
                assert(segment_seqs(prepared.update(index as int, segments)) =~= segment_seqs(
                    prepared,
                ));
            }
            self.segments.insert(index, segments);
            proof {
                assert(self.segments@ =~= prepared.update(index as int, segments));
                assert forall|k: int| 0 <= k < self.segments@.len() implies #[trigger] self.segments@[k].wf() by {
                    if k != index {
                        assert(self.segments@[k] == prepared[k]);
                    }
                }
            }
            Ok(())
        }
    }
}



impl VideoGroup {
    /// How many packets are being reassembled.
    pub fn segments_len(&self) -> (n: usize)
        ensures
            n == self.segments().len(),
    {
        self.segments.len()
    }

    /// How many packets are reassembled and waiting.
    pub fn datagrams_len(&self) -> (n: usize)
        ensures
            n == self.datagrams().len(),
    {
        self.datagrams.len()
    }

    /// The reassembled packet at position `i`, in sequence order.
    pub fn datagram_at(&self, i: usize) -> (d: &DatagramPacket)
        requires
            i < self.datagrams().len(),
        ensures
            *d == self.datagrams()[i as int],
    {
        &self.datagrams[i]
    }
}



/// The objects held by a sequence of groups.
pub open spec fn total_objects(s: Seq<VideoGroup>) -> int
    decreases s.len(),
{
    if s.len() == 0 {
        0
    } else {
        total_objects(s.drop_last()) + s.last().objects()
    }
}

/// The bytes held by a sequence of groups.
pub open spec fn total_bytes(s: Seq<VideoGroup>) -> int
    decreases s.len(),
{
    if s.len() == 0 {
        0
    } else {
        total_bytes(s.drop_last()) + s.last().pending_bytes()
    }
}

/// The group sequence numbers, in storage order.
pub open spec fn group_seqs(s: Seq<VideoGroup>) -> Seq<u64> {
    s.map_values(|g: VideoGroup| g.group())
}

/// Group `g` holds packet `seq`, reassembled or being reassembled.
pub open spec fn holds_packet(g: VideoGroup, seq: u64) -> bool {
    datagram_seqs(g.datagrams()).contains(seq) || segment_seqs(g.segments()).contains(seq)
}

proof fn lemma_totals_remove(s: Seq<VideoGroup>, i: int)
    requires
        0 <= i < s.len(),
    ensures
        total_objects(s) == total_objects(s.remove(i)) + s[i].objects(),
        total_bytes(s) == total_bytes(s.remove(i)) + s[i].pending_bytes(),
    decreases s.len(),
{
    if i == s.len() - 1 {
        assert(s.remove(i) =~= s.drop_last());
    } else {
        lemma_totals_remove(s.drop_last(), i);
        assert(s.remove(i).drop_last() =~= s.drop_last().remove(i));
        assert(s.remove(i).last() == s.last());
    }
}

proof fn lemma_totals_nonneg(s: Seq<VideoGroup>)
    requires
        forall|k: int| 0 <= k < s.len() ==> #[trigger] s[k].wf(),
    ensures
        0 <= total_objects(s),
        0 <= total_bytes(s),
    decreases s.len(),
{
    if s.len() > 0 {
        let d = s.drop_last();
        assert forall|k: int| 0 <= k < d.len() implies #[trigger] d[k].wf() by {
            assert(d[k] == s[k]);
        }
        lemma_totals_nonneg(d);
        assert(s[s.len() - 1].wf());
        s.last().lemma_usage_nonneg();
    }
}

impl VideoGroup {
    proof fn lemma_usage_nonneg(&self)
        requires
            self.wf(),
        ensures
            0 <= self.objects(),
            0 <= self.pending_bytes(),
    {
        self.lemma_bytes_bound();
    }
}

/// The pending groups of the video stream, in group order.
pub struct PendingGroups {
    groups: Vec<VideoGroup>,
}

impl PendingGroups {
    pub closed spec fn groups(&self) -> Seq<VideoGroup> {
        self.groups@
    }

    /// At most `MAX_PENDING_GROUPS` groups, in increasing group order, each
    /// well formed, and all of them together within the receive budget; a
    /// packet is held by one group at most.
    pub closed spec fn wf(&self) -> bool {
        &&& self.groups@.len() <= MAX_PENDING_GROUPS
        &&& strictly_increasing(group_seqs(self.groups@))
        &&& forall|i: int| 0 <= i < self.groups@.len() ==> #[trigger] self.groups@[i].wf()
        &&& total_objects(self.groups@) <= MAX_PENDING_OBJECTS
        &&& total_bytes(self.groups@) <= pending_limit(MAX_VIDEO_PAYLOAD as int)
    }

    pub fn new() -> (g: Self)
        ensures
            g.wf(),
            g.groups().len() == 0,
    {
        let g = PendingGroups { groups: Vec::new() };
        assert(group_seqs(g.groups@) =~= Seq::<u64>::empty());
        g
    }

    /// The objects and bytes held by every group but group `i`.
    fn usage_except(&self, i: usize) -> (u: (usize, usize))
        requires
            self.wf(),
            i < self.groups().len(),
        ensures
            u.0 == total_objects(self.groups()) - self.groups()[i as int].objects(),
            u.1 == total_bytes(self.groups()) - self.groups()[i as int].pending_bytes(),
            self.groups()[i as int].fits(u.0 as int, u.1 as int),
    {
        let ghost rest = self.groups@.remove(i as int);
        proof {
            lemma_totals_remove(self.groups@, i as int);
            assert forall|k: int| 0 <= k < rest.len() implies #[trigger] rest[k].wf() by {
                if k < i {
                    assert(rest[k] == self.groups@[k]);
                } else {
                    assert(rest[k] == self.groups@[k + 1]);
                }
            }
            lemma_totals_nonneg(rest);
            assert(self.groups@[i as int].wf());
            self.groups@[i as int].lemma_usage_nonneg();
        }
        let mut objects: usize = 0;
        let mut bytes: usize = 0;
        let mut j: usize = 0;
        while j < self.groups.len()
            invariant
                self.wf(),
                i < self.groups@.len(),
                j <= self.groups@.len(),
                rest == self.groups@.remove(i as int),
                0 <= total_objects(rest) <= MAX_PENDING_OBJECTS,
                0 <= total_bytes(rest) <= pending_limit(MAX_VIDEO_PAYLOAD as int),
                objects == total_objects(
                    if j <= i {
                        self.groups@.subrange(0, j as int)
                    } else {
                        rest.subrange(0, j - 1)
                    },
                ),
                bytes == total_bytes(
                    if j <= i {
                        self.groups@.subrange(0, j as int)
                    } else {
                        rest.subrange(0, j - 1)
                    },
                ),
            decreases self.groups@.len() - j,
        {
            if j != i {
                let (o, b) = self.groups[j].usage();
                proof {
                    let k = if j < i { j as int } else { j - 1 };
                    assert(rest[k] == self.groups@[j as int]);
                    let pre = rest.subrange(0, k + 1);
                    assert(pre.drop_last() =~= rest.subrange(0, k));
                    if j < i {
                        assert(rest.subrange(0, k) =~= self.groups@.subrange(0, j as int));
                    }
                    lemma_totals_prefix(rest, k + 1);
                }
                objects = objects + o;
                bytes = bytes + b;
            } else {
                proof {
                    assert(self.groups@.subrange(0, j as int) =~= rest.subrange(0, j as int));
                }
            }
            j = j + 1;
            proof {
                if j <= i {
                    assert(rest.subrange(0, j as int) =~= self.groups@.subrange(0, j as int));
                }
            }
        }
        proof {
            assert(rest.subrange(0, self.groups@.len() - 1) =~= rest);
        }
        (objects, bytes)
    }
}

/// The totals of a prefix of well-formed groups are at most those of all.
proof fn lemma_totals_prefix(s: Seq<VideoGroup>, k: int)
    requires
        0 <= k <= s.len(),
        forall|j: int| 0 <= j < s.len() ==> #[trigger] s[j].wf(),
    ensures
        0 <= total_objects(s.subrange(0, k)) <= total_objects(s),
        0 <= total_bytes(s.subrange(0, k)) <= total_bytes(s),
    decreases s.len(),
{
    if s.len() == 0 {
        assert(s.subrange(0, k) =~= s);
    } else {
        let d = s.drop_last();
        assert forall|j: int| 0 <= j < d.len() implies #[trigger] d[j].wf() by {
            assert(d[j] == s[j]);
        }
        assert(s[s.len() - 1].wf());
        s.last().lemma_usage_nonneg();
        if k == s.len() {
            assert(s.subrange(0, k) =~= s);
            lemma_totals_prefix(d, d.len() as int);
            assert(d.subrange(0, d.len() as int) =~= d);
        } else {
            lemma_totals_prefix(d, k);
            assert(s.subrange(0, k) =~= d.subrange(0, k));
        }
    }
}


/// Every packet sequence number that the group holds is at most `bound`.
pub open spec fn group_bounded(g: VideoGroup, bound: int) -> bool {
    &&& (g.config() matches ConfigPacket::Ready(p) ==> p.kypacket_seq <= bound)
    &&& forall|i: int| 0 <= i < g.datagrams().len() ==> #[trigger] g.datagrams()[i].kypacket_seq <= bound
    &&& forall|i: int| 0 <= i < g.segments().len() ==> #[trigger] g.segments()[i].seq() <= bound
}

/// Every packet sequence number that the groups hold is at most `bound`.
pub open spec fn groups_bounded(s: Seq<VideoGroup>, bound: int) -> bool {
    forall|i: int| 0 <= i < s.len() ==> group_bounded(#[trigger] s[i], bound)
}

impl VideoGroup {
    /// Whether this group holds packet `seq`, reassembled or being
    /// reassembled.
    pub fn holds(&self, seq: u64) -> (b: bool)
        requires
            self.wf(),
        ensures
            b == holds_packet(*self, seq),
    {
        let a = self.find_datagram(seq);
        let c = self.find_segments(seq);
        proof {
            if datagram_seqs(self.datagrams@).contains(seq) {
                let j = datagram_seqs(self.datagrams@).index_of(seq);
                assert(datagram_seqs(self.datagrams@)[j] == seq);
            }
            if segment_seqs(self.segments@).contains(seq) {
                let j = segment_seqs(self.segments@).index_of(seq);
                assert(segment_seqs(self.segments@)[j] == seq);
            }
        }
        a.is_ok() || c.is_ok()
    }
}

/// Opening group `group_seq` would exceed the number of groups kept.
pub open spec fn too_many_groups(s: Seq<VideoGroup>, group_seq: u64) -> bool {
    !group_seqs(s).contains(group_seq) && s.len() >= MAX_PENDING_GROUPS
}

/// `after` is `before` with group `group_seq`, at position `i`, now `g`: the
/// group replaced where it was present, inserted in group order where not.
pub open spec fn group_replaced(
    before: Seq<VideoGroup>,
    after: Seq<VideoGroup>,
    group_seq: u64,
    i: int,
    g: VideoGroup,
) -> bool {
    &&& 0 <= i < after.len()
    &&& g.group() == group_seq
    &&& if group_seqs(before).contains(group_seq) {
        i < before.len() && before[i].group() == group_seq && after == before.update(i, g)
    } else {
        i <= before.len() && after == before.insert(i, g)
    }
}

/// The configuration state that group `group_seq`, at position `i`, had in
/// `before`: none received where the group was absent.
pub open spec fn prior_config(before: Seq<VideoGroup>, group_seq: u64, i: int) -> ConfigPacket {
    if group_seqs(before).contains(group_seq) {
        before[i].config()
    } else {
        ConfigPacket::NotReceived
    }
}

/// The reassembled packets that group `group_seq`, at position `i`, held in
/// `before`.
pub open spec fn prior_datagrams(before: Seq<VideoGroup>, group_seq: u64, i: int) -> Seq<
    DatagramPacket,
> {
    if group_seqs(before).contains(group_seq) {
        before[i].datagrams()
    } else {
        Seq::empty()
    }
}

/// The reassemblies that group `group_seq`, at position `i`, held in
/// `before`.
pub open spec fn prior_segments(before: Seq<VideoGroup>, group_seq: u64, i: int) -> Seq<
    DatagramSegments,
> {
    if group_seqs(before).contains(group_seq) {
        before[i].segments()
    } else {
        Seq::empty()
    }
}

/// Some group other than `group_seq` holds packet `seq`.
pub open spec fn held_by_other(s: Seq<VideoGroup>, group_seq: u64, seq: u64) -> bool {
    exists|j: int| 0 <= j < s.len() && s[j].group() != group_seq && holds_packet(#[trigger] s[j], seq)
}

/// What accepting the configuration packet `packet`, numbered
/// `kypacket_seq`, for group `group_seq` does to the groups `before`, which
/// become `after`, with outcome `r`: refused where no group can be opened;
/// otherwise the group, opened if needed, takes the packet unless the packet
/// or the budget forbids it, and no other group changes.
pub open spec fn stream_inserted(
    before: Seq<VideoGroup>,
    after: Seq<VideoGroup>,
    group_seq: u64,
    kypacket_seq: u64,
    packet: AVPacket,
    r: Result<(), ProtocolError>,
) -> bool {
    if too_many_groups(before, group_seq) {
        (r matches Err(e) && e.0@ == invalid_message("too many pending video groups"@)) && after
            == before
    } else {
        exists|i: int, g: VideoGroup|
            #[trigger] group_replaced(before, after, group_seq, i, g) && g.datagrams()
                == prior_datagrams(before, group_seq, i) && g.segments() == prior_segments(
                before,
                group_seq,
                i,
            ) && match config_problem(
                prior_config(before, group_seq, i),
                total_objects(before),
                total_bytes(before),
                packet,
            ) {
                None => r is Ok && g.config() == ConfigPacket::Ready(
                    StreamPacket { packet, kypacket_seq },
                ),
                Some(reason) => (r matches Err(e) && e.0@ == invalid_message(reason)) && g.config()
                    == prior_config(before, group_seq, i),
            }
    }
}

/// What feeding one symbol of packet `kypacket_seq` of group `group_seq`
/// (transmission information `oti`, received at `now`) does to the groups
/// `before`, which become `after`, with outcome `r`: refused where no group
/// can be opened; otherwise the group is opened if needed, the symbol is
/// refused if another group holds the packet, and is fed to the group as
/// `symbol_fed` says, against the budget that the other groups leave.
pub open spec fn datagram_inserted(
    before: Seq<VideoGroup>,
    after: Seq<VideoGroup>,
    group_seq: u64,
    kypacket_seq: u64,
    oti: Oti,
    id: PayloadId,
    data: Seq<u8>,
    now: u64,
    r: Result<(), ProtocolError>,
) -> bool {
    if too_many_groups(before, group_seq) {
        (r matches Err(e) && e.0@ == invalid_message("too many pending video groups"@)) && after
            == before
    } else {
        exists|i: int, g: VideoGroup|
            #[trigger] group_replaced(before, after, group_seq, i, g) && {
                let c = prior_config(before, group_seq, i);
                let d = prior_datagrams(before, group_seq, i);
                let s = prior_segments(before, group_seq, i);
                let objects = s.len() + d.len() + config_objects(c);
                let bytes = segment_reservations(s) + datagram_reservations(d) + config_bytes(c);
                if held_by_other(before, group_seq, kypacket_seq) {
                    (r matches Err(e) && e.0@ == invalid_message("video packet changed group"@))
                        && g.config() == c && g.datagrams() == d && g.segments() == s
                } else {
                    symbol_fed(
                        c,
                        d,
                        s,
                        g,
                        total_objects(before) - objects,
                        total_bytes(before) - bytes,
                        kypacket_seq,
                        oti,
                        id,
                        data,
                        now,
                        r,
                    )
                }
            }
    }
}

/// What `prepare_pending_group` hands back lets the caller describe the
/// groups by their state before it: the same totals, the prior state of the
/// group at `i`, and any replacement of that group.
proof fn lemma_prepared(start: Seq<VideoGroup>, prepared: Seq<VideoGroup>, group_seq: u64, i: int)
    requires
        0 <= i < prepared.len(),
        prepared[i].group() == group_seq,
        group_seqs(start).contains(group_seq) ==> prepared == start,
        !group_seqs(start).contains(group_seq) ==> {
            &&& i <= start.len()
            &&& prepared == start.insert(i, prepared[i])
            &&& prepared[i].config() is NotReceived
            &&& prepared[i].datagrams().len() == 0
            &&& prepared[i].segments().len() == 0
        },
    ensures
        total_objects(prepared) == total_objects(start),
        total_bytes(prepared) == total_bytes(start),
        prepared[i].config() == prior_config(start, group_seq, i),
        prepared[i].datagrams() == prior_datagrams(start, group_seq, i),
        prepared[i].segments() == prior_segments(start, group_seq, i),
        forall|g: VideoGroup|
            g.group() == group_seq ==> #[trigger] group_replaced(
                start,
                prepared.update(i, g),
                group_seq,
                i,
                g,
            ),
{
    if !group_seqs(start).contains(group_seq) {
        lemma_totals_remove(prepared, i);
        assert(prepared.remove(i) =~= start);
        assert(prepared[i].datagrams() =~= Seq::<DatagramPacket>::empty());
        assert(prepared[i].segments() =~= Seq::<DatagramSegments>::empty());
        assert(segment_reservations(prepared[i].segments()) == 0);
        assert(datagram_reservations(prepared[i].datagrams()) == 0);
        assert forall|g: VideoGroup| g.group() == group_seq implies #[trigger] group_replaced(
            start,
            prepared.update(i, g),
            group_seq,
            i,
            g,
        ) by {
            assert(prepared.update(i, g) =~= start.insert(i, g));
        }
    }
}

impl PendingGroups {
    /// The position of group `group_seq`, opening it if needed; no more than
    /// `MAX_PENDING_GROUPS` groups are kept.
    pub fn prepare_pending_group(&mut self, group_seq: u64) -> (r: Result<usize, ProtocolError>)
        requires
            old(self).wf(),
        ensures
            final(self).wf(),
            forall|b: int| groups_bounded(old(self).groups(), b) ==> groups_bounded(final(self).groups(), b),
            match r {
                Ok(i) => {
                    &&& i < final(self).groups().len()
                    &&& final(self).groups()[i as int].group() == group_seq
                    &&& (group_seqs(old(self).groups()).contains(group_seq) ==> final(self).groups()
                        == old(self).groups())
                    &&& (!group_seqs(old(self).groups()).contains(group_seq) ==> {
                        let g = final(self).groups()[i as int];
                        &&& i <= old(self).groups().len()
                        &&& final(self).groups() == old(self).groups().insert(i as int, g)
                        &&& g.config() is NotReceived
                        &&& g.datagrams().len() == 0
                        &&& g.segments().len() == 0
                    })
                },
                Err(e) => *final(self) == *old(self) && !group_seqs(old(self).groups()).contains(
                    group_seq,
                ) && old(self).groups().len() >= MAX_PENDING_GROUPS && e.0@ == invalid_message(
                    "too many pending video groups"@,
                ),
            },
    {
        let mut i: usize = 0;
        while i < self.groups.len() && self.groups[i].group_seq() < group_seq
            invariant
                i <= self.groups@.len(),
                forall|j: int| 0 <= j < i ==> group_seqs(self.groups@)[j] < group_seq,
                self.wf(),
                self == old(self),
            decreases self.groups@.len() - i,
        {
            assert(group_seqs(self.groups@)[i as int] == self.groups@[i as int].group());
            i = i + 1;
        }
        if i < self.groups.len() && self.groups[i].group_seq() == group_seq {
            assert(group_seqs(self.groups@)[i as int] == self.groups@[i as int].group());
            return Ok(i);
        }
        proof {
            if i < self.groups@.len() {
                assert(group_seqs(self.groups@)[i as int] == self.groups@[i as int].group());
            }
            assert forall|j: int| i <= j < self.groups@.len() implies group_seqs(self.groups@)[j]
                > group_seq by {
                if j > i {
                    assert(group_seqs(self.groups@)[i as int] < group_seqs(self.groups@)[j]);
                }
            }
            if group_seqs(self.groups@).contains(group_seq) {
                let j = group_seqs(self.groups@).index_of(group_seq);
                assert(group_seqs(self.groups@)[j] == group_seq);
            }
        }
        if self.groups.len() >= MAX_PENDING_GROUPS {
            return Err(invalid("too many pending video groups"));
        }
        let g = VideoGroup::new(group_seq);
        let ghost before = self.groups@;
        proof {
            lemma_increasing_insert(group_seqs(before), i, group_seq);
            assert(group_seqs(before.insert(i as int, g)) =~= group_seqs(before).insert(
                i as int,
                group_seq,
            ));
            lemma_totals_remove(before.insert(i as int, g), i as int);
            assert(before.insert(i as int, g).remove(i as int) =~= before);
            assert(g.objects() == 0);
            assert(segment_reservations(g.segments()) == 0);
            assert(datagram_reservations(g.datagrams()) == 0);
        }
        self.groups.insert(i, g);
        proof {
            assert forall|k: int| 0 <= k < self.groups@.len() implies #[trigger] self.groups@[k].wf() by {
                if k < i {
                    assert(self.groups@[k] == before[k]);
                } else if k > i {
                    assert(self.groups@[k] == before[k - 1]);
                }
            }
            assert forall|b: int| groups_bounded(before, b) implies groups_bounded(self.groups@, b) by {
                assert forall|k: int| 0 <= k < self.groups@.len() implies group_bounded(
                    #[trigger] self.groups@[k],
                    b,
                ) by {
                    if k < i {
                        assert(self.groups@[k] == before[k]);
                    } else if k > i {
                        assert(self.groups@[k] == before[k - 1]);
                    }
                }
            }
        }
        Ok(i)
    }

    /// Whether a group other than group `i` holds packet `seq`.
    fn held_elsewhere(&self, i: usize, seq: u64) -> (b: bool)
        requires
            self.wf(),
        ensures
            b == exists|j: int|
                0 <= j < self.groups().len() && j != i && holds_packet(#[trigger] self.groups()[j], seq),
    {
        let mut j: usize = 0;
        while j < self.groups.len()
            invariant
                self.wf(),
                j <= self.groups@.len(),
                forall|k: int| 0 <= k < j && k != i ==> !holds_packet(#[trigger] self.groups@[k], seq),
            decreases self.groups@.len() - j,
        {
            if j != i && self.groups[j].holds(seq) {
                assert(holds_packet(self.groups()[j as int], seq));
                assert(0 <= j < self.groups().len() && j != i);
                return true;
            }
            j = j + 1;
        }
        false
    }
}


proof fn lemma_totals_update(s: Seq<VideoGroup>, i: int, x: VideoGroup)
    requires
        0 <= i < s.len(),
    ensures
        total_objects(s.update(i, x)) == total_objects(s) - s[i].objects() + x.objects(),
        total_bytes(s.update(i, x)) == total_bytes(s) - s[i].pending_bytes() + x.pending_bytes(),
{
    lemma_totals_remove(s, i);
    lemma_totals_remove(s.update(i, x), i);
    assert(s.update(i, x).remove(i) =~= s.remove(i));
}

impl PendingGroups {
    /// Puts back group `i` after it was changed in place of `g`, keeping its
    /// group number, within the shared budget.
    proof fn lemma_put_back(before: Seq<VideoGroup>, i: int, x: VideoGroup, others: int, other_bytes: int)
        requires
            0 <= i < before.len(),
            before.len() <= MAX_PENDING_GROUPS,
            strictly_increasing(group_seqs(before)),
            forall|k: int| 0 <= k < before.len() ==> #[trigger] before[k].wf(),
            x.wf(),
            x.group() == before[i].group(),
            others == total_objects(before) - before[i].objects(),
            other_bytes == total_bytes(before) - before[i].pending_bytes(),
            x.fits(others, other_bytes),
        ensures
            ({
                let after = before.update(i, x);
                &&& after.len() <= MAX_PENDING_GROUPS
                &&& strictly_increasing(group_seqs(after))
                &&& forall|k: int| 0 <= k < after.len() ==> #[trigger] after[k].wf()
                &&& total_objects(after) <= MAX_PENDING_OBJECTS
                &&& total_bytes(after) <= pending_limit(MAX_VIDEO_PAYLOAD as int)
            }),
    {
        let after = before.update(i, x);
        lemma_totals_update(before, i, x);
        assert(group_seqs(after) =~= group_seqs(before));
        assert forall|k: int| 0 <= k < after.len() implies #[trigger] after[k].wf() by {
            if k != i {
                assert(after[k] == before[k]);
            }
        }
    }

    /// Accepts the configuration packet of group `group_seq`, numbered
    /// `kypacket_seq`.
    pub fn insert_stream_packet(&mut self, group_seq: u64, kypacket_seq: u64, packet: AVPacket) -> (r:
        Result<(), ProtocolError>)
        requires
            old(self).wf(),
        ensures
            final(self).wf(),
            forall|b: int|
                groups_bounded(old(self).groups(), b) && kypacket_seq <= b ==> groups_bounded(
                    final(self).groups(),
                    b,
                ),
            stream_inserted(old(self).groups(), final(self).groups(), group_seq, kypacket_seq, packet, r),
    {
        let ghost start = self.groups@;
        let i = match self.prepare_pending_group(group_seq) {
            Ok(i) => i,
            Err(e) => {
                return Err(e);
            },
        };
        let (others, other_bytes) = self.usage_except(i);
        let ghost before = self.groups@;
        let mut g = self.groups.remove(i);
        assert(g == before[i as int]);
        assert(g.wf());
        let r = g.insert_stream_packet(others, other_bytes, kypacket_seq, packet);
        proof {
            Self::lemma_put_back(before, i as int, g, others as int, other_bytes as int);
            assert(before.remove(i as int).insert(i as int, g) =~= before.update(i as int, g));
        }
        self.groups.insert(i, g);
        proof {
            assert(self.groups@ =~= before.update(i as int, g));
            assert forall|b: int|
                groups_bounded(old(self).groups(), b) && kypacket_seq <= b implies groups_bounded(
                self.groups@,
                b,
            ) by {
                assert(groups_bounded(before, b));
                assert forall|k: int| 0 <= k < self.groups@.len() implies group_bounded(
                    #[trigger] self.groups@[k],
                    b,
                ) by {
                    if k != i {
                        assert(self.groups@[k] == before[k]);
                    } else {
                        assert(group_bounded(before[k], b));
                    }
                }
            }
            lemma_prepared(start, before, group_seq, i as int);
            assert(group_replaced(start, self.groups@, group_seq, i as int, g));
        }
        r
    }

    /// Feeds one symbol of packet `kypacket_seq` of group `group_seq`,
    /// received at `now`. A packet held by another group is refused.
    pub fn insert_datagram(
        &mut self,
        group_seq: u64,
        kypacket_seq: u64,
        oti: Oti,
        payload_id: PayloadId,
        data: Vec<u8>,
        now: u64,
    ) -> (r: Result<(), ProtocolError>)
        requires
            old(self).wf(),
            payload_id.encoding_symbol_id < 0x100_0000,
            now <= INSTANT_LIMIT,
        ensures
            final(self).wf(),
            forall|b: int|
                groups_bounded(old(self).groups(), b) && kypacket_seq <= b ==> groups_bounded(
                    final(self).groups(),
                    b,
                ),
            datagram_inserted(
                old(self).groups(),
                final(self).groups(),
                group_seq,
                kypacket_seq,
                oti,
                payload_id,
                data@,
                now,
                r,
            ),
    {
        let ghost start = self.groups@;
        let i = match self.prepare_pending_group(group_seq) {
            Ok(i) => i,
            Err(e) => {
                return Err(e);
            },
        };
        let ghost prepared = self.groups@;
        proof {
            lemma_prepared(start, prepared, group_seq, i as int);
            assert(prepared.update(i as int, prepared[i as int]) =~= prepared);
            assert(group_replaced(start, prepared, group_seq, i as int, prepared[i as int]));
            assert forall|j: int|
                0 <= j < start.len() && start[j].group() != group_seq && holds_packet(
                    #[trigger] start[j],
                    kypacket_seq,
                ) implies exists|k: int|
                0 <= k < prepared.len() && k != i && holds_packet(prepared[k], kypacket_seq) by {
                if !group_seqs(start).contains(group_seq) {
                    if j < i {
                        assert(prepared[j] == start[j]);
                    } else {
                        assert(prepared[j + 1] == start[j]);
                    }
                } else {
                    assert(prepared[j].group() != prepared[i as int].group());
                }
            }
        }
        if self.held_elsewhere(i, kypacket_seq) {
            proof {
                let k = choose|k: int|
                    0 <= k < prepared.len() && k != i && holds_packet(
                        #[trigger] prepared[k],
                        kypacket_seq,
                    );
                if group_seqs(start).contains(group_seq) {
                    assert(group_seqs(prepared)[k] != group_seqs(prepared)[i as int]);
                    assert(held_by_other(start, group_seq, kypacket_seq));
                } else {
                    let j = if k < i {
                        k
                    } else {
                        k - 1
                    };
                    assert(start[j] == prepared[k]);
                    assert(group_seqs(start)[j] == start[j].group());
                    assert(start[j].group() != group_seq);
                    assert(held_by_other(start, group_seq, kypacket_seq));
                }
            }
            return Err(invalid("video packet changed group"));
        }
        proof {
            if !group_seqs(start).contains(group_seq) {
                assert(self.groups@ == start.insert(i as int, self.groups@[i as int]));
                assert(i <= start.len());
            }
            assert forall|j: int|
                0 <= j < start.len() && start[j].group() != group_seq implies !holds_packet(
                #[trigger] start[j],
                kypacket_seq,
            ) by {
                if !group_seqs(start).contains(group_seq) {
                    if j < i {
                        assert(self.groups@[j] == start[j]);
                        assert(holds_packet(self.groups@[j], kypacket_seq) ==> false);
                    } else {
                        assert(self.groups@[j + 1] == start[j]);
                        assert(holds_packet(self.groups@[j + 1], kypacket_seq) ==> false);
                    }
                } else {
                    assert(self.groups@ == start);
                    assert(self.groups@[j].group() != self.groups@[i as int].group());
                    assert(j != i);
                }
            }
        }
        let (others, other_bytes) = self.usage_except(i);
        let ghost before = self.groups@;
        let mut g = self.groups.remove(i);
        assert(g == before[i as int]);
        assert(g.wf());
        let r = g.insert_datagram(others, other_bytes, kypacket_seq, oti, payload_id, data, now);
        proof {
            Self::lemma_put_back(before, i as int, g, others as int, other_bytes as int);
            assert(before.remove(i as int).insert(i as int, g) =~= before.update(i as int, g));
        }
        self.groups.insert(i, g);
        proof {
            assert(self.groups@ =~= before.update(i as int, g));
            let g0 = before[i as int];
            assert forall|b: int|
                groups_bounded(old(self).groups(), b) && kypacket_seq <= b implies groups_bounded(
                self.groups@,
                b,
            ) by {
                assert(groups_bounded(before, b));
                assert(group_bounded(g0, b));
                assert forall|k: int| 0 <= k < g.datagrams().len() implies #[trigger] g.datagrams()[k].kypacket_seq
                    <= b by {
                    if datagram_seqs(g0.datagrams()).contains(kypacket_seq) {
                        let j = datagram_seqs(g0.datagrams()).index_of(kypacket_seq);
                        assert(datagram_seqs(g0.datagrams())[j] == kypacket_seq);
                        assert(g0.datagrams()[j].kypacket_seq == kypacket_seq);
                    } else if g.datagrams() != g0.datagrams() {
                        let (m, d) = choose|m: int, d: DatagramPacket|
                            0 <= m <= g0.datagrams().len() && g.datagrams()
                                == g0.datagrams().insert(m, d) && d.kypacket_seq == kypacket_seq
                                && d.oti == oti && d.instant == now && d.packet is Media;
                        if k < m {
                            assert(g.datagrams()[k] == g0.datagrams()[k]);
                        } else if k > m {
                            assert(g.datagrams()[k] == g0.datagrams()[k - 1]);
                        }
                    }
                }
                assert forall|k: int| 0 <= k < g.segments().len() implies #[trigger] g.segments()[k].seq()
                    <= b by {
                    let x = g.segments()[k];
                    if datagram_seqs(g0.datagrams()).contains(kypacket_seq) {
                        let j = datagram_seqs(g0.datagrams()).index_of(kypacket_seq);
                        assert(datagram_seqs(g0.datagrams())[j] == kypacket_seq);
                        assert(g0.datagrams()[j].kypacket_seq == kypacket_seq);
                    } else if x.seq() != kypacket_seq {
                        assert(g.segments().contains(x));
                        assert(g0.segments().contains(x));
                        let m = g0.segments().index_of(x);
                        assert(g0.segments()[m].seq() <= b);
                    }
                }
                assert forall|k: int| 0 <= k < self.groups@.len() implies group_bounded(
                    #[trigger] self.groups@[k],
                    b,
                ) by {
                    if k != i {
                        assert(self.groups@[k] == before[k]);
                    }
                }
            }
            assert(group_replaced(start, self.groups@, group_seq, i as int, g));
            lemma_totals_remove(before, i as int);
        }
        r
    }
}


/// How long to wait for a missing packet, in microseconds, counted from the
/// oldest reassembled packet still pending in any group.
pub const MAX_BUFFERING_MICROS: u64 = 50_000;

/// The earliest completion instant of the reassembled packets of all groups.
pub open spec fn groups_min_instant(s: Seq<VideoGroup>) -> Option<u64>
    decreases s.len(),
{
    if s.len() == 0 {
        None
    } else {
        let rest = groups_min_instant(s.drop_last());
        let g = s.last();
        if g.datagrams().len() == 0 {
            rest
        } else {
            let m = min_instant_of(g.datagrams());
            match rest {
                None => Some(m),
                Some(r) => Some(
                    if m < r {
                        m
                    } else {
                        r
                    },
                ),
            }
        }
    }
}

/// What to hand out next: nothing, a packet of a group (its configuration
/// packet, or its oldest reassembled packet), or wait until an instant.
#[derive(Clone, Copy, Debug, PartialEq, Eq, Structural)]
pub enum VideoNext {
    Nothing,
    Ready { group: usize, config_packet: bool },
    Deadline(u64),
}

/// The decision from group `k` on, with `next` the expected sequence number:
/// groups whose configuration packet has not arrived are passed over; the
/// first other group hands out its configuration packet if it is the
/// expected one, or its oldest reassembled packet (preceded by the
/// configuration packet if still waiting) once it is the expected one or
/// once the buffering delay after the earliest completion in any group has
/// passed; a group with nothing reassembled is passed over.
pub open spec fn next_from(s: Seq<VideoGroup>, k: int, next: u64, now: u64) -> VideoNext
    decreases s.len() - k,
{
    if k < 0 || k >= s.len() {
        VideoNext::Nothing
    } else {
        let g = s[k];
        if g.config() is NotReceived {
            next_from(s, k + 1, next, now)
        } else if g.config() matches ConfigPacket::Ready(p) && p.kypacket_seq == next {
            VideoNext::Ready { group: k as usize, config_packet: true }
        } else if g.datagrams().len() == 0 {
            next_from(s, k + 1, next, now)
        } else if g.datagrams()[0].kypacket_seq == next {
            VideoNext::Ready { group: k as usize, config_packet: g.config() is Ready }
        } else {
            match groups_min_instant(s) {
                Some(m) => if m + MAX_BUFFERING_MICROS <= now {
                    VideoNext::Ready { group: k as usize, config_packet: g.config() is Ready }
                } else {
                    VideoNext::Deadline((m + MAX_BUFFERING_MICROS) as u64)
                },
                None => next_from(s, k + 1, next, now),
            }
        }
    }
}

proof fn lemma_next_from_ready(s: Seq<VideoGroup>, k: int, next: u64, now: u64)
    requires
        0 <= k,
        s.len() <= usize::MAX,
    ensures
        next_from(s, k, next, now) matches VideoNext::Ready { group, config_packet } ==> {
            &&& k <= group < s.len()
            &&& !(s[group as int].config() is NotReceived)
            &&& config_packet ==> s[group as int].config() is Ready
            &&& !config_packet ==> s[group as int].datagrams().len() > 0
        },
    decreases s.len() - k,
{
    if k < s.len() {
        lemma_next_from_ready(s, k + 1, next, now);
    }
}

proof fn lemma_groups_min_bounded(s: Seq<VideoGroup>)
    requires
        forall|k: int| 0 <= k < s.len() ==> #[trigger] s[k].wf(),
    ensures
        groups_min_instant(s) matches Some(m) ==> m <= INSTANT_LIMIT,
    decreases s.len(),
{
    if s.len() > 0 {
        let d = s.drop_last();
        assert forall|k: int| 0 <= k < d.len() implies #[trigger] d[k].wf() by {
            assert(d[k] == s[k]);
        }
        lemma_groups_min_bounded(d);
        let g = s.last();
        assert(s[s.len() - 1].wf());
        if g.datagrams().len() > 0 {
            g.lemma_instants_bounded();
        }
    }
}

impl VideoGroup {
    proof fn lemma_instants_bounded(&self)
        requires
            self.wf(),
            self.datagrams().len() > 0,
        ensures
            min_instant_of(self.datagrams()) <= INSTANT_LIMIT,
    {
        lemma_min_instant_member(self.datagrams@);
        let i = choose|i: int|
            0 <= i < self.datagrams@.len() && self.datagrams@[i].instant == min_instant_of(
                self.datagrams@,
            );
        assert(self.datagrams@[i].instant <= INSTANT_LIMIT);
    }
}

impl PendingGroups {
    /// The earliest completion instant of the reassembled packets.
    pub fn min_instant(&self) -> (m: Option<u64>)
        requires
            self.wf(),
        ensures
            m == groups_min_instant(self.groups()),
    {
        let mut m: Option<u64> = None;
        let mut k: usize = 0;
        while k < self.groups.len()
            invariant
                self.wf(),
                k <= self.groups@.len(),
                m == groups_min_instant(self.groups@.subrange(0, k as int)),
            decreases self.groups@.len() - k,
        {
            proof {
                let t = self.groups@.subrange(0, k + 1);
                assert(t.drop_last() =~= self.groups@.subrange(0, k as int));
                assert(t.last() == self.groups@[k as int]);
            }
            match self.groups[k].min_instant() {
                Some(g) => {
                    m = match m {
                        None => Some(g),
                        Some(r) => Some(
                            if g < r {
                                g
                            } else {
                                r
                            },
                        ),
                    };
                },
                None => {},
            }
            k = k + 1;
        }
        assert(self.groups@.subrange(0, self.groups@.len() as int) =~= self.groups@);
        m
    }

    /// What to hand out next, given the expected sequence number `next` and
    /// the current instant `now`.
    pub fn next_packet(&self, next: u64, now: u64) -> (p: VideoNext)
        requires
            self.wf(),
        ensures
            p == next_from(self.groups(), 0, next, now),
    {
        let min = self.min_instant();
        proof {
            lemma_groups_min_bounded(self.groups@);
        }
        let mut k: usize = 0;
        while k < self.groups.len()
            invariant
                self.wf(),
                k <= self.groups@.len(),
                min == groups_min_instant(self.groups@),
                min matches Some(m) ==> m <= INSTANT_LIMIT,
                next_from(self.groups@, 0, next, now) == next_from(self.groups@, k as int, next, now),
            decreases self.groups@.len() - k,
        {
            let g = &self.groups[k];
            let mut pass = false;
            match &g.config_packet {
                ConfigPacket::NotReceived => {
                    pass = true;
                },
                ConfigPacket::Ready(p) => {
                    if p.kypacket_seq == next {
                        return VideoNext::Ready { group: k, config_packet: true };
                    }
                },
                ConfigPacket::Sent => {},
            }
            if !pass {
                if g.datagrams.len() == 0 {
                    pass = true;
                } else {
                    let ready = g.config_packet.is_ready();
                    if g.datagrams[0].kypacket_seq == next {
                        return VideoNext::Ready { group: k, config_packet: ready };
                    }
                    match min {
                        Some(m) => {
                            let deadline = m + MAX_BUFFERING_MICROS;
                            if deadline <= now {
                                return VideoNext::Ready { group: k, config_packet: ready };
                            } else {
                                return VideoNext::Deadline(deadline);
                            }
                        },
                        None => {
                            pass = true;
                        },
                    }
                }
            }
            k = k + 1;
        }
        VideoNext::Nothing
    }
}


/// The packet that the decision designates, with its sequence number.
pub open spec fn designated(s: Seq<VideoGroup>, n: VideoNext) -> Option<(u64, AVPacket)> {
    match n {
        VideoNext::Ready { group, config_packet } => {
            let g = s[group as int];
            if config_packet {
                match g.config() {
                    ConfigPacket::Ready(p) => Some((p.kypacket_seq, p.packet)),
                    _ => None,
                }
            } else {
                Some((g.datagrams()[0].kypacket_seq, g.datagrams()[0].packet))
            }
        },
        _ => None,
    }
}

impl PendingGroups {
    /// Takes out what `next_packet` designates, dropping every group before
    /// the group it comes from.
    pub fn take_next_packet(&mut self, next: u64, now: u64) -> (a: Action)
        requires
            old(self).wf(),
        ensures
            final(self).wf(),
            forall|b: int| groups_bounded(old(self).groups(), b) ==> groups_bounded(final(self).groups(), b),
            match next_from(old(self).groups(), 0, next, now) {
                VideoNext::Nothing => a is Idle && *final(self) == *old(self),
                VideoNext::Deadline(d) => a == Action::Deadline(d) && *final(self) == *old(self),
                VideoNext::Ready { group, config_packet } => {
                    &&& designated(old(self).groups(), next_from(old(self).groups(), 0, next, now))
                        matches Some((seq, p)) && a == (Action::Packet { kypacket_seq: seq, packet: p })
                    &&& final(self).groups().len() == old(self).groups().len() - group
                    &&& forall|k: int|
                        1 <= k < final(self).groups().len() ==> #[trigger] final(self).groups()[k]
                            == old(self).groups()[k + group]
                    &&& packet_taken(old(self).groups()[group as int], final(self).groups()[0], config_packet)
                },
            },
    {
        let decision = self.next_packet(next, now);
        proof {
            lemma_next_from_ready(self.groups@, 0, next, now);
        }
        match decision {
            VideoNext::Nothing => Action::Idle,
            VideoNext::Deadline(d) => Action::Deadline(d),
            VideoNext::Ready { group, config_packet } => {
                let ghost start = self.groups@;
                let mut dropped: usize = 0;
                while dropped < group
                    invariant
                        dropped <= group < start.len(),
                        self.groups@ == start.subrange(dropped as int, start.len() as int),
                        self.groups@.len() <= MAX_PENDING_GROUPS,
                        strictly_increasing(group_seqs(self.groups@)),
                        forall|k: int| 0 <= k < self.groups@.len() ==> #[trigger] self.groups@[k].wf(),
                        total_objects(self.groups@) <= MAX_PENDING_OBJECTS,
                        total_bytes(self.groups@) <= pending_limit(MAX_VIDEO_PAYLOAD as int),
                    decreases group - dropped,
                {
                    let ghost before = self.groups@;
                    proof {
                        lemma_totals_remove(before, 0);
                        before[0].lemma_usage_nonneg();
                        lemma_increasing_remove(group_seqs(before), 0);
                        assert(group_seqs(before.remove(0)) =~= group_seqs(before).remove(0));
                    }
                    self.groups.remove(0);
                    proof {
                        assert forall|k: int| 0 <= k < self.groups@.len() implies #[trigger] self.groups@[k].wf() by {
                            assert(self.groups@[k] == before[k + 1]);
                        }
                    }
                    dropped = dropped + 1;
                    assert(self.groups@ =~= start.subrange(dropped as int, start.len() as int));
                }
                let ghost before = self.groups@;
                assert(before[0] == start[group as int]);
                let (others, other_bytes) = self.usage_except(0);
                let mut g = self.groups.remove(0);
                assert(g == before[0]);
                let (seq, packet) = g.take_packet(config_packet);
                proof {
                    assert(g.fits(others as int, other_bytes as int));
                    Self::lemma_put_back(before, 0, g, others as int, other_bytes as int);
                    assert(before.remove(0).insert(0, g) =~= before.update(0, g));
                }
                self.groups.insert(0, g);
                proof {
                    assert(self.groups@ =~= before.update(0, g));
                    assert forall|b: int| groups_bounded(start, b) implies groups_bounded(self.groups@, b) by {
                        assert forall|k: int| 0 <= k < self.groups@.len() implies group_bounded(
                            #[trigger] self.groups@[k],
                            b,
                        ) by {
                            assert(start[k + group] == before[k]);
                            assert(group_bounded(start[k + group], b));
                            if k == 0 {
                                let g0 = before[0];
                                if !config_packet {
                                    let d = g0.datagrams()[0];
                                    let kk = choose|kk: int|
                                        0 <= kk <= g0.segments().len() && g.segments()
                                            == g0.segments().subrange(kk, g0.segments().len() as int)
                                            && (forall|j: int|
                                            0 <= j < kk ==> #[trigger] segment_seqs(g0.segments())[j]
                                                < d.kypacket_seq) && (forall|j: int|
                                            kk <= j < g0.segments().len() ==> #[trigger] segment_seqs(
                                                g0.segments(),
                                            )[j] >= d.kypacket_seq);
                                    assert forall|j: int| 0 <= j < g.segments().len() implies #[trigger] g.segments()[j].seq()
                                        <= b by {
                                        assert(g.segments()[j] == g0.segments()[j + kk]);
                                    }
                                    assert forall|j: int| 0 <= j < g.datagrams().len() implies #[trigger] g.datagrams()[j].kypacket_seq
                                        <= b by {
                                        assert(g.datagrams()[j] == g0.datagrams()[j + 1]);
                                    }
                                }
                            } else {
                                assert(self.groups@[k] == before[k]);
                            }
                        }
                    }
                }
                Action::Packet { kypacket_seq: seq, packet }
            },
        }
    }
}


impl PendingGroups {
    /// How many groups are pending.
    pub fn len(&self) -> (n: usize)
        ensures
            n == self.groups().len(),
    {
        self.groups.len()
    }

    /// The group at position `i`, in group order.
    pub fn group_at(&self, i: usize) -> (g: &VideoGroup)
        requires
            i < self.groups().len(),
        ensures
            *g == self.groups()[i as int],
            self.wf() ==> g.wf(),
    {
        &self.groups[i]
    }
}

impl PendingGroups {
    /// Drops, in the group at position `index`, the packets still being
    /// reassembled whose sequence number is before `until`.
    pub fn drop_expired_segments(&mut self, index: usize, until: u64)
        requires
            old(self).wf(),
            index < old(self).groups().len(),
        ensures
            final(self).wf(),
            final(self).groups().len() == old(self).groups().len(),
            forall|k: int|
                0 <= k < final(self).groups().len() && k != index ==> #[trigger] final(self).groups()[k]
                    == old(self).groups()[k],
            final(self).groups()[index as int].group() == old(self).groups()[index as int].group(),
            final(self).groups()[index as int].config() == old(self).groups()[index as int].config(),
            final(self).groups()[index as int].datagrams() == old(self).groups()[index as int].datagrams(),
            segments_from(
                old(self).groups()[index as int].segments(),
                until,
                final(self).groups()[index as int].segments(),
            ),
            forall|b: int| groups_bounded(old(self).groups(), b) ==> groups_bounded(final(self).groups(), b),
    {
        let (others, other_bytes) = self.usage_except(index);
        let ghost before = self.groups@;
        let mut g = self.groups.remove(index);
        assert(g == before[index as int]);
        g.drop_expired_segments(until);
        proof {
            assert(g.fits(others as int, other_bytes as int));
            Self::lemma_put_back(before, index as int, g, others as int, other_bytes as int);
            assert(before.remove(index as int).insert(index as int, g) =~= before.update(
                index as int,
                g,
            ));
        }
        self.groups.insert(index, g);
        proof {
            assert(self.groups@ =~= before.update(index as int, g));
            let g0 = before[index as int];
            assert forall|b: int| groups_bounded(before, b) implies groups_bounded(self.groups@, b) by {
                assert(group_bounded(g0, b));
                let kk = choose|kk: int|
                    0 <= kk <= g0.segments().len() && g.segments() == g0.segments().subrange(
                        kk,
                        g0.segments().len() as int,
                    ) && (forall|j: int| 0 <= j < kk ==> #[trigger] segment_seqs(g0.segments())[j] < until)
                        && (forall|j: int|
                        kk <= j < g0.segments().len() ==> #[trigger] segment_seqs(g0.segments())[j]
                            >= until);
                assert forall|j: int| 0 <= j < g.segments().len() implies #[trigger] g.segments()[j].seq()
                    <= b by {
                    assert(g.segments()[j] == g0.segments()[j + kk]);
                }
                assert forall|k: int| 0 <= k < self.groups@.len() implies group_bounded(
                    #[trigger] self.groups@[k],
                    b,
                ) by {
                    if k != index {
                        assert(self.groups@[k] == before[k]);
                    }
                }
            }
        }
    }
}

/// A bound on the sequence numbers held by the groups is also any larger
/// bound.
proof fn lemma_bounded_grows(s: Seq<VideoGroup>, a: int, b: int)
    requires
        groups_bounded(s, a),
        a <= b,
    ensures
        groups_bounded(s, b),
{
    assert forall|k: int| 0 <= k < s.len() implies group_bounded(#[trigger] s[k], b) by {
        assert(group_bounded(s[k], a));
    }
}

/// The message of a sequence space that can no longer be unrolled.
pub open spec fn video_exhausted_message() -> Seq<char> {
    invalid_message("video sequence space exhausted"@)
}

/// The outcome of a call, without its value.
pub open spec fn outcome<T>(r: Result<T, ProtocolError>) -> Result<(), ProtocolError> {
    match r {
        Ok(_) => Ok(()),
        Err(e) => Err(e),
    }
}

/// What the receiver hands its client in one step: a packet, with the
/// number of packets skipped before it; or nothing, until the deadline if
/// there is one.
#[derive(Debug)]
pub enum VideoStep {
    Deliver { kypacket_seq: u64, missing_packets: u64, packet: AVPacket },
    Wait(Option<u64>),
}

/// The step that hands out packet `p` numbered `s` when `next` is expected.
pub open spec fn video_delivery(s: u64, p: AVPacket, next: u64) -> VideoStep {
    VideoStep::Deliver {
        kypacket_seq: s,
        missing_packets: if s > next {
            (s - next) as u64
        } else {
            0
        },
        packet: p,
    }
}

/// The receive state of a video stream: the unrollers of the packet and
/// group sequence numbers, the pending groups and the next expected packet.
pub struct VideoFecReceiver {
    kypacket_sequencer: Sequencer<u32>,
    group_sequencer: Sequencer<u32>,
    groups: PendingGroups,
    next_kypacket_seq: u64,
}

impl VideoFecReceiver {
    pub closed spec fn newest(&self) -> int {
        self.kypacket_sequencer.newest() as int
    }

    pub closed spec fn newest_group(&self) -> int {
        self.group_sequencer.newest() as int
    }

    pub closed spec fn next(&self) -> u64 {
        self.next_kypacket_seq
    }

    pub closed spec fn pending(&self) -> Seq<VideoGroup> {
        self.groups.groups()
    }

    /// The pending groups are well formed, every packet they hold is
    /// numbered at most the newest packet number seen, and both unrolled
    /// spaces stay far below the end of the 64-bit range.
    pub closed spec fn wf(&self) -> bool {
        &&& self.groups.wf()
        &&& self.kypacket_sequencer.newest() <= u64::MAX - 0x8000_0000
        &&& self.group_sequencer.newest() <= u64::MAX - 0x8000_0000
        &&& groups_bounded(self.groups.groups(), self.kypacket_sequencer.newest() as int)
    }

    pub fn new() -> (r: Self)
        ensures
            r.wf(),
            r.newest() == 0,
            r.newest_group() == 0,
            r.next() == 0,
            r.pending().len() == 0,
    {
        VideoFecReceiver {
            kypacket_sequencer: Sequencer::new(),
            group_sequencer: Sequencer::new(),
            groups: PendingGroups::new(),
            next_kypacket_seq: 0,
        }
    }

    /// Unrolls the packet and group numbers of a message, or refuses once
    /// either 64-bit space is nearly used up.
    fn unroll(&mut self, raw_kypacket_seq: u32, raw_group_seq: u32) -> (r: Result<
        (u64, u64),
        ProtocolError,
    >)
        requires
            old(self).wf(),
        ensures
            final(self).groups == old(self).groups,
            final(self).next_kypacket_seq == old(self).next_kypacket_seq,
            match r {
                Ok((s, g)) => {
                    &&& unroll_fits(old(self).newest(), raw_kypacket_seq as int, 0x1_0000_0000)
                    &&& unroll_fits(old(self).newest_group(), raw_group_seq as int, 0x1_0000_0000)
                    &&& unrolls_to(old(self).newest(), raw_kypacket_seq, s)
                    &&& unrolls_to(old(self).newest_group(), raw_group_seq, g)
                    &&& old(self).newest() <= final(self).newest()
                    &&& s <= final(self).newest()
                    &&& final(self).wf()
                },
                Err(e) => !(unroll_fits(old(self).newest(), raw_kypacket_seq as int, 0x1_0000_0000) && unroll_fits(old(self).newest_group(), raw_group_seq as int, 0x1_0000_0000)) && e.0@ == video_exhausted_message() && *final(self) == *old(self),
            },
    {
        if !self.kypacket_sequencer.can_unroll(raw_kypacket_seq)
            || !self.group_sequencer.can_unroll(raw_group_seq) {
            return Err(invalid("video sequence space exhausted"));
        }
        let ghost bound = self.kypacket_sequencer.newest() as int;
        let s = self.kypacket_sequencer.seq(raw_kypacket_seq);
        let g = self.group_sequencer.seq(raw_group_seq);
        proof {
            lemma_bounded_grows(self.groups.groups(), bound, self.kypacket_sequencer.newest() as int);
        }
        Ok((s, g))
    }

    /// A packet from the reliable stream. A codec packet goes to the client
    /// at once; any other packet, once its numbers are unrolled, is offered
    /// to its group as the configuration packet, unless it comes before the
    /// expected packet.
    pub fn on_stream_packet(&mut self, raw_kypacket_seq: u32, raw_group_seq: u32, packet: AVPacket) -> (r:
        Result<Option<AVPacket>, ProtocolError>)
        requires
            old(self).wf(),
        ensures
            final(self).wf(),
            final(self).next() == old(self).next(),
            match packet {
                AVPacket::Codec(_) => r == Ok::<Option<AVPacket>, ProtocolError>(Some(packet))
                    && *final(self) == *old(self),
                _ => {
                    &&& r matches Ok(o) ==> o is None
                    &&& !(unroll_fits(old(self).newest(), raw_kypacket_seq as int, 0x1_0000_0000) && unroll_fits(old(self).newest_group(), raw_group_seq as int, 0x1_0000_0000))
                        ==> (r matches Err(e) && e.0@ == video_exhausted_message())
                        && final(self).pending() == old(self).pending()
                    &&& unroll_fits(old(self).newest(), raw_kypacket_seq as int, 0x1_0000_0000) && unroll_fits(old(self).newest_group(), raw_group_seq as int, 0x1_0000_0000)
                        ==> exists|s: u64, g: u64|
                        #![trigger unrolls_to(old(self).newest(), raw_kypacket_seq, s), unrolls_to(old(self).newest_group(), raw_group_seq, g)]
                        unrolls_to(old(self).newest(), raw_kypacket_seq, s) && unrolls_to(
                            old(self).newest_group(),
                            raw_group_seq,
                            g,
                        ) && if s < old(self).next() {
                            r is Ok && final(self).pending() == old(self).pending()
                        } else {
                            stream_inserted(
                                old(self).pending(),
                                final(self).pending(),
                                g,
                                s,
                                packet,
                                outcome(r),
                            )
                        }
                },
            },
    {
        match &packet {
            AVPacket::Codec(_) => {
                return Ok(Some(packet));
            },
            _ => {},
        }
        let (s, g) = match self.unroll(raw_kypacket_seq, raw_group_seq) {
            Ok(p) => p,
            Err(e) => {
                return Err(e);
            },
        };
        if s < self.next_kypacket_seq {
            return Ok(None);
        }
        let r = self.groups.insert_stream_packet(g, s, packet);
        match r {
            Ok(()) => Ok(None),
            Err(e) => Err(e),
        }
    }

    /// A symbol from a datagram, received at `now`. A symbol of a packet
    /// before the expected one is dropped (`false`); any other goes to its
    /// group (`true`).
    pub fn on_datagram(
        &mut self,
        raw_kypacket_seq: u32,
        raw_group_seq: u32,
        oti: Oti,
        payload_id: PayloadId,
        data: Vec<u8>,
        now: u64,
    ) -> (r: Result<bool, ProtocolError>)
        requires
            old(self).wf(),
            payload_id.encoding_symbol_id < 0x100_0000,
            now <= INSTANT_LIMIT,
        ensures
            final(self).wf(),
            final(self).next() == old(self).next(),
            !(unroll_fits(old(self).newest(), raw_kypacket_seq as int, 0x1_0000_0000) && unroll_fits(old(self).newest_group(), raw_group_seq as int, 0x1_0000_0000)) ==> (r matches Err(
                e,
            ) && e.0@ == video_exhausted_message()) && final(self).pending() == old(self).pending(),
            unroll_fits(old(self).newest(), raw_kypacket_seq as int, 0x1_0000_0000) && unroll_fits(old(self).newest_group(), raw_group_seq as int, 0x1_0000_0000) ==> exists|
                s: u64,
                g: u64,
            |
                #![trigger unrolls_to(old(self).newest(), raw_kypacket_seq, s), unrolls_to(old(self).newest_group(), raw_group_seq, g)]
                unrolls_to(old(self).newest(), raw_kypacket_seq, s) && unrolls_to(
                    old(self).newest_group(),
                    raw_group_seq,
                    g,
                ) && if s < old(self).next() {
                    r == Ok::<bool, ProtocolError>(false) && final(self).pending() == old(self).pending()
                } else {
                    (r matches Ok(b) ==> b) && datagram_inserted(
                        old(self).pending(),
                        final(self).pending(),
                        g,
                        s,
                        oti,
                        payload_id,
                        data@,
                        now,
                        outcome(r),
                    )
                },
    {
        let (s, g) = match self.unroll(raw_kypacket_seq, raw_group_seq) {
            Ok(p) => p,
            Err(e) => {
                return Err(e);
            },
        };
        if s < self.next_kypacket_seq {
            return Ok(false);
        }
        let r = self.groups.insert_datagram(g, s, oti, payload_id, data, now);
        match r {
            Ok(()) => Ok(true),
            Err(e) => Err(e),
        }
    }

    /// One step of handing packets to the client at instant `now`: the next
    /// packet the groups designate, with the number of packets skipped before
    /// it, after which the packet following it is expected; or nothing to
    /// hand out yet.
    pub fn next_step(&mut self, now: u64) -> (r: VideoStep)
        requires
            old(self).wf(),
        ensures
            final(self).wf(),
            final(self).newest() == old(self).newest(),
            final(self).newest_group() == old(self).newest_group(),
            match next_from(old(self).pending(), 0, old(self).next(), now) {
                VideoNext::Nothing => r matches VideoStep::Wait(None) && *final(self) == *old(self),
                VideoNext::Deadline(d) => (r matches VideoStep::Wait(w) && w == Some(d)) && *final(self)
                    == *old(self),
                VideoNext::Ready { group, config_packet } => {
                    &&& designated(old(self).pending(), next_from(old(self).pending(), 0, old(self).next(), now))
                        matches Some((s, p)) && r == video_delivery(s, p, old(self).next())
                        && final(self).next() == s + 1
                    &&& final(self).pending().len() == old(self).pending().len() - group
                    &&& forall|k: int|
                        1 <= k < final(self).pending().len() ==> #[trigger] final(self).pending()[k]
                            == old(self).pending()[k + group]
                    &&& packet_taken(old(self).pending()[group as int], final(self).pending()[0], config_packet)
                },
            },
    {
        let ghost g0 = self.groups.groups();
        let ghost bound = self.kypacket_sequencer.newest() as int;
        proof {
            lemma_next_from_ready(g0, 0, self.next_kypacket_seq, now);
            match next_from(g0, 0, self.next_kypacket_seq, now) {
                VideoNext::Ready { group, config_packet } => {
                    assert(group_bounded(g0[group as int], bound));
                    if !config_packet {
                        assert(g0[group as int].datagrams()[0].kypacket_seq <= bound);
                    }
                },
                _ => {},
            }
        }
        let action = self.groups.take_next_packet(self.next_kypacket_seq, now);
        match action {
            Action::Idle => VideoStep::Wait(None),
            Action::Deadline(d) => VideoStep::Wait(Some(d)),
            Action::Packet { kypacket_seq, packet } => {
                let next = self.next_kypacket_seq;
                self.next_kypacket_seq = kypacket_seq + 1;
                let missing_packets = if kypacket_seq > next {
                    kypacket_seq - next
                } else {
                    0
                };
                VideoStep::Deliver { kypacket_seq, missing_packets, packet }
            },
        }
    }
}

/// Datagram header: endpoint id (2 bytes), packet sequence number (4),
/// group sequence number (4), transmission information (12), payload id
/// (4).
pub const DATAGRAM_HEADER_SIZE: usize = 26;

/// A datagram of the video stream, split into its parts.
#[derive(Debug)]
pub struct DatagramMsg {
    pub data: Vec<u8>,
    pub raw_kypacket_seq: u32,
    pub raw_group_seq: u32,
    pub oti: Oti,
    pub payload_id: PayloadId,
}

impl DatagramMsg {
    /// Splits a video datagram: the packet and group sequence numbers follow
    /// the endpoint id, then come the checked transmission information and
    /// payload id, then the symbol.
    pub fn parse(datagram: &[u8]) -> (r: Result<Self, ProtocolError>)
        ensures
            match r {
                Ok(m) => {
                    &&& datagram_problem(
                        datagram@,
                        DATAGRAM_HEADER_SIZE as int,
                        MAX_VIDEO_PAYLOAD as int,
                    ) is None
                    &&& m.raw_kypacket_seq == be32_value(datagram@.subrange(2, 6))
                    &&& m.raw_group_seq == be32_value(datagram@.subrange(6, 10))
                    &&& m.oti == oti_of(datagram@.subrange(10, 22))
                    &&& m.payload_id == payload_id_of(datagram@.subrange(22, 26))
                    &&& m.payload_id.encoding_symbol_id < 0x100_0000
                    &&& m.data@ == datagram@.subrange(26, datagram@.len() as int)
                },
                Err(e) => datagram_problem(
                    datagram@,
                    DATAGRAM_HEADER_SIZE as int,
                    MAX_VIDEO_PAYLOAD as int,
                ) matches Some(reason) && e.0@ == invalid_message(reason),
            },
    {
        match parse_datagram(datagram, DATAGRAM_HEADER_SIZE, MAX_VIDEO_PAYLOAD) {
            Ok((data, oti, payload_id)) => {
                let raw_kypacket_seq = read_be_u32(vstd::slice::slice_subrange(datagram, 2, 6));
                let raw_group_seq = read_be_u32(vstd::slice::slice_subrange(datagram, 6, 10));
                let ghost b = datagram@.subrange(22, 26);
                assert((b[1] as u32) * 0x1_0000 + (b[2] as u32) * 0x100 + (b[3] as u32)
                    < 0x100_0000);
                Ok(DatagramMsg { data, raw_kypacket_seq, raw_group_seq, oti, payload_id })
            },
            Err(e) => Err(e),
        }
    }
}

/// Reads one record of the video stream from its unread bytes: a four-byte
/// packet sequence number and a four-byte group sequence number, then a
/// packet as `read_stream_packet` reads it. Returns both numbers, the packet
/// and the bytes used.
pub fn parse_stream_record(input: &[u8]) -> (r: Result<(u32, u32, AVPacket, usize), ProtocolError>)
    ensures
        input@.len() < 8 ==> (r matches Err(e) && e.0@ == early_eof_message()),
        input@.len() >= 8 ==> stream_packet_read(
            input@.subrange(8, input@.len() as int),
            MAX_VIDEO_PAYLOAD as int,
            match r {
                Ok((_, _, p, n)) => Ok((p, (n - 8) as usize)),
                Err(e) => Err(e),
            },
        ),
        r matches Ok((raw_kypacket_seq, raw_group_seq, p, n)) ==> raw_kypacket_seq == be32_value(
            input@,
        ) && raw_group_seq == be32_value(input@.subrange(4, 8)) && 8 < n <= input@.len(),
{
    if input.len() < 8 {
        return Err(ProtocolError::from_message("early eof"));
    }
    let raw_kypacket_seq = read_be_u32(input);
    let raw_group_seq = read_be_u32(vstd::slice::slice_subrange(input, 4, 8));
    let rest = vstd::slice::slice_subrange(input, 8, input.len());
    match read_stream_packet(rest, MAX_VIDEO_PAYLOAD) {
        Ok((packet, n)) => {
            assert(n <= rest@.len()) by {
                if rest@.len() >= HEADER_SIZE && rest@[0] & 0x80 != 0 {
                    assert(rest@.subrange(0, HEADER_SIZE as int)[0] == rest@[0]);
                }
            }
            Ok((raw_kypacket_seq, raw_group_seq, packet, n + 8))
        },
        Err(e) => Err(e),
    }
}

/// What the sender does with one packet: write a record on the reliable
/// stream, or code the packet's bytes into datagrams under its sequence
/// numbers.
#[derive(Debug)]
pub enum VideoSend {
    Stream(Vec<u8>),
    Datagrams { kypacket_seq: u32, group_seq: u32, object: Vec<u8> },
}

/// The send state of a video stream: the sequence number of the next media
/// packet and that of the current group.
pub struct VideoFecSender {
    kypacket_seq: u32,
    group_seq: u32,
}

/// The successor of `x`, wrapping at 32 bits.
pub open spec fn next_u32(x: u32) -> u32 {
    if x == u32::MAX {
        0
    } else {
        (x + 1) as u32
    }
}

impl VideoFecSender {
    pub closed spec fn seq(&self) -> u32 {
        self.kypacket_seq
    }

    pub closed spec fn group(&self) -> u32 {
        self.group_seq
    }

    pub fn new() -> (s: Self)
        ensures
            s.seq() == 0,
            s.group() == 0,
    {
        VideoFecSender { kypacket_seq: 0, group_seq: 0 }
    }

    /// A codec packet goes on the stream after two meaningless zero sequence
    /// numbers. A configuration packet opens the next group and goes on the
    /// stream after its packet and group sequence numbers; any other media
    /// packet goes as datagrams under both numbers. Each media packet takes
    /// the next packet sequence number; both numbers wrap at 32 bits.
    pub fn send(&mut self, packet: AVPacket) -> (a: VideoSend)
        requires
            !(packet is Hole),
            writable_av(packet),
        ensures
            match packet {
                AVPacket::Codec(_) => a matches VideoSend::Stream(b) && b@ == be32(0) + be32(0)
                    + av_record(packet) && final(self).seq() == old(self).seq() && final(self).group()
                    == old(self).group(),
                AVPacket::Media(m) => final(self).seq() == next_u32(old(self).seq()) && if m.header.is_config {
                    &&& final(self).group() == next_u32(old(self).group())
                    &&& a matches VideoSend::Stream(b) && b@ == be32(old(self).seq()) + be32(
                        final(self).group(),
                    ) + av_record(packet)
                } else {
                    &&& final(self).group() == old(self).group()
                    &&& a matches VideoSend::Datagrams { kypacket_seq, group_seq, object }
                        && kypacket_seq == old(self).seq() && group_seq == old(self).group()
                        && object@ == av_record(packet)
                },
                _ => true,
            },
    {
        match packet {
            AVPacket::Codec(c) => {
                let mut out: Vec<u8> = Vec::new();
                let z = be_bytes_u32(0);
                append_bytes(&mut out, &z);
                append_bytes(&mut out, &z);
                let h = c.header.serialize();
                append_bytes(&mut out, &h);
                VideoSend::Stream(out)
            },
            AVPacket::Media(m) => {
                let seq = self.kypacket_seq;
                self.kypacket_seq = self.kypacket_seq.wrapping_add(1);
                let h = m.header.serialize();
                let mut object: Vec<u8> = Vec::new();
                append_bytes(&mut object, &h);
                append_bytes(&mut object, m.payload.as_slice());
                if m.header.is_config {
                    self.group_seq = self.group_seq.wrapping_add(1);
                    let mut out: Vec<u8> = Vec::new();
                    let s = be_bytes_u32(seq);
                    let g = be_bytes_u32(self.group_seq);
                    append_bytes(&mut out, &s);
                    append_bytes(&mut out, &g);
                    append_bytes(&mut out, object.as_slice());
                    assert(out@ =~= be32(seq) + be32(self.group_seq) + av_record(AVPacket::Media(m)));
                    VideoSend::Stream(out)
                } else {
                    VideoSend::Datagrams { kypacket_seq: seq, group_seq: self.group_seq, object }
                }
            },
            AVPacket::Hole(_) => VideoSend::Stream(Vec::new()),
        }
    }
}

/// The bytes of one video datagram: endpoint id, packet and group sequence
/// numbers, transmission information, payload id and symbol.
pub fn frame_datagram(
    endpoint_id: u16,
    kypacket_seq: u32,
    group_seq: u32,
    oti: &[u8],
    payload_id: &[u8],
    data: &[u8],
) -> (b: Vec<u8>)
    requires
        oti@.len() == 12,
        payload_id@.len() == 4,
    ensures
        b@ == be16(endpoint_id) + be32(kypacket_seq) + be32(group_seq) + oti@ + payload_id@ + data@,
{
    let mut out: Vec<u8> = Vec::new();
    let e = be_bytes_u16(endpoint_id);
    let s = be_bytes_u32(kypacket_seq);
    let g = be_bytes_u32(group_seq);
    append_bytes(&mut out, &e);
    append_bytes(&mut out, &s);
    append_bytes(&mut out, &g);
    append_bytes(&mut out, oti);
    append_bytes(&mut out, payload_id);
    append_bytes(&mut out, data);
    out
}


/// A media packet of a group is handed out only once the group's
/// configuration packet has been: while that packet waits, it goes first;
/// and nothing is handed out from a group whose configuration packet has
/// not arrived.
pub proof fn lemma_video_media_after_config(s: Seq<VideoGroup>, next: u64, now: u64)
    requires
        s.len() <= usize::MAX,
    ensures
        next_from(s, 0, next, now) matches VideoNext::Ready { group, config_packet } ==> {
            &&& 0 <= group < s.len()
            &&& !(s[group as int].config() is NotReceived)
            &&& !config_packet ==> s[group as int].config() is Sent
        },
{
    lemma_next_from_ready_sent(s, 0, next, now);
}

proof fn lemma_next_from_ready_sent(s: Seq<VideoGroup>, k: int, next: u64, now: u64)
    requires
        0 <= k,
        s.len() <= usize::MAX,
    ensures
        next_from(s, k, next, now) matches VideoNext::Ready { group, config_packet } ==> {
            &&& k <= group < s.len()
            &&& !(s[group as int].config() is NotReceived)
            &&& !config_packet ==> s[group as int].config() is Sent
        },
    decreases s.len() - k,
{
    if k < s.len() {
        lemma_next_from_ready_sent(s, k + 1, next, now);
    }
}

/// Packets are skipped only after the buffering delay: when the first group
/// that can hand something out holds a reassembled packet that is not the
/// expected one, that packet goes out only once the delay after the
/// earliest completion in any group has passed, and until then the
/// receiver waits for exactly that instant.
pub proof fn lemma_video_gap_waits_for_delay(s: Seq<VideoGroup>, next: u64, now: u64)
    requires
        s.len() > 0,
        s[0].config() is Sent || (s[0].config() matches ConfigPacket::Ready(p) && p.kypacket_seq
            != next),
        s[0].datagrams().len() > 0,
        s[0].datagrams()[0].kypacket_seq != next,
        forall|k: int| 0 <= k < s.len() ==> #[trigger] s[k].wf(),
    ensures
        groups_min_instant(s) matches Some(m) && match next_from(s, 0, next, now) {
            VideoNext::Ready { group, .. } => group == 0 && m + MAX_BUFFERING_MICROS <= now,
            VideoNext::Deadline(d) => d == m + MAX_BUFFERING_MICROS && now < d,
            VideoNext::Nothing => false,
        },
{
    lemma_groups_min_some(s, 0);
    lemma_groups_min_bounded(s);
}

/// Where a group holds a reassembled packet, there is an earliest
/// completion instant.
proof fn lemma_groups_min_some(s: Seq<VideoGroup>, k: int)
    requires
        0 <= k < s.len(),
        s[k].datagrams().len() > 0,
    ensures
        groups_min_instant(s) is Some,
    decreases s.len(),
{
    if k < s.len() - 1 {
        lemma_groups_min_some(s.drop_last(), k);
    }
}

/// Group `g` waits to hand out packet `x`: its configuration packet, or one
/// of its reassembled packets.
pub open spec fn awaits(g: VideoGroup, x: u64) -> bool {
    (g.config() matches ConfigPacket::Ready(p) && p.kypacket_seq == x) || datagram_seqs(
        g.datagrams(),
    ).contains(x)
}

/// The packets that the groups wait to hand out are in sequence order: in
/// each group the configuration packet comes before the reassembled ones,
/// and every packet of a group comes before those of the groups after it.
pub open spec fn awaited_in_order(s: Seq<VideoGroup>) -> bool {
    &&& forall|k: int, i: int|
        0 <= k < s.len() && 0 <= i < s[k].datagrams().len() ==> (s[k].config() matches ConfigPacket::Ready(p)
            ==> p.kypacket_seq < #[trigger] s[k].datagrams()[i].kypacket_seq)
    &&& forall|j: int, k: int, x: u64, y: u64|
        #![trigger awaits(s[j], x), awaits(s[k], y)]
        0 <= j < k < s.len() && awaits(s[j], x) && awaits(s[k], y) ==> x < y
}

/// Packets are handed out in increasing sequence order: where the packets
/// the groups wait to hand out are in sequence order, the packet handed out
/// after packet `q`, once `q + 1` is expected, comes after `q`.
pub proof fn lemma_video_deliveries_increase(
    s0: Seq<VideoGroup>,
    s1: Seq<VideoGroup>,
    next: u64,
    now: u64,
    later: u64,
    q: u64,
    q2: u64,
)
    requires
        s0.len() <= usize::MAX,
        forall|k: int| 0 <= k < s0.len() ==> #[trigger] s0[k].wf(),
        awaited_in_order(s0),
        next_from(s0, 0, next, now) matches VideoNext::Ready { group, config_packet } && s1.len()
            == s0.len() - group && (forall|k: int|
            1 <= k < s1.len() ==> #[trigger] s1[k] == s0[k + group]) && packet_taken(
            s0[group as int],
            s1[0],
            config_packet,
        ),
        designated(s0, next_from(s0, 0, next, now)) matches Some(d) && d.0 == q,
        q < u64::MAX,
        designated(s1, next_from(s1, 0, (q + 1) as u64, later)) matches Some(e) && e.0 == q2,
    ensures
        q < q2,
{
    lemma_next_from_ready(s0, 0, next, now);
    lemma_next_from_ready_sent(s0, 0, next, now);
    lemma_next_from_ready(s1, 0, (q + 1) as u64, later);
    lemma_next_from_ready_sent(s1, 0, (q + 1) as u64, later);
    if let VideoNext::Ready { group, config_packet } = next_from(s0, 0, next, now) {
        if let VideoNext::Ready { group: g2, config_packet: c2 } = next_from(
            s1,
            0,
            (q + 1) as u64,
            later,
        ) {
            let a = s0[group as int];
            if g2 == 0 {
                if config_packet {
                    assert(s1[0].datagrams()[0] == a.datagrams()[0]);
                } else {
                    assert(s1[0].datagrams()[0] == a.datagrams()[1]);
                    assert(a.wf());
                    assert(datagram_seqs(a.datagrams())[0] < datagram_seqs(a.datagrams())[1]);
                }
            } else {
                let k = g2 + group;
                let b = s0[k as int];
                assert(s1[g2 as int] == b);
                if !config_packet {
                    assert(datagram_seqs(a.datagrams())[0] == q);
                }
                assert(awaits(a, q));
                if !c2 {
                    assert(datagram_seqs(b.datagrams())[0] == q2);
                }
                assert(awaits(b, q2));
            }
        }
    }
}

/// Group `g` holds no reassembled packet, and no configuration packet
/// numbered `next` waits in it.
pub open spec fn holds_nothing_numbered(g: VideoGroup, next: u64) -> bool {
    g.datagrams().len() == 0 && !(g.config() matches ConfigPacket::Ready(p) && p.kypacket_seq == next)
}

/// Groups before `k` that hold no reassembled packet and no configuration
/// packet numbered `next` leave the decision to the groups from `k` on.
proof fn lemma_next_from_passes_over(s: Seq<VideoGroup>, j: int, k: int, next: u64, now: u64)
    requires
        0 <= j <= k < s.len(),
        forall|i: int| 0 <= i < k ==> holds_nothing_numbered(#[trigger] s[i], next),
    ensures
        next_from(s, j, next, now) == next_from(s, k, next, now),
    decreases k - j,
{
    if j < k {
        lemma_next_from_passes_over(s, j + 1, k, next, now);
        assert(holds_nothing_numbered(s[j], next));
    }
}

/// Progress: a group with nothing left to hand out never blocks the groups
/// after it. Where every group before group `k` holds no reassembled packet
/// and no configuration packet numbered `next`, the decision is group `k`'s
/// as soon as group `k` has the packet numbered `next`: its configuration
/// packet numbered `next` goes out; or, once its configuration packet has
/// arrived, its oldest reassembled packet numbered `next` goes out, preceded
/// by the configuration packet if that is still waiting.
pub proof fn lemma_video_drained_groups_never_block(
    s: Seq<VideoGroup>,
    k: int,
    next: u64,
    now: u64,
)
    requires
        0 <= k < s.len(),
        s.len() <= usize::MAX,
        forall|i: int| 0 <= i < k ==> holds_nothing_numbered(#[trigger] s[i], next),
    ensures
        (s[k].config() matches ConfigPacket::Ready(p) && p.kypacket_seq == next) ==> next_from(
            s,
            0,
            next,
            now,
        ) == (VideoNext::Ready { group: k as usize, config_packet: true }),
        !(s[k].config() is NotReceived) && s[k].datagrams().len() > 0 && s[k].datagrams()[0].kypacket_seq
            == next ==> next_from(s, 0, next, now) == (VideoNext::Ready {
            group: k as usize,
            config_packet: s[k].config() is Ready,
        }),
{
    lemma_next_from_passes_over(s, 0, k, next, now);
}

/// The earliest completion instant over the groups is that of a
/// reassembled packet of some group and no later than any; there is one
/// wherever some group holds a reassembled packet.
proof fn lemma_groups_min_member(s: Seq<VideoGroup>)
    ensures
        (exists|j: int| 0 <= j < s.len() && #[trigger] s[j].datagrams().len() > 0)
            ==> groups_min_instant(s) is Some,
        groups_min_instant(s) matches Some(m) ==> (exists|j: int, i: int|
            0 <= j < s.len() && 0 <= i < s[j].datagrams().len() && #[trigger] s[j].datagrams()[i].instant
                == m),
        groups_min_instant(s) matches Some(m) ==> (forall|j: int, i: int|
            0 <= j < s.len() && 0 <= i < s[j].datagrams().len() ==> m <= #[trigger] s[j].datagrams()[i].instant),
    decreases s.len(),
{
    if s.len() > 0 {
        let d = s.drop_last();
        let last = s.len() - 1;
        lemma_groups_min_member(d);
        assert forall|j: int| 0 <= j < d.len() implies #[trigger] d[j] == s[j] by {}
        if s[last].datagrams().len() > 0 {
            lemma_min_instant_member(s[last].datagrams());
        }
        if exists|j: int| 0 <= j < s.len() && #[trigger] s[j].datagrams().len() > 0 {
            let j = choose|j: int| 0 <= j < s.len() && #[trigger] s[j].datagrams().len() > 0;
            if j < last {
                assert(d[j].datagrams().len() > 0);
            }
        }
        if let Some(m) = groups_min_instant(s) {
            let dm = groups_min_instant(d);
            if s[last].datagrams().len() > 0 && (dm is None || min_instant_of(s[last].datagrams()) < dm->0) {
                let i = choose|i: int|
                    0 <= i < s[last].datagrams().len() && s[last].datagrams()[i].instant
                        == min_instant_of(s[last].datagrams());
                assert(s[last].datagrams()[i].instant == m);
            } else {
                let (j, i) = choose|j: int, i: int|
                    0 <= j < d.len() && 0 <= i < d[j].datagrams().len() && #[trigger] d[j].datagrams()[i].instant
                        == dm->0;
                assert(s[j].datagrams()[i].instant == m);
            }
            assert forall|j: int, i: int|
                0 <= j < s.len() && 0 <= i < s[j].datagrams().len() implies m
                <= #[trigger] s[j].datagrams()[i].instant by {
                if j < last {
                    assert(d[j].datagrams()[i].instant == s[j].datagrams()[i].instant);
                }
            }
        }
    }
}

/// `m` is the earliest instant at which a reassembled packet of any of the
/// groups was completed.
pub open spec fn earliest_completion(s: Seq<VideoGroup>, m: u64) -> bool {
    &&& exists|j: int, i: int|
        0 <= j < s.len() && 0 <= i < s[j].datagrams().len() && #[trigger] s[j].datagrams()[i].instant
            == m
    &&& forall|j: int, i: int|
        0 <= j < s.len() && 0 <= i < s[j].datagrams().len() ==> m
            <= #[trigger] s[j].datagrams()[i].instant
}

/// Gaps in any group: where every group before group `k` holds nothing
/// numbered `next`, and group `k`, whose configuration packet has arrived,
/// holds reassembled packets but neither its oldest one nor a waiting
/// configuration packet is numbered `next`, the packet numbered `next` is
/// missing. Group `k` then hands out what it holds (its configuration packet
/// first if that is still waiting) once the buffering delay after the
/// earliest completion in any group has passed, and until then the
/// receiver waits for exactly that instant.
pub proof fn lemma_video_gap_in_any_group(s: Seq<VideoGroup>, k: int, next: u64, now: u64)
    requires
        0 <= k < s.len(),
        s.len() <= usize::MAX,
        forall|i: int| 0 <= i < k ==> holds_nothing_numbered(#[trigger] s[i], next),
        !(s[k].config() is NotReceived),
        !(s[k].config() matches ConfigPacket::Ready(p) && p.kypacket_seq == next),
        s[k].datagrams().len() > 0,
        s[k].datagrams()[0].kypacket_seq != next,
    ensures
        exists|m: u64|
            #[trigger] earliest_completion(s, m) && next_from(s, 0, next, now) == if m
                + MAX_BUFFERING_MICROS <= now {
                VideoNext::Ready { group: k as usize, config_packet: s[k].config() is Ready }
            } else {
                VideoNext::Deadline((m + MAX_BUFFERING_MICROS) as u64)
            },
{
    lemma_next_from_passes_over(s, 0, k, next, now);
    lemma_groups_min_member(s);
    assert(s[k].datagrams().len() > 0);
    let m = groups_min_instant(s)->0;
    assert(earliest_completion(s, m));
    assert(next_from(s, 0, next, now) == if m + MAX_BUFFERING_MICROS <= now {
        VideoNext::Ready { group: k as usize, config_packet: s[k].config() is Ready }
    } else {
        VideoNext::Deadline((m + MAX_BUFFERING_MICROS) as u64)
    });
}

/// Nothing to hand out: where no group holds a reassembled packet or a
/// configuration packet numbered `next`, the receiver neither hands out a
/// packet nor waits for an instant.
pub proof fn lemma_video_idle_without_packets(s: Seq<VideoGroup>, next: u64, now: u64)
    requires
        forall|i: int| 0 <= i < s.len() ==> holds_nothing_numbered(#[trigger] s[i], next),
    ensures
        next_from(s, 0, next, now) == VideoNext::Nothing,
{
    lemma_idle_from(s, 0, next, now);
}

proof fn lemma_idle_from(s: Seq<VideoGroup>, j: int, next: u64, now: u64)
    requires
        0 <= j,
        forall|i: int| 0 <= i < s.len() ==> holds_nothing_numbered(#[trigger] s[i], next),
    ensures
        next_from(s, j, next, now) == VideoNext::Nothing,
    decreases s.len() - j,
{
    if j < s.len() {
        lemma_idle_from(s, j + 1, next, now);
        assert(holds_nothing_numbered(s[j], next));
    }
}

} // verus!
