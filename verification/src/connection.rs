//! What a protocol connection decides on its own: the ids of the endpoints
//! it opens, the protocols an endpoint may run, and the statistics that the
//! protocols fill.
use vstd::prelude::*;

verus! {

/// The video protocols an endpoint may run.
#[derive(Clone, Copy, Debug, PartialEq, Eq, Structural)]
pub enum VideoProtocol {
    Reliable,
    GopStream,
    Unreliable,
    UnreliableFec,
}

/// The audio protocols an endpoint may run.
#[derive(Clone, Copy, Debug, PartialEq, Eq, Structural)]
pub enum AudioProtocol {
    Reliable,
    Unreliable,
    UnreliableFec,
}

/// The low bit of the endpoint ids that the server side chooses.
pub const INITIATOR_SERVER: u16 = 0;

/// The low bit of the endpoint ids that the client side chooses.
pub const INITIATOR_CLIENT: u16 = 1;

/// The id of the endpoint opened with index `index` by the side whose low
/// bit is `initiator`: the index shifted left by one bit, within 16 bits,
/// with the side's bit below it.
pub open spec fn endpoint_id_of(index: u16, initiator: u16) -> u16 {
    ((index << 1u16) | initiator) as u16
}

/// The endpoint ids one side of a connection hands out: the index of the
/// next endpoint, and the side's low bit.
pub struct EndpointIds {
    next_index: u16,
    initiator: u16,
}

impl EndpointIds {
    pub closed spec fn next_index(&self) -> u16 {
        self.next_index
    }

    pub closed spec fn initiator(&self) -> u16 {
        self.initiator
    }

    pub fn new(initiator: u16) -> (e: Self)
        ensures
            e.next_index() == 0,
            e.initiator() == initiator,
    {
        EndpointIds { next_index: 0, initiator }
    }

    /// The id of a new endpoint: the one asked for, or else the next one of
    /// this side, the index moving on (wrapping at 16 bits).
    pub fn get_endpoint_id(&mut self, id: Option<u16>) -> (r: u16)
        ensures
            final(self).initiator() == old(self).initiator(),
            match id {
                Some(x) => r == x && final(self).next_index() == old(self).next_index(),
                None => r == endpoint_id_of(old(self).next_index(), old(self).initiator())
                    && final(self).next_index() == (if old(self).next_index() == u16::MAX {
                    0
                } else {
                    (old(self).next_index() + 1) as u16
                }),
            },
    {
        match id {
            Some(x) => x,
            None => {
                let index = self.next_index;
                self.next_index = self.next_index.wrapping_add(1);
                (index << 1) | self.initiator
            },
        }
    }
}

/// The server and the client never choose the same endpoint id: the
/// server's ids are even and the client's odd.
pub proof fn lemma_sides_choose_apart(server_index: u16, client_index: u16)
    ensures
        endpoint_id_of(server_index, INITIATOR_SERVER) != endpoint_id_of(
            client_index,
            INITIATOR_CLIENT,
        ),
        endpoint_id_of(server_index, INITIATOR_SERVER) % 2 == 0,
        endpoint_id_of(client_index, INITIATOR_CLIENT) % 2 == 1,
{
    assert(((server_index << 1u16) | 0u16) as u16 % 2 == 0) by (bit_vector);
    assert(((client_index << 1u16) | 1u16) as u16 % 2 == 1) by (bit_vector);
}

/// One side never chooses the same id twice among fewer than 2^15
/// consecutive endpoints.
pub proof fn lemma_ids_distinct(i: u16, j: u16, initiator: u16)
    requires
        i != j,
        i < 0x8000,
        j < 0x8000,
        initiator <= 1,
    ensures
        endpoint_id_of(i, initiator) != endpoint_id_of(j, initiator),
{
    assert(i != j && i < 0x8000 && j < 0x8000 && initiator <= 1 ==> ((i << 1u16) | initiator) as u16
        != ((j << 1u16) | initiator) as u16) by (bit_vector);
}

/// What the protocols report of a connection.
#[derive(Clone, Copy, Debug, PartialEq, Eq, Structural)]
pub struct ProtocolStats {
    /// The unreliable packets not received, or received too late.
    pub dropped_packets: Option<u64>,
}

impl Default for ProtocolStats {
    fn default() -> (s: Self)
        ensures
            s.dropped_packets is None,
    {
        ProtocolStats { dropped_packets: None }
    }
}

impl ProtocolStats {
    pub fn new() -> (s: Self)
        ensures
            s.dropped_packets is None,
    {
        ProtocolStats { dropped_packets: None }
    }

    /// Counts `missing` more dropped packets.
    pub fn record_dropped(&mut self, missing: u64)
        requires
            (match old(self).dropped_packets {
                Some(d) => d as int,
                None => 0int,
            }) + missing <= u64::MAX,
        ensures
            final(self).dropped_packets == Some(
                ((match old(self).dropped_packets {
                    Some(d) => d as int,
                    None => 0int,
                }) + missing) as u64,
            ),
    {
        let dropped = match self.dropped_packets {
            Some(d) => d,
            None => 0,
        };
        self.dropped_packets = Some(dropped + missing);
    }
}

} // verus!
