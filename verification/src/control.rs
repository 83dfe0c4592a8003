//! The control channel of a connection: endpoint registration and the
//! readiness handshake, as a state machine over the pending endpoints.
//!
//! Each pending wait is represented by a value of the waiter type `W`, which
//! the transport wakes when the machine hands it back.
use crate::net::ReadExactError;
use crate::wire::{be32, be32_value, be_bytes_u32, read_be_u32};
use std::collections::{HashMap, HashSet};
use vstd::prelude::*;

use crate::text::digit_str;

verus! {

/// A control error, with its message.
#[derive(Debug, Clone, PartialEq, Eq)]
pub struct ControlError(pub String);

/// The messages exchanged on the control channel.
#[derive(Debug, Clone, Copy, PartialEq, Eq, Structural)]
pub enum ControlMsg {
    RegisterEndpoint { endpoint_id: u16 },
    EndpointRegistered { endpoint_id: u16 },
    Ready { endpoint_id: u16 },
}

/// A readiness wait: the peer said it is ready before the local side asked,
/// or the local side waits for the peer.
#[derive(Debug)]
pub enum PendingReady<W> {
    AwaitingLocal,
    AwaitingRemote(W),
}

/// What the transport does after a message was handled: send a reply, wake a
/// waiter, or nothing.
#[derive(Debug)]
pub enum ControlReply<W> {
    Send(ControlMsg),
    Wake(W),
    Nothing,
}

/// How a readiness wait was registered: the peer was already ready, or the
/// waiter now waits for it.
#[derive(Debug, Clone, Copy, PartialEq, Eq, Structural)]
pub enum ReadyRegistration {
    AlreadyReady,
    Waiting,
}

/// The character of a hexadecimal digit, upper case.
pub open spec fn hex_digit_char(d: int) -> char {
    if d < 10 {
        (48 + d) as char
    } else {
        (55 + d) as char
    }
}

/// `v` in upper-case hexadecimal, without leading zeros.
pub open spec fn upper_hex(v: nat) -> Seq<char>
    decreases v,
{
    if v < 16 {
        seq![hex_digit_char(v as int)]
    } else {
        upper_hex(v / 16).push(hex_digit_char((v % 16) as int))
    }
}

/// `v` in upper-case hexadecimal digits, without leading zeros, as
/// `format!("{:X}", v)` writes it.
pub(crate) fn upper_hex_string(v: u16) -> (s: String)
    ensures
        s@ == upper_hex(v as nat),
    decreases v,
{
    if v < 16 {
        String::from_str(digit_str(v as u8, true))
    } else {
        let s = upper_hex_string(v / 16).concat(digit_str((v % 16) as u8, true));
        assert(s@ =~= upper_hex((v / 16) as nat).push(hex_digit_char((v % 16) as int)));
        s
    }
}

fn error_with_id(prefix: &str, endpoint_id: u16) -> (e: ControlError)
    ensures
        e.0@ == prefix@ + upper_hex(endpoint_id as nat),
{
    let h = upper_hex_string(endpoint_id);
    ControlError(String::from_str(prefix).concat(h.as_str()))
}

/// The pending state of the control channel: registrations waiting for the
/// peer's acknowledgement, endpoints the peer registered, and readiness
/// waits.
pub struct ControlState<W> {
    pending_register_ack: HashMap<u16, W>,
    pending_connect: HashSet<u16>,
    pending_ready: HashMap<u16, PendingReady<W>>,
}

impl<W> ControlState<W> {
    pub closed spec fn acks(&self) -> Map<u16, W> {
        self.pending_register_ack@
    }

    pub closed spec fn connects(&self) -> Set<u16> {
        self.pending_connect@
    }

    pub closed spec fn ready(&self) -> Map<u16, PendingReady<W>> {
        self.pending_ready@
    }

    pub fn new() -> (s: Self)
        ensures
            s.acks() == Map::<u16, W>::empty(),
            s.connects() == Set::<u16>::empty(),
            s.ready() == Map::<u16, PendingReady<W>>::empty(),
    {
        ControlState {
            pending_register_ack: HashMap::new(),
            pending_connect: HashSet::new(),
            pending_ready: HashMap::new(),
        }
    }

    /// Registers a local endpoint, whose `waiter` waits for the peer's
    /// acknowledgement; an endpoint already waiting is refused.
    pub fn register_endpoint(&mut self, endpoint_id: u16, waiter: W) -> (r: Result<
        (),
        ControlError,
    >)
        ensures
            final(self).connects() == old(self).connects(),
            final(self).ready() == old(self).ready(),
            old(self).acks().contains_key(endpoint_id) ==> (r matches Err(e) && e.0@
                == "Endpoint already pending: "@ + upper_hex(endpoint_id as nat)) && final(self).acks() == old(self).acks(),
            !old(self).acks().contains_key(endpoint_id) ==> r is Ok && final(self).acks() == old(self).acks().insert(endpoint_id, waiter),
    {
        broadcast use vstd::std_specs::hash::group_hash_axioms;

        if self.pending_register_ack.contains_key(&endpoint_id) {
            return Err(error_with_id("Endpoint already pending: ", endpoint_id));
        }
        self.pending_register_ack.insert(endpoint_id, waiter);
        Ok(())
    }

    /// Registers the local side's wait for the peer's readiness on an
    /// endpoint: if the peer was already ready the wait is over at once; a
    /// second wait on one endpoint is refused.
    pub fn register_ready_notifier(&mut self, endpoint_id: u16, waiter: W) -> (r: Result<
        ReadyRegistration,
        ControlError,
    >)
        ensures
            final(self).acks() == old(self).acks(),
            final(self).connects() == old(self).connects(),
            match old(self).ready().get(endpoint_id) {
                Some(PendingReady::AwaitingRemote(_)) => (r matches Err(e) && e.0@
                    == "Endpoint already registered for ready notifications: "@ + upper_hex(
                    endpoint_id as nat,
                )) && final(self).ready() == old(self).ready(),
                Some(PendingReady::AwaitingLocal) => r == Ok::<
                    ReadyRegistration,
                    ControlError,
                >(ReadyRegistration::AlreadyReady) && final(self).ready() == old(self).ready().remove(endpoint_id),
                None => r == Ok::<ReadyRegistration, ControlError>(ReadyRegistration::Waiting)
                    && final(self).ready() == old(self).ready().insert(
                    endpoint_id,
                    PendingReady::AwaitingRemote(waiter),
                ),
            },
    {
        broadcast use vstd::std_specs::hash::group_hash_axioms;

        match self.pending_ready.get(&endpoint_id) {
            Some(PendingReady::AwaitingRemote(_)) => {
                return Err(
                    error_with_id(
                        "Endpoint already registered for ready notifications: ",
                        endpoint_id,
                    ),
                );
            },
            Some(PendingReady::AwaitingLocal) => {
                self.pending_ready.remove(&endpoint_id);
                return Ok(ReadyRegistration::AlreadyReady);
            },
            None => {},
        }
        self.pending_ready.insert(endpoint_id, PendingReady::AwaitingRemote(waiter));
        Ok(ReadyRegistration::Waiting)
    }

    /// Handles a message from the peer. A registration is acknowledged
    /// unless the endpoint was registered before; an acknowledgement wakes
    /// the registration waiting for it; a readiness wakes the local wait, or
    /// is remembered until the local side asks; a second one is refused.
    pub fn handle_msg(&mut self, msg: ControlMsg) -> (r: Result<ControlReply<W>, ControlError>)
        ensures
            match msg {
                ControlMsg::RegisterEndpoint { endpoint_id } => {
                    &&& final(self).acks() == old(self).acks()
                    &&& final(self).ready() == old(self).ready()
                    &&& final(self).connects() == old(self).connects().insert(endpoint_id)
                    &&& if old(self).connects().contains(endpoint_id) {
                        r matches Err(e) && e.0@ == "Endpoint already registered: "@ + upper_hex(
                            endpoint_id as nat,
                        )
                    } else {
                        r matches Ok(ControlReply::Send(m)) && m
                            == ControlMsg::EndpointRegistered { endpoint_id }
                    }
                },
                ControlMsg::EndpointRegistered { endpoint_id } => {
                    &&& final(self).connects() == old(self).connects()
                    &&& final(self).ready() == old(self).ready()
                    &&& final(self).acks() == old(self).acks().remove(endpoint_id)
                    &&& if old(self).acks().contains_key(endpoint_id) {
                        r matches Ok(ControlReply::Wake(w)) && w == old(self).acks()[endpoint_id]
                    } else {
                        r matches Err(e) && e.0@
                            == "Received unexpected registration ack for endpoint "@ + upper_hex(
                            endpoint_id as nat,
                        )
                    }
                },
                ControlMsg::Ready { endpoint_id } => {
                    &&& final(self).connects() == old(self).connects()
                    &&& final(self).acks() == old(self).acks()
                    &&& match old(self).ready().get(endpoint_id) {
                        Some(PendingReady::AwaitingRemote(w)) => (r matches Ok(
                            ControlReply::Wake(x),
                        ) && x == w) && final(self).ready() == old(self).ready().remove(
                            endpoint_id,
                        ),
                        Some(PendingReady::AwaitingLocal) => (r matches Err(e) && e.0@
                            == "Received multiple ready notifications for endpoint "@ + upper_hex(
                            endpoint_id as nat,
                        )) && final(self).ready() == old(self).ready().remove(endpoint_id),
                        None => (r matches Ok(ControlReply::Nothing)) && final(self).ready() == old(self).ready().insert(endpoint_id, PendingReady::AwaitingLocal),
                    }
                },
            },
    {
        broadcast use vstd::std_specs::hash::group_hash_axioms;

        match msg {
            ControlMsg::RegisterEndpoint { endpoint_id } => {
                if !self.pending_connect.insert(endpoint_id) {
                    return Err(error_with_id("Endpoint already registered: ", endpoint_id));
                }
                Ok(ControlReply::Send(ControlMsg::EndpointRegistered { endpoint_id }))
            },
            ControlMsg::EndpointRegistered { endpoint_id } => {
                match self.pending_register_ack.remove(&endpoint_id) {
                    Some(w) => Ok(ControlReply::Wake(w)),
                    None => Err(
                        error_with_id(
                            "Received unexpected registration ack for endpoint ",
                            endpoint_id,
                        ),
                    ),
                }
            },
            ControlMsg::Ready { endpoint_id } => {
                match self.pending_ready.remove(&endpoint_id) {
                    Some(PendingReady::AwaitingRemote(w)) => Ok(ControlReply::Wake(w)),
                    Some(PendingReady::AwaitingLocal) => Err(
                        error_with_id(
                            "Received multiple ready notifications for endpoint ",
                            endpoint_id,
                        ),
                    ),
                    None => {
                        self.pending_ready.insert(endpoint_id, PendingReady::AwaitingLocal);
                        Ok(ControlReply::Nothing)
                    },
                }
            },
        }
    }
}

/// A control message on the wire: its encoded length, big-endian on four
/// bytes, then the encoding.
pub fn frame_control_msg(encoded: &[u8]) -> (b: Vec<u8>)
    requires
        encoded@.len() <= u32::MAX,
    ensures
        b@ == be32(encoded@.len() as u32) + encoded@,
{
    let mut out: Vec<u8> = Vec::new();
    let len = be_bytes_u32(encoded.len() as u32);
    crate::serial::append_bytes(&mut out, &len);
    crate::serial::append_bytes(&mut out, encoded);
    out
}

/// What the length prefix of a control message says, or the end of the
/// channel: a stream that ends before any byte of the prefix ends the
/// channel cleanly; one that ends inside it, or fails, is an error.
pub fn control_msg_len(prefix: Result<[u8; 4], ReadExactError>) -> (r: Result<
    Option<u32>,
    ReadExactError,
>)
    ensures
        match prefix {
            Ok(b) => r == Ok::<Option<u32>, ReadExactError>(Some(be32_value(b@))),
            Err(ReadExactError::FinishedEarly(n)) => if n == 0 {
                r == Ok::<Option<u32>, ReadExactError>(None)
            } else {
                r == Err::<Option<u32>, ReadExactError>(ReadExactError::FinishedEarly(n))
            },
            Err(e) => r == Err::<Option<u32>, ReadExactError>(e),
        },
{
    match prefix {
        Ok(b) => Ok(Some(read_be_u32(&b))),
        Err(ReadExactError::FinishedEarly(n)) => {
            if n == 0 {
                Ok(None)
            } else {
                Err(ReadExactError::FinishedEarly(n))
            }
        },
        Err(e) => Err(e),
    }
}


/// The endpoint a datagram is for: its first two bytes, big-endian; a
/// datagram too short to name one is dropped.
pub fn datagram_endpoint_id(datagram: &[u8]) -> (r: Option<u16>)
    ensures
        datagram@.len() < 2 ==> r is None,
        datagram@.len() >= 2 ==> r == Some(crate::wire::be16_value(datagram@)),
{
    if datagram.len() < 2 {
        return None;
    }
    Some(crate::wire::read_be_u16(datagram))
}

/// The endpoint is already registered with the router.
#[derive(Debug, Clone, Copy, PartialEq, Eq, Structural)]
pub struct EndpointAlreadyRegistered {
    pub endpoint_id: u16,
}

/// The router's table of registered endpoints, each with the handle that
/// receives its streams and datagrams.
pub struct RouterTable<C> {
    clients: HashMap<u16, C>,
}

impl<C> RouterTable<C> {
    pub closed spec fn clients(&self) -> Map<u16, C> {
        self.clients@
    }

    pub fn new() -> (t: Self)
        ensures
            t.clients() == Map::<u16, C>::empty(),
    {
        RouterTable { clients: HashMap::new() }
    }

    /// Registers an endpoint; one registered before is refused.
    pub fn register(&mut self, endpoint_id: u16, client: C) -> (r: Result<
        (),
        EndpointAlreadyRegistered,
    >)
        ensures
            old(self).clients().contains_key(endpoint_id) ==> r == Err::<
                (),
                EndpointAlreadyRegistered,
            >(EndpointAlreadyRegistered { endpoint_id }) && final(self).clients() == old(self).clients(),
            !old(self).clients().contains_key(endpoint_id) ==> r is Ok && final(self).clients()
                == old(self).clients().insert(endpoint_id, client),
    {
        broadcast use vstd::std_specs::hash::group_hash_axioms;

        if self.clients.contains_key(&endpoint_id) {
            return Err(EndpointAlreadyRegistered { endpoint_id });
        }
        self.clients.insert(endpoint_id, client);
        Ok(())
    }

    /// The handle of a registered endpoint.
    pub fn get(&self, endpoint_id: u16) -> (r: Option<&C>)
        ensures
            match r {
                Some(c) => self.clients().contains_key(endpoint_id) && *c == self.clients()[endpoint_id],
                None => !self.clients().contains_key(endpoint_id),
            },
    {
        broadcast use vstd::std_specs::hash::group_hash_axioms;

        self.clients.get(&endpoint_id)
    }

    /// Removes an endpoint once its channel is dropped.
    pub fn remove(&mut self, endpoint_id: u16) -> (r: Option<C>)
        ensures
            final(self).clients() == old(self).clients().remove(endpoint_id),
            match r {
                Some(c) => old(self).clients().contains_key(endpoint_id) && c == old(self).clients()[endpoint_id],
                None => !old(self).clients().contains_key(endpoint_id),
            },
    {
        broadcast use vstd::std_specs::hash::group_hash_axioms;

        self.clients.remove(&endpoint_id)
    }
}


/// The readiness handshake of an endpoint leaves no trace, in either order:
/// when the local side waits first, the peer's readiness finds its waiter
/// and removes the wait; when the peer is first, its readiness is remembered
/// and the local side's registration finds it and removes it.
pub proof fn lemma_ready_handshake<W>(m: Map<u16, PendingReady<W>>, endpoint_id: u16, waiter: W)
    requires
        !m.contains_key(endpoint_id),
    ensures
        m.insert(endpoint_id, PendingReady::AwaitingRemote(waiter)).get(endpoint_id) == Some(
            PendingReady::AwaitingRemote(waiter),
        ),
        m.insert(endpoint_id, PendingReady::AwaitingRemote(waiter)).remove(endpoint_id) == m,
        m.insert(endpoint_id, PendingReady::<W>::AwaitingLocal).get(endpoint_id) == Some(
            PendingReady::<W>::AwaitingLocal,
        ),
        m.insert(endpoint_id, PendingReady::<W>::AwaitingLocal).remove(endpoint_id) == m,
{
    assert(m.insert(endpoint_id, PendingReady::AwaitingRemote(waiter)).remove(endpoint_id) =~= m);
    assert(m.insert(endpoint_id, PendingReady::<W>::AwaitingLocal).remove(endpoint_id) =~= m);
}

/// A registration is acknowledged by handing back the waiter it was
/// registered with, after which nothing is pending for that endpoint.
pub proof fn lemma_registration_acknowledged<W>(m: Map<u16, W>, endpoint_id: u16, waiter: W)
    requires
        !m.contains_key(endpoint_id),
    ensures
        m.insert(endpoint_id, waiter).contains_key(endpoint_id),
        m.insert(endpoint_id, waiter)[endpoint_id] == waiter,
        m.insert(endpoint_id, waiter).remove(endpoint_id) == m,
{
    assert(m.insert(endpoint_id, waiter).remove(endpoint_id) =~= m);
}

} // verus!
