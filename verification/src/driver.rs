//! The handles through which protocols, streams and connections are driven.
//!
//! Each handle owns a driver. The synchronous operations of a driver are
//! declared here; the asynchronous ones (sending, receiving, waiting for a
//! peer) belong to the transport that implements the driver.
use crate::auth::ClientAuth;
use vstd::prelude::*;

verus! {

/// Sends packets of one kind over some transport.
pub trait ProtocolSendDriver {
    type Packet;
}

/// Receives packets of one kind over some transport.
pub trait ProtocolRecvDriver {
    type Packet;
}

/// An endpoint that becomes a protocol once its peer is ready.
pub trait ProtocolEndpointDriver {
    type Protocol;

    /// The id of the endpoint.
    spec fn spec_id(&self) -> u16;

    /// The endpoint's id.
    fn id(&self) -> (r: u16)
        ensures
            r == self.spec_id(),
    ;
}

/// The sending half of a protocol.
pub struct ProtocolSend<D> {
    driver: D,
}

impl<D: ProtocolSendDriver> ProtocolSend<D> {
    pub closed spec fn spec_driver(&self) -> D {
        self.driver
    }

    pub fn new(driver: D) -> (s: Self)
        ensures
            s.spec_driver() == driver,
    {
        ProtocolSend { driver }
    }

    /// The driver, to send through.
    pub fn driver_mut(&mut self) -> (d: &mut D)
        ensures
            *d == old(self).spec_driver(),
            final(self).spec_driver() == *final(d),
    {
        &mut self.driver
    }
}

/// The receiving half of a protocol.
pub struct ProtocolRecv<D> {
    driver: D,
}

impl<D: ProtocolRecvDriver> ProtocolRecv<D> {
    pub closed spec fn spec_driver(&self) -> D {
        self.driver
    }

    pub fn new(driver: D) -> (s: Self)
        ensures
            s.spec_driver() == driver,
    {
        ProtocolRecv { driver }
    }

    /// The driver, to receive through.
    pub fn driver_mut(&mut self) -> (d: &mut D)
        ensures
            *d == old(self).spec_driver(),
            final(self).spec_driver() == *final(d),
    {
        &mut self.driver
    }
}

/// An endpoint, identified by its id, waiting to become a protocol.
pub struct ProtocolEndpoint<D> {
    driver: D,
}

impl<D: ProtocolEndpointDriver> ProtocolEndpoint<D> {
    pub closed spec fn spec_driver(&self) -> D {
        self.driver
    }

    pub fn new(driver: D) -> (e: Self)
        ensures
            e.spec_driver() == driver,
    {
        ProtocolEndpoint { driver }
    }

    /// The id that the driver reports.
    pub fn id(&self) -> (r: u16)
        ensures
            r == self.spec_driver().spec_id(),
    {
        self.driver.id()
    }

    /// The driver, to wait on until the protocol is ready.
    pub fn into_driver(self) -> (d: D)
        ensures
            d == self.spec_driver(),
    {
        self.driver
    }
}

/// The synchronous part of a stream's sending side.
pub trait SendStreamDriver {
    /// The stream was abandoned.
    spec fn is_reset(&self) -> bool;

    /// Abandons the stream; an error because it was already closed is ignored.
    fn reset(&mut self)
        ensures
            final(self).is_reset(),
    ;
}

/// The synchronous part of a stream's receiving side.
pub trait RecvStreamDriver {
    /// The peer was asked to stop sending.
    spec fn is_stopped(&self) -> bool;

    /// Asks the peer to stop sending; an error because the stream was already
    /// closed is ignored.
    fn stop(&mut self)
        ensures
            final(self).is_stopped(),
    ;
}

/// The sending side of a stream.
#[derive(Debug)]
pub struct SendStream<D> {
    driver: D,
}

impl<D: SendStreamDriver> SendStream<D> {
    pub closed spec fn spec_driver(&self) -> D {
        self.driver
    }

    pub fn new(driver: D) -> (s: Self)
        ensures
            s.spec_driver() == driver,
    {
        SendStream { driver }
    }

    /// Abandons the stream through its driver.
    pub fn reset(&mut self)
        ensures
            final(self).spec_driver().is_reset(),
    {
        self.driver.reset()
    }

    /// The driver, to write through.
    pub fn driver_mut(&mut self) -> (d: &mut D)
        ensures
            *d == old(self).spec_driver(),
            final(self).spec_driver() == *final(d),
    {
        &mut self.driver
    }
}

/// The receiving side of a stream.
#[derive(Debug)]
pub struct RecvStream<D> {
    driver: D,
}

impl<D: RecvStreamDriver> RecvStream<D> {
    pub closed spec fn spec_driver(&self) -> D {
        self.driver
    }

    pub fn new(driver: D) -> (s: Self)
        ensures
            s.spec_driver() == driver,
    {
        RecvStream { driver }
    }

    /// Asks the peer to stop sending, through the driver.
    pub fn stop(&mut self)
        ensures
            final(self).spec_driver().is_stopped(),
    {
        self.driver.stop()
    }

    /// The driver, to read through.
    pub fn driver_mut(&mut self) -> (d: &mut D)
        ensures
            *d == old(self).spec_driver(),
            final(self).spec_driver() == *final(d),
    {
        &mut self.driver
    }
}

/// The error code that closes a connection whose token was refused: an
/// application error.
pub const APPLICATION_ERROR: u32 = 0xc;

/// A connection that can be closed with an error code and a reason.
pub trait CloseConnection {
    fn close(&self, error_code: u32, reason: &str);
}

/// A connection whose client has presented a token that the server has not
/// yet accepted or refused.
pub struct UnauthenticatedConnection<C, S, R> {
    conn: C,
    token: ClientAuth,
    tx: S,
    rx: R,
}

impl<C: CloseConnection, S, R> UnauthenticatedConnection<C, S, R> {
    pub closed spec fn spec_token(&self) -> ClientAuth {
        self.token
    }

    pub closed spec fn spec_parts(&self) -> (C, S, R) {
        (self.conn, self.tx, self.rx)
    }

    pub fn new(conn: C, token: ClientAuth, tx: S, rx: R) -> (u: Self)
        ensures
            u.spec_token() == token,
            u.spec_parts() == (conn, tx, rx),
    {
        UnauthenticatedConnection { conn, token, tx, rx }
    }

    /// The token the client presented.
    pub fn get_auth(&self) -> (a: &ClientAuth)
        ensures
            *a == self.spec_token(),
    {
        &self.token
    }

    /// The connection and its two streams, to accept the client with.
    pub fn into_parts(self) -> (p: (C, S, R))
        ensures
            p == self.spec_parts(),
    {
        (self.conn, self.tx, self.rx)
    }

    /// Refuses the client: the connection is closed with an application
    /// error.
    pub fn reject_authentication(self) {
        self.conn.close(APPLICATION_ERROR, "Application token mismatch");
    }
}

/// Where a `read_exact` into a buffer of `len` bytes stands after one read.
#[derive(Debug, Clone, Copy, PartialEq, Eq, Structural)]
pub enum ReadExactStep {
    /// Read again, into the buffer from this offset.
    Continue(usize),
    /// The buffer is full.
    Done,
    /// The stream ended after this many bytes.
    FinishedEarly(usize),
}

/// One step of filling a buffer of `len` bytes, `offset` of which are
/// filled, given what the last read returned: a count of bytes, or the end
/// of the stream.
pub fn read_exact_step(offset: usize, len: usize, read: Option<usize>) -> (s: ReadExactStep)
    requires
        offset <= len,
        read matches Some(n) ==> n <= len - offset,
    ensures
        match read {
            None => s == if offset < len {
                ReadExactStep::FinishedEarly(offset)
            } else {
                ReadExactStep::Done
            },
            Some(n) => s == if offset + n == len {
                ReadExactStep::Done
            } else {
                ReadExactStep::Continue((offset + n) as usize)
            },
        },
{
    match read {
        None => {
            if offset < len {
                ReadExactStep::FinishedEarly(offset)
            } else {
                ReadExactStep::Done
            }
        },
        Some(n) => {
            let filled = offset + n;
            if filled == len {
                ReadExactStep::Done
            } else {
                ReadExactStep::Continue(filled)
            }
        },
    }
}

/// One step of writing all of a buffer of `len` bytes, `offset` of which
/// are written, after a write of `written` bytes: the new offset, or nothing
/// once all is written.
pub fn write_all_step(offset: usize, len: usize, written: usize) -> (s: Option<usize>)
    requires
        offset <= len,
        written <= len - offset,
    ensures
        offset + written == len ==> s is None,
        offset + written < len ==> s == Some((offset + written) as usize),
{
    let o = offset + written;
    if o == len {
        None
    } else {
        Some(o)
    }
}

} // verus!
