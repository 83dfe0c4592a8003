//! Errors, statistics and options of the network transport.
use std::time::Duration;
use vstd::prelude::*;
use vstd::std_specs::convert::FromSpecImpl;
use vstd::string::StringSliceAdditionalSpecFns;
use crate::util::hex_digit;

verus! {

#[verifier::external_type_specification]
#[verifier::external_body]
pub struct ExIoError(std::io::Error);

#[verifier::external_type_specification]
#[verifier::external_body]
pub struct ExRustlsError(rustls::Error);

#[verifier::external_type_specification]
#[verifier::external_body]
pub struct ExFromHexError(hex::FromHexError);

/// A connection could not be made or was lost.
#[derive(Debug, Clone, PartialEq, Eq)]
pub struct ConnectionError(pub String);

/// A datagram could not be sent.
#[derive(Debug, Clone, PartialEq, Eq)]
pub struct SendDatagramError(pub String);

/// A stream could not be read.
#[derive(Debug, Clone, PartialEq, Eq)]
pub struct ReadError(pub String);

/// A stream ended, or failed, before the expected number of bytes came.
#[derive(Debug, Clone, PartialEq, Eq)]
pub enum ReadExactError {
    FinishedEarly(usize),
    ReadError(ReadError),
}

/// A stream could not be written.
#[derive(Debug, Clone, PartialEq, Eq)]
pub struct WriteError(pub String);

/// The stream was already closed.
#[derive(Debug, Clone, Copy, PartialEq, Eq, Structural)]
pub struct ClosedStreamError;

/// A certificate or key could not be used.
#[derive(Debug)]
pub struct CertError(pub String);

/// A certificate or key could not be read or used.
#[derive(Debug)]
pub enum LoadCertError {
    Io(std::io::Error),
    Cert(CertError),
}

impl From<ReadError> for ReadExactError {
    fn from(value: ReadError) -> (r: Self) {
        ReadExactError::ReadError(value)
    }
}

impl FromSpecImpl<ReadError> for ReadExactError {
    open spec fn obeys_from_spec() -> bool {
        true
    }

    open spec fn from_spec(v: ReadError) -> Self {
        ReadExactError::ReadError(v)
    }
}

impl From<CertError> for ConnectionError {
    fn from(value: CertError) -> (r: Self) {
        ConnectionError(value.0)
    }
}

impl FromSpecImpl<CertError> for ConnectionError {
    open spec fn obeys_from_spec() -> bool {
        true
    }

    open spec fn from_spec(v: CertError) -> Self {
        ConnectionError(v.0)
    }
}

impl From<CertError> for LoadCertError {
    fn from(value: CertError) -> (r: Self) {
        LoadCertError::Cert(value)
    }
}

impl FromSpecImpl<CertError> for LoadCertError {
    open spec fn obeys_from_spec() -> bool {
        true
    }

    open spec fn from_spec(v: CertError) -> Self {
        LoadCertError::Cert(v)
    }
}

impl From<std::io::Error> for LoadCertError {
    fn from(value: std::io::Error) -> (r: Self) {
        LoadCertError::Io(value)
    }
}

impl FromSpecImpl<std::io::Error> for LoadCertError {
    open spec fn obeys_from_spec() -> bool {
        true
    }

    open spec fn from_spec(v: std::io::Error) -> Self {
        LoadCertError::Io(v)
    }
}

impl From<std::io::Error> for ConnectionError {
    /// The error's displayed text.
    fn from(value: std::io::Error) -> (r: Self) {
        ConnectionError(value.to_string())
    }
}

/// The text a conversion gives is whatever the source error displays, which is
/// not modelled here.
impl FromSpecImpl<std::io::Error> for ConnectionError {
    open spec fn obeys_from_spec() -> bool {
        false
    }

    open spec fn from_spec(v: std::io::Error) -> Self {
        vstd::pervasive::arbitrary()
    }
}

impl From<rustls::Error> for ConnectionError {
    /// The error's displayed text.
    fn from(value: rustls::Error) -> (r: Self) {
        ConnectionError(value.to_string())
    }
}

/// The text a conversion gives is whatever the source error displays, which is
/// not modelled here.
impl FromSpecImpl<rustls::Error> for ConnectionError {
    open spec fn obeys_from_spec() -> bool {
        false
    }

    open spec fn from_spec(v: rustls::Error) -> Self {
        vstd::pervasive::arbitrary()
    }
}

impl From<rustls::Error> for CertError {
    /// The error's displayed text.
    fn from(value: rustls::Error) -> (r: Self) {
        CertError(value.to_string())
    }
}

/// The text a conversion gives is whatever the source error displays, which is
/// not modelled here.
impl FromSpecImpl<rustls::Error> for CertError {
    open spec fn obeys_from_spec() -> bool {
        false
    }

    open spec fn from_spec(v: rustls::Error) -> Self {
        vstd::pervasive::arbitrary()
    }
}

/// What a connection reports of its path, where the transport knows it.
#[derive(Debug, Clone, Copy)]
pub struct ConnectionStats {
    pub rtt: Option<Duration>,
    pub packets_lost: Option<u64>,
}

/// Idle timeout and keep-alive interval of a server.
pub struct CommonServerOptions {
    pub max_idle_timeout: Option<Duration>,
    pub keep_alive_interval: Option<Duration>,
}

impl Default for CommonServerOptions {
    fn default() -> (o: Self)
        ensures
            o.max_idle_timeout is None,
            o.keep_alive_interval is None,
    {
        CommonServerOptions { max_idle_timeout: None, keep_alive_interval: None }
    }
}

/// Idle timeout and keep-alive interval of a WebTransport client.
pub struct WTransportClientOptions {
    pub max_idle_timeout: Option<Duration>,
    pub keep_alive_interval: Option<Duration>,
}

impl Default for WTransportClientOptions {
    fn default() -> (o: Self)
        ensures
            o.max_idle_timeout is None,
            o.keep_alive_interval is None,
    {
        WTransportClientOptions { max_idle_timeout: None, keep_alive_interval: None }
    }
}

/// A hash that a browser checks a server's certificate against.
pub struct WebTransportCertificateHash {
    pub hash_algorithm: String,
    pub hash: String,
}

/// Time spent in each stage of sending, in nanoseconds, and what was sent.
#[derive(Clone, Copy, Debug, Default, PartialEq, Eq, Structural)]
pub struct Measurements {
    pub fec_total_ns: u64,
    pub fec_copy_ns: u64,
    pub fec_encoder_ns: u64,
    pub fec_repair_ns: u64,
    pub pacer_ns: u64,
    pub sleep_requested_ns: u64,
    pub sleeps: u64,
    pub quinn_ns: u64,
    pub quinn_max_ns: u64,
    pub datagrams: u64,
    pub datagram_bytes: u64,
}

/// The whole length of a duration in nanoseconds, as `Duration::as_nanos`
/// gives it.
pub uninterp spec fn nanos_of(d: Duration) -> u128;

/// `Duration::as_nanos`: the whole length of `d` in nanoseconds, a function
/// of the duration alone.
#[verifier::external_body]
fn duration_nanos(d: Duration) -> (n: u128)
    ensures
        n == nanos_of(d),
{
    d.as_nanos()
}

/// A count of nanoseconds, saturated to 64 bits.
pub fn saturate_nanos(n: u128) -> (r: u64)
    ensures
        r == (if n > u64::MAX { u64::MAX as u128 } else { n }),
{
    if n > u64::MAX as u128 {
        u64::MAX
    } else {
        n as u64
    }
}

/// The length of `duration` in nanoseconds, saturated to 64 bits.
pub fn ns(duration: Duration) -> (r: u64)
    ensures
        r == (if nanos_of(duration) > u64::MAX { u64::MAX as u128 } else { nanos_of(duration) }),
{
    saturate_nanos(duration_nanos(duration))
}

/// The bytes that the hexadecimal text `b` denotes: `None` for an odd
/// length or a byte that is no digit 0-9, a-f or A-F; else one byte per pair
/// of digits, the first digit the high one.
pub open spec fn hex_bytes_of(b: Seq<u8>) -> Option<Seq<u8>>
    decreases b.len(),
{
    if b.len() % 2 == 1 {
        None
    } else if b.len() == 0 {
        Some(Seq::empty())
    } else {
        match (hex_digit(b[0]), hex_digit(b[1]), hex_bytes_of(b.subrange(2, b.len() as int))) {
            (Some(h), Some(l), Some(rest)) => Some(seq![(h * 16 + l) as u8] + rest),
            _ => None,
        }
    }
}

/// `hex::decode`: as its source reads, text of odd length is refused, and
/// otherwise each pair of digits 0-9, a-f or A-F gives one byte, the first
/// digit the high one; any other byte is refused.
#[verifier::external_body]
fn decode_hex(s: &str) -> (r: Result<Vec<u8>, hex::FromHexError>)
    ensures
        match r {
            Ok(v) => hex_bytes_of(s.spec_bytes()) == Some(v@),
            Err(_) => hex_bytes_of(s.spec_bytes()) is None,
        },
{
    hex::decode(s)
}

/// Decodes the expected hash of the server's certificate from its
/// hexadecimal text.
pub fn decode_certificate_hash(expected_hash_hex: &str) -> (r: Result<Vec<u8>, ConnectionError>)
    ensures
        match r {
            Ok(v) => hex_bytes_of(expected_hash_hex.spec_bytes()) == Some(v@),
            Err(e) => hex_bytes_of(expected_hash_hex.spec_bytes()) is None && e.0@
                == "Invalid certificate hash hex string"@,
        },
{
    match decode_hex(expected_hash_hex) {
        Ok(v) => Ok(v),
        Err(_) => Err(ConnectionError(String::from_str("Invalid certificate hash hex string"))),
    }
}

} // verus!
