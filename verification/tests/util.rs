use kymux::auth::{ClientAuth, TokenSizeInvalid, TOKEN_MAX_LEN};
use kymux::driver::{
    read_exact_step, write_all_step, ProtocolEndpoint, ProtocolEndpointDriver,
    ReadExactStep, RecvStream, RecvStreamDriver, SendStream, SendStreamDriver,
};
use kymux::net::{ns, saturate_nanos, CertError, ConnectionError, ReadError, ReadExactError};
use kymux::util::{hex_to_bytes, DecodeHexError};

#[test]
fn hex_decodes_pairs_of_either_case() {
    assert_eq!(hex_to_bytes("00ff7Fa0").unwrap(), vec![0x00, 0xff, 0x7f, 0xa0]);
    assert_eq!(hex_to_bytes("").unwrap(), Vec::<u8>::new());
    assert_eq!(hex_to_bytes("abc"), Err(DecodeHexError::OddLength));
    assert!(matches!(hex_to_bytes("zz"), Err(DecodeHexError::ParseInt(_))));
    assert!(matches!(hex_to_bytes("00g0"), Err(DecodeHexError::ParseInt(_))));
    // `from_str_radix` accepts a sign before a single digit.
    assert_eq!(hex_to_bytes("+f").unwrap(), vec![0x0f]);
    assert!(matches!(hex_to_bytes("-f"), Err(DecodeHexError::ParseInt(_))));
}

#[test]
fn tokens_longer_than_the_limit_are_refused() {
    let ok = "a".repeat(TOKEN_MAX_LEN);
    assert_eq!(ClientAuth::new(&ok).unwrap().token(), ok);
    let long = "a".repeat(TOKEN_MAX_LEN + 1);
    assert_eq!(ClientAuth::new(&long).err(), Some(TokenSizeInvalid));
    // The limit counts bytes, not characters.
    let wide = "é".repeat(TOKEN_MAX_LEN / 2 + 1);
    assert!(ClientAuth::new(&wide).is_err());
}

#[test]
fn durations_saturate_to_64_bits_of_nanoseconds() {
    assert_eq!(ns(std::time::Duration::from_micros(3)), 3_000);
    assert_eq!(ns(std::time::Duration::from_secs(u64::MAX)), u64::MAX);
    assert_eq!(saturate_nanos(5), 5);
    assert_eq!(saturate_nanos(u128::MAX), u64::MAX);
}

#[test]
fn errors_convert_as_declared() {
    let e: ReadExactError = ReadError("boom".to_string()).into();
    assert_eq!(e, ReadExactError::ReadError(ReadError("boom".to_string())));
    let c: ConnectionError = CertError("bad cert".to_string()).into();
    assert_eq!(c, ConnectionError("bad cert".to_string()));
}

#[test]
fn read_exact_and_write_all_steps() {
    assert_eq!(read_exact_step(0, 4, Some(3)), ReadExactStep::Continue(3));
    assert_eq!(read_exact_step(3, 4, Some(1)), ReadExactStep::Done);
    assert_eq!(read_exact_step(3, 4, None), ReadExactStep::FinishedEarly(3));
    assert_eq!(read_exact_step(0, 0, None), ReadExactStep::Done);
    assert_eq!(write_all_step(0, 4, 3), Some(3));
    assert_eq!(write_all_step(3, 4, 1), None);
}

#[derive(Debug)]
struct Fake {
    id: u16,
    resets: u32,
    stops: u32,
}

impl ProtocolEndpointDriver for Fake {
    type Protocol = ();
    fn spec_id(&self) -> u16 {
        self.id
    }
    fn id(&self) -> u16 {
        self.id
    }
}

impl SendStreamDriver for Fake {
    fn is_reset(&self) -> bool {
        self.resets > 0
    }
    fn reset(&mut self) {
        self.resets += 1;
    }
}

impl RecvStreamDriver for Fake {
    fn is_stopped(&self) -> bool {
        self.stops > 0
    }
    fn stop(&mut self) {
        self.stops += 1;
    }
}

#[test]
fn handles_delegate_to_their_drivers() {
    let endpoint = ProtocolEndpoint::new(Fake {
        id: 9,
        resets: 0,
        stops: 0,
    });
    assert_eq!(endpoint.id(), 9);
    let mut send = SendStream::new(endpoint.into_driver());
    send.reset();
    assert_eq!(send.driver_mut().resets, 1);
    assert!(send.driver_mut().is_reset());
    let mut recv = RecvStream::new(Fake {
        id: 1,
        resets: 0,
        stops: 0,
    });
    recv.stop();
    recv.stop();
    assert_eq!(recv.driver_mut().stops, 2);
    assert!(recv.driver_mut().is_stopped());
}

#[test]
fn protocol_errors_display_with_their_prefix() {
    let e = kymux::error::ProtocolError::from_message("bad");
    assert_eq!(e.to_string(), "Protocol error: bad");
    assert_eq!(kymux::error::ProtocolError::new(42).0, "42");
}

#[test]
fn decoding_stops_at_the_first_bad_pair_before_any_wide_character() {
    assert!(matches!(hex_to_bytes("zzaéb"), Err(DecodeHexError::ParseInt(_))));
    let v: Vec<u8> = (0..=255u8).collect();
    let lower: String = v.iter().map(|b| format!("{b:02x}")).collect();
    let upper: String = v.iter().map(|b| format!("{b:02X}")).collect();
    assert_eq!(hex_to_bytes(&lower).unwrap(), v);
    assert_eq!(hex_to_bytes(&upper).unwrap(), v);
}
