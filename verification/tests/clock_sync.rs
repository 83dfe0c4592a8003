use kymux::clock_sync::{
    encode_sync_request, encode_sync_response, next_request_id, read_sync_response,
    remaining_wait, validate_sync_request, validate_sync_response, ClockSyncAverage,
    ClockSyncResult,
};

fn response(endpoint_id: u16, req_id: u32, t1: i64, t2: i64, t3: i64) -> Vec<u8> {
    let mut buf = Vec::with_capacity(30);
    buf.extend_from_slice(&endpoint_id.to_be_bytes());
    buf.extend_from_slice(&req_id.to_be_bytes());
    buf.extend_from_slice(&t1.to_be_bytes());
    buf.extend_from_slice(&t2.to_be_bytes());
    buf.extend_from_slice(&t3.to_be_bytes());
    buf
}

#[test]
fn client_response_wrong_length_returns_error() {
    // A response that is too short (10 bytes instead of 30)
    let response = vec![0u8; 10];
    let result = validate_sync_response(&response, 0x0001);
    assert!(result.is_err());
}

#[test]
fn client_response_wrong_endpoint_id_returns_error() {
    // A 30-byte response with endpoint_id=0x0002 but expected 0x0001
    let result = validate_sync_response(&response(0x0002, 0, 0, 0, 0), 0x0001);
    assert!(result.is_err());
}

#[test]
fn client_response_valid_returns_ok() {
    let result = validate_sync_response(&response(0x0001, 0, 100, 200, 300), 0x0001);
    assert!(result.is_ok());
}

#[test]
fn server_request_wrong_length_returns_error() {
    // A datagram that is too short (5 bytes instead of 14)
    let datagram = vec![0u8; 5];
    let result = validate_sync_request(&datagram);
    assert!(result.is_err());
}

#[test]
fn server_request_valid_returns_ok() {
    let datagram = vec![0u8; 14];
    let result = validate_sync_request(&datagram);
    assert!(result.is_ok());
}

#[test]
fn error_messages_name_the_lengths_and_ids() {
    let err = validate_sync_response(&[0u8; 10], 1).unwrap_err();
    assert_eq!(err.0, "expected 30 byte clock sync response, got 10");
    let err = validate_sync_response(&response(0x0002, 0, 0, 0, 0), 1).unwrap_err();
    assert_eq!(err.0, "clock sync endpoint id mismatch: expected 1, got 2");
    let err = validate_sync_request(&[0u8; 5]).unwrap_err();
    assert_eq!(err.0, "expected 14 byte clock sync request, got 5");
}

#[test]
fn offset_and_delay_follow_the_four_timestamps() {
    let r = ClockSyncResult::new(100, 1_150, 1_160, 220);
    // ((1150 - 100) + (1160 - 220)) / 2
    assert_eq!(r.offset_micros(), 995);
    // (220 - 100) - (1160 - 1150)
    assert_eq!(r.delay_micros(), 110);
    // Rounded toward zero, as Rust's signed division.
    let r = ClockSyncResult::new(0, 0, 0, 1);
    assert_eq!(r.offset_micros(), 0);
    let r = ClockSyncResult::new(0, 0, 0, 3);
    assert_eq!(r.offset_micros(), -1);
}

#[test]
fn average_divides_the_sums_by_the_count() {
    let results = [
        ClockSyncResult::new(0, 10, 10, 2),
        ClockSyncResult::new(0, 20, 21, 3),
        ClockSyncResult::new(0, -5, -5, 4),
    ];
    let avg = ClockSyncAverage::from_results(&results);
    // offsets: 9, 19, -7 -> 21 / 3
    assert_eq!(avg.offset_micros(), 7);
    // delays: 2, 2, 4 -> 8 / 3
    assert_eq!(avg.delay_micros(), 2);
}

#[test]
fn request_and_response_round_trip() {
    let request = encode_sync_request(0x0102, 7, 1_000);
    assert_eq!(request.len(), 14);
    assert_eq!(&request[..2], &[1, 2]);
    let response = encode_sync_response(&request, 2_000, 2_010).unwrap();
    assert_eq!(response.len(), 30);
    assert!(encode_sync_response(&request[..13], 0, 0).is_err());
    let result = read_sync_response(&response, 0x0102, 7, 1_100).unwrap().unwrap();
    assert_eq!(result, ClockSyncResult::new(1_000, 2_000, 2_010, 1_100));
    // The answer to another request is ignored.
    assert!(read_sync_response(&response, 0x0102, 8, 1_100).unwrap().is_none());
    assert!(read_sync_response(&response, 0x0103, 7, 1_100).is_err());
}

#[test]
fn waits_until_the_timeout() {
    assert_eq!(remaining_wait(1_000, 1_000), Some(200_000));
    assert_eq!(remaining_wait(1_000, 200_999), Some(1));
    assert_eq!(remaining_wait(1_000, 201_000), None);
    assert_eq!(next_request_id(5), 6);
    assert_eq!(next_request_id(u32::MAX), 0);
}

#[test]
fn each_estimate_needs_only_its_own_arithmetic() {
    let t = 6_000_000_000_000_000_000i64;
    let r = ClockSyncResult::new(-t, -t + 10, t, t + 5);
    assert_eq!(r.offset_micros(), 2);
    let u = 5_000_000_000_000_000_000i64;
    let r = ClockSyncResult::new(0, u, u + 1, 10);
    assert_eq!(r.delay_micros(), 9);
    assert_eq!(ClockSyncResult::new(1000, 1600, 1700, 1300).offset_micros(), 500);
    assert_eq!(ClockSyncResult::new(1000, 1600, 1700, 1300).delay_micros(), 200);
}
