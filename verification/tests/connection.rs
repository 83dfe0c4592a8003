use kymux::connection::{EndpointIds, ProtocolStats, INITIATOR_CLIENT, INITIATOR_SERVER};

#[test]
fn server_ids_are_even_and_client_ids_odd() {
    let mut server = EndpointIds::new(INITIATOR_SERVER);
    let mut client = EndpointIds::new(INITIATOR_CLIENT);
    let server_ids: Vec<u16> = (0..4).map(|_| server.get_endpoint_id(None)).collect();
    let client_ids: Vec<u16> = (0..4).map(|_| client.get_endpoint_id(None)).collect();
    assert_eq!(server_ids, vec![0, 2, 4, 6]);
    assert_eq!(client_ids, vec![1, 3, 5, 7]);
}

#[test]
fn an_explicit_id_is_kept_and_uses_no_index() {
    let mut ids = EndpointIds::new(INITIATOR_CLIENT);
    assert_eq!(ids.get_endpoint_id(Some(42)), 42);
    assert_eq!(ids.get_endpoint_id(None), 1);
}

#[test]
fn ids_wrap_within_sixteen_bits() {
    let mut ids = EndpointIds::new(INITIATOR_CLIENT);
    for _ in 0..0x7fff {
        ids.get_endpoint_id(None);
    }
    assert_eq!(ids.get_endpoint_id(None), 0xffff);
    assert_eq!(ids.get_endpoint_id(None), 1);
}

#[test]
fn dropped_packets_accumulate() {
    let mut stats = ProtocolStats::default();
    assert_eq!(stats.dropped_packets, None);
    stats.record_dropped(2);
    stats.record_dropped(3);
    assert_eq!(stats.dropped_packets, Some(5));
}

#[test]
fn certificate_hash_decodes_mixed_case_hex() {
    assert_eq!(
        kymux::net::decode_certificate_hash("00fFa5"),
        Ok(vec![0x00, 0xff, 0xa5])
    );
    assert_eq!(kymux::net::decode_certificate_hash(""), Ok(vec![]));
}

#[test]
fn certificate_hash_refuses_bad_hex() {
    let msg = "Invalid certificate hash hex string".to_string();
    assert_eq!(
        kymux::net::decode_certificate_hash("abc"),
        Err(kymux::net::ConnectionError(msg.clone()))
    );
    assert_eq!(
        kymux::net::decode_certificate_hash("zz"),
        Err(kymux::net::ConnectionError(msg.clone()))
    );
    assert_eq!(
        kymux::net::decode_certificate_hash("+f"),
        Err(kymux::net::ConnectionError(msg))
    );
}

#[test]
fn client_auth_length_is_read_big_endian_and_bounded() {
    assert_eq!(kymux::auth::client_auth_len(&[0x04, 0x00]), Ok(1024));
    assert_eq!(kymux::auth::client_auth_len(&[0x00, 0x2a]), Ok(42));
    assert_eq!(
        kymux::auth::client_auth_len(&[0x04, 0x01]),
        Err(kymux::net::ConnectionError(
            "ClientAuth size too big. Reject it".to_string()
        ))
    );
}
