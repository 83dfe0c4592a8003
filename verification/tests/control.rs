use kymux::control::{
    control_msg_len, datagram_endpoint_id, frame_control_msg, ControlMsg, ControlReply,
    ControlState, EndpointAlreadyRegistered, ReadyRegistration, RouterTable,
};
use kymux::kycom::EndpointMap;
use kymux::net::{ReadError, ReadExactError};

#[test]
fn registration_is_acknowledged_once_and_wakes_its_waiter() {
    let mut state: ControlState<&str> = ControlState::new();
    state.register_endpoint(0x12, "waiter").unwrap();
    let err = state.register_endpoint(0x12, "other").unwrap_err();
    assert_eq!(err.0, "Endpoint already pending: 12");
    match state
        .handle_msg(ControlMsg::EndpointRegistered { endpoint_id: 0x12 })
        .unwrap()
    {
        ControlReply::Wake(w) => assert_eq!(w, "waiter"),
        _ => panic!("expected a wake"),
    }
    let err = state
        .handle_msg(ControlMsg::EndpointRegistered { endpoint_id: 0x12 })
        .unwrap_err();
    assert_eq!(err.0, "Received unexpected registration ack for endpoint 12");
}

#[test]
fn peer_registration_is_answered_and_a_repeat_refused() {
    let mut state: ControlState<u8> = ControlState::new();
    match state
        .handle_msg(ControlMsg::RegisterEndpoint { endpoint_id: 0xAB })
        .unwrap()
    {
        ControlReply::Send(m) => assert_eq!(m, ControlMsg::EndpointRegistered { endpoint_id: 0xAB }),
        _ => panic!("expected a reply"),
    }
    let err = state
        .handle_msg(ControlMsg::RegisterEndpoint { endpoint_id: 0xAB })
        .unwrap_err();
    assert_eq!(err.0, "Endpoint already registered: AB");
}

#[test]
fn readiness_in_either_order() {
    let mut state: ControlState<u8> = ControlState::new();
    // Local side first: the peer's readiness wakes it.
    assert_eq!(state.register_ready_notifier(1, 7).unwrap(), ReadyRegistration::Waiting);
    assert!(state.register_ready_notifier(1, 8).is_err());
    match state.handle_msg(ControlMsg::Ready { endpoint_id: 1 }).unwrap() {
        ControlReply::Wake(w) => assert_eq!(w, 7),
        _ => panic!("expected a wake"),
    }
    // Peer first: the local side finds it ready.
    assert!(matches!(
        state.handle_msg(ControlMsg::Ready { endpoint_id: 2 }).unwrap(),
        ControlReply::Nothing
    ));
    let err = state.handle_msg(ControlMsg::Ready { endpoint_id: 2 }).unwrap_err();
    assert_eq!(err.0, "Received multiple ready notifications for endpoint 2");
    assert!(matches!(
        state.handle_msg(ControlMsg::Ready { endpoint_id: 3 }).unwrap(),
        ControlReply::Nothing
    ));
    assert_eq!(
        state.register_ready_notifier(3, 9).unwrap(),
        ReadyRegistration::AlreadyReady
    );
}

#[test]
fn control_frames_and_datagram_ids() {
    assert_eq!(frame_control_msg(&[5, 6]), vec![0, 0, 0, 2, 5, 6]);
    assert_eq!(control_msg_len(Ok([0, 0, 1, 0])).unwrap(), Some(256));
    assert_eq!(control_msg_len(Err(ReadExactError::FinishedEarly(0))).unwrap(), None);
    assert_eq!(
        control_msg_len(Err(ReadExactError::FinishedEarly(2))),
        Err(ReadExactError::FinishedEarly(2))
    );
    let e = ReadExactError::ReadError(ReadError("x".to_string()));
    assert_eq!(control_msg_len(Err(e.clone())), Err(e));
    assert_eq!(datagram_endpoint_id(&[1]), None);
    assert_eq!(datagram_endpoint_id(&[1, 2, 3]), Some(0x0102));
}

#[test]
fn router_table_refuses_a_second_registration() {
    let mut table: RouterTable<u8> = RouterTable::new();
    table.register(4, 1).unwrap();
    assert_eq!(
        table.register(4, 2),
        Err(EndpointAlreadyRegistered { endpoint_id: 4 })
    );
    assert_eq!(table.get(4), Some(&1));
    assert_eq!(table.remove(4), Some(1));
    assert_eq!(table.get(4), None);
}

#[test]
fn endpoint_ids_are_allocated_in_turn_skipping_taken_ones() {
    let mut map: EndpointMap<u8> = EndpointMap::new();
    assert_eq!(map.register(10), 0);
    assert_eq!(map.register(11), 1);
    assert_eq!(map.take(0), Some(10));
    assert_eq!(map.take(0), None);
    assert_eq!(map.register(12), 2);
    assert_eq!(map.len(), 2);
}

#[test]
fn endpoint_ids_wrap_around_past_the_last_one() {
    let mut map: EndpointMap<u32> = EndpointMap::new();
    for i in 0..=u16::MAX as u32 {
        assert_eq!(map.register(i), i as u16);
        if i >= 2 {
            map.take(i as u16);
        }
    }
    // Ids 0 and 1 are still taken: the next free one after the wrap is 2.
    assert_eq!(map.register(0), 2);
}
