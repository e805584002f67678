use reduction_server::handshake::{
    frame, size_bytes, size_of_bytes, Handshake, HandshakeAction, HandshakeEvent, Role,
};

#[test]
fn sizes_are_written_lowest_byte_first() {
    assert_eq!(size_bytes(0), [0, 0, 0, 0]);
    assert_eq!(size_bytes(128), [128, 0, 0, 0]);
    assert_eq!(size_bytes(0x0102_0304), [4, 3, 2, 1]);
    assert_eq!(size_bytes(0x5_0000_0001), [1, 0, 0, 0]);
    assert_eq!(size_of_bytes([4, 3, 2, 1]), 0x0102_0304);
    assert_eq!(size_of_bytes([255, 255, 255, 255]), u32::MAX);
    for n in [0u32, 1, 255, 256, 65535, 65536, 16777216, u32::MAX] {
        assert_eq!(size_bytes(n as usize), n.to_le_bytes());
        assert_eq!(size_of_bytes(n.to_le_bytes()), n);
    }
}

#[test]
fn a_frame_is_a_handle_behind_its_length() {
    assert_eq!(frame(&vec![7, 8, 9]), vec![3, 0, 0, 0, 7, 8, 9]);
    assert_eq!(frame(&vec![]), vec![0, 0, 0, 0]);
    let handle: Vec<u8> = (0..300).map(|i| i as u8).collect();
    let bytes = frame(&handle);
    let size = size_of_bytes([bytes[0], bytes[1], bytes[2], bytes[3]]);
    assert_eq!(size, 300);
    assert_eq!(&bytes[4..4 + size as usize], handle.as_slice());
}

#[test]
fn peers_exchange_handles_and_connect_both_ways() {
    let mut l = Handshake::<&str>::new(Role::Listener);
    let mut d = Handshake::<&str>::new(Role::Dialer);

    assert!(matches!(l.action(), HandshakeAction::Listen));
    l.step(HandshakeEvent::Listened(vec![1, 2, 3]));
    assert!(matches!(l.action(), HandshakeAction::SendFrame));
    let sent = l.own_frame();
    l.step(HandshakeEvent::Continue);

    assert!(matches!(d.action(), HandshakeAction::ReadSize));
    d.step(HandshakeEvent::Size([sent[0], sent[1], sent[2], sent[3]]));
    assert!(matches!(d.action(), HandshakeAction::ReadHandle { size: 3 }));
    d.step(HandshakeEvent::Handle(sent[4..].to_vec()));
    assert_eq!(d.peer_handle(), &vec![1, 2, 3]);
    assert!(matches!(d.action(), HandshakeAction::Listen));
    d.step(HandshakeEvent::Listened(vec![4, 5]));
    assert!(matches!(d.action(), HandshakeAction::SendFrame));
    let sent = d.own_frame();
    d.step(HandshakeEvent::Continue);

    assert!(matches!(l.action(), HandshakeAction::ReadSize));
    l.step(HandshakeEvent::Size([sent[0], sent[1], sent[2], sent[3]]));
    assert!(matches!(l.action(), HandshakeAction::ReadHandle { size: 2 }));
    l.step(HandshakeEvent::Handle(sent[4..].to_vec()));
    assert_eq!(l.peer_handle(), &vec![4, 5]);

    for h in [&mut l, &mut d] {
        assert!(matches!(h.action(), HandshakeAction::Connect));
        h.step(HandshakeEvent::Connected(None));
        assert!(matches!(h.action(), HandshakeAction::Accept));
        h.step(HandshakeEvent::Accepted(Some("in")));
        assert!(matches!(h.action(), HandshakeAction::Connect));
        h.step(HandshakeEvent::Connected(Some("out")));
        // The accepted connection stands: there is nothing left to try.
        assert!(matches!(h.action(), HandshakeAction::Continue));
        h.step(HandshakeEvent::Continue);
        assert!(matches!(h.action(), HandshakeAction::Finish));
        h.step(HandshakeEvent::Connected(Some("other")));
    }
    assert_eq!(l.into_comms(), Some(("out", "in")));
    assert_eq!(d.into_comms(), Some(("out", "in")));
}

#[test]
fn a_connection_that_stands_is_not_tried_again() {
    let mut h = Handshake::<u8>::new(Role::Dialer);
    h.step(HandshakeEvent::Size([0, 0, 0, 0]));
    h.step(HandshakeEvent::Handle(vec![]));
    h.step(HandshakeEvent::Listened(vec![]));
    h.step(HandshakeEvent::Continue);
    h.step(HandshakeEvent::Connected(Some(1)));
    h.step(HandshakeEvent::Accepted(None));
    assert!(matches!(h.action(), HandshakeAction::Continue));
    h.step(HandshakeEvent::Connected(Some(2)));
    assert!(matches!(h.action(), HandshakeAction::Continue));
    h.step(HandshakeEvent::Continue);
    assert!(matches!(h.action(), HandshakeAction::Accept));
    h.step(HandshakeEvent::Accepted(Some(3)));
    assert_eq!(h.into_comms(), Some((1, 3)));
}

#[test]
fn an_unfinished_handshake_has_no_connections() {
    let mut h = Handshake::<u8>::new(Role::Listener);
    h.step(HandshakeEvent::Connected(Some(1)));
    h.step(HandshakeEvent::Size([1, 0, 0, 0]));
    assert!(matches!(h.action(), HandshakeAction::Listen));
    assert_eq!(h.into_comms(), None);
}
