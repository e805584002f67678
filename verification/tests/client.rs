use reduction_server::client::{do_client, Client, ClientAction, ClientEvent, ClientSetup};
use reduction_server::transfer::Direction;

fn settle(c: &mut Client<u32>) -> ClientAction {
    for _ in 0..100 {
        match c.action() {
            ClientAction::Continue => {
                do_client(c, ClientEvent::Continue);
            }
            a => return a,
        }
    }
    c.action()
}

#[test]
fn a_request_is_posted_on_all_connections_and_then_tested() {
    let mut c = Client::<u32>::new(ClientSetup { nreq: 1, try_count: 1, comms: 2 });
    assert!(matches!(settle(&mut c), ClientAction::PostSend { slot: 0, comm: 0 }));
    // The send is refused at first; the receive is granted, and not asked for again.
    assert!(matches!(do_client(&mut c, ClientEvent::Posted(None)), ClientAction::PostRecv { slot: 0, comm: 0 }));
    do_client(&mut c, ClientEvent::Posted(Some(10)));
    assert!(matches!(settle(&mut c), ClientAction::PostSend { slot: 0, comm: 0 }));
    do_client(&mut c, ClientEvent::Posted(Some(11)));
    assert!(matches!(settle(&mut c), ClientAction::PostSend { slot: 0, comm: 1 }));
    do_client(&mut c, ClientEvent::Posted(Some(12)));
    assert!(matches!(c.action(), ClientAction::PostRecv { slot: 0, comm: 1 }));
    do_client(&mut c, ClientEvent::Posted(Some(13)));

    assert!(matches!(settle(&mut c), ClientAction::TestSend { slot: 0, comm: 0 }));
    assert_eq!(c.request(0, 0, Direction::Send), Some(&11));
    assert_eq!(c.request(0, 0, Direction::Recv), Some(&10));
    assert_eq!(c.request(0, 1, Direction::Send), Some(&12));
    assert_eq!(c.request(0, 1, Direction::Recv), Some(&13));
    assert_eq!(c.request(1, 0, Direction::Send), None);
    assert_eq!(c.request(0, 2, Direction::Send), None);
    do_client(&mut c, ClientEvent::Tested(true));
    assert!(matches!(settle(&mut c), ClientAction::TestRecv { slot: 0, comm: 0 }));
    do_client(&mut c, ClientEvent::Tested(false));
    assert!(matches!(settle(&mut c), ClientAction::TestSend { slot: 0, comm: 1 }));
    do_client(&mut c, ClientEvent::Tested(true));
    assert!(matches!(settle(&mut c), ClientAction::TestRecv { slot: 0, comm: 1 }));
    do_client(&mut c, ClientEvent::Tested(true));
    // Only the receive on the first connection is still open.
    assert!(matches!(settle(&mut c), ClientAction::TestRecv { slot: 0, comm: 0 }));
    do_client(&mut c, ClientEvent::Tested(true));
    assert!(matches!(settle(&mut c), ClientAction::Finish));
    assert!(matches!(do_client(&mut c, ClientEvent::Continue), ClientAction::Finish));
    assert_eq!(c.request(0, 0, Direction::Recv), None);
}

#[test]
fn requests_under_way_fill_the_slots_and_no_more() {
    let setup = ClientSetup { nreq: 3, try_count: 10, comms: 2 };
    let mut c = Client::<u32>::new(setup);
    let mut granted = [0u32, 0];
    let mut completed = [0u32, 0];
    // On each connection, sends and receives.
    let mut granted_on = [[0u32; 2]; 2];
    let mut completed_on = [[0u32; 2]; 2];
    let mut x: u32 = 12345;
    let mut steps = 0;
    loop {
        steps += 1;
        assert!(steps < 100_000);
        x = x.wrapping_mul(1664525).wrapping_add(1013904223);
        let yes = x >> 30 == 0;
        // No slot has more open than one request per connection, and all of them together no
        // more than the slots have room for.
        assert!(granted[0] - completed[0] <= 6 && granted[1] - completed[1] <= 6);
        match c.action() {
            ClientAction::Continue => {
                do_client(&mut c, ClientEvent::Continue);
            }
            ClientAction::PostSend { comm, .. } => {
                granted[0] += yes as u32;
                granted_on[comm][0] += yes as u32;
                do_client(&mut c, ClientEvent::Posted(if yes { Some(granted[0]) } else { None }));
            }
            ClientAction::PostRecv { comm, .. } => {
                granted[1] += yes as u32;
                granted_on[comm][1] += yes as u32;
                do_client(&mut c, ClientEvent::Posted(if yes { Some(granted[1]) } else { None }));
            }
            ClientAction::TestSend { slot, comm } => {
                assert!(c.request(slot, comm, Direction::Send).is_some());
                completed[0] += yes as u32;
                completed_on[comm][0] += yes as u32;
                do_client(&mut c, ClientEvent::Tested(yes));
            }
            ClientAction::TestRecv { slot, comm } => {
                assert!(c.request(slot, comm, Direction::Recv).is_some());
                completed[1] += yes as u32;
                completed_on[comm][1] += yes as u32;
                do_client(&mut c, ClientEvent::Tested(yes));
            }
            ClientAction::Finish => break,
        }
    }
    // Ten requests on two connections.
    assert_eq!((granted, completed), ([20, 20], [20, 20]));
    assert_eq!((granted_on, completed_on), ([[10, 10]; 2], [[10, 10]; 2]));
}

#[test]
fn a_client_without_requests_to_make_finishes() {
    for nreq in 0..3 {
        let mut c = Client::<u32>::new(ClientSetup { nreq, try_count: 0, comms: 1 });
        assert!(matches!(settle(&mut c), ClientAction::Finish));
    }
}

#[test]
fn a_client_without_slots_never_finishes() {
    let mut c = Client::<u32>::new(ClientSetup { nreq: 0, try_count: 1, comms: 1 });
    assert!(matches!(settle(&mut c), ClientAction::Continue));
}

#[test]
fn requests_without_connections_are_answered_at_once() {
    let mut c = Client::<u32>::new(ClientSetup { nreq: 2, try_count: 5, comms: 0 });
    assert!(matches!(settle(&mut c), ClientAction::Finish));
}

#[test]
fn a_client_event_out_of_place_changes_nothing() {
    let mut c = Client::<u32>::new(ClientSetup { nreq: 1, try_count: 1, comms: 1 });
    do_client(&mut c, ClientEvent::Posted(Some(1)));
    do_client(&mut c, ClientEvent::Tested(true));
    assert!(matches!(settle(&mut c), ClientAction::PostSend { slot: 0, comm: 0 }));
    assert!(matches!(do_client(&mut c, ClientEvent::Tested(true)), ClientAction::PostSend { slot: 0, comm: 0 }));
    assert!(matches!(do_client(&mut c, ClientEvent::Continue), ClientAction::PostSend { slot: 0, comm: 0 }));
}

#[test]
fn a_client_and_a_bench_answer_each_other() {
    // Two peers on one connection: what one sends is what the other receives.
    let setup = ClientSetup { nreq: 1, try_count: 100, comms: 1 };
    let mut peers = [Client::<u32>::new(setup), Client::<u32>::new(setup)];
    let mut sent = [0u32, 0];
    let mut posted = [0u32, 0];
    let mut received = [0u32, 0];
    for step in 0..100_000usize {
        let i = step / 3 % 2;
        let c = &mut peers[i];
        match c.action() {
            ClientAction::Continue => {
                do_client(c, ClientEvent::Continue);
            }
            ClientAction::PostSend { .. } => {
                sent[i] += 1;
                do_client(c, ClientEvent::Posted(Some(sent[i])));
            }
            ClientAction::PostRecv { .. } => {
                posted[i] += 1;
                do_client(c, ClientEvent::Posted(Some(posted[i])));
            }
            ClientAction::TestSend { .. } => {
                do_client(c, ClientEvent::Tested(true));
            }
            ClientAction::TestRecv { slot, comm } => {
                let number = *c.request(slot, comm, Direction::Recv).unwrap();
                let arrived = sent[1 - i] >= number;
                received[i] += arrived as u32;
                do_client(c, ClientEvent::Tested(arrived));
            }
            ClientAction::Finish => {}
        }
    }
    assert!(peers.iter().all(|c| matches!(c.action(), ClientAction::Finish)));
    assert_eq!((sent, received), ([100, 100], [100, 100]));
}
