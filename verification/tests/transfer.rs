use reduction_server::transfer::{Direction, TransferAction, TransferEvent, TransferLoop, TransferSetup};

fn setup(direction: Direction) -> TransferSetup {
    TransferSetup { direction, thread: 1, nrank: 4, jobs: 2, flags: 2, links: 2 }
}

/// Goes on as long as nothing but that is to be done, a hundred times at most.
fn settle(t: &mut TransferLoop<char>) -> TransferAction {
    for _ in 0..100 {
        match t.action() {
            TransferAction::Continue => t.step(TransferEvent::Continue),
            a => return a,
        }
    }
    t.action()
}

#[test]
fn a_transfer_thread_waits_until_all_ranks_are_connected() {
    let mut t = TransferLoop::<char>::new(setup(Direction::Recv));
    assert!(matches!(t.action(), TransferAction::LoadRank));
    t.step(TransferEvent::Rank(3));
    assert!(matches!(t.action(), TransferAction::Nap));
    t.step(TransferEvent::Continue);
    assert!(matches!(t.action(), TransferAction::LoadRank));
    t.step(TransferEvent::Rank(4));
    assert!(matches!(settle(&mut t), TransferAction::LoadFlag { job: 0, flag: 0 }));
}

#[test]
fn a_round_posts_and_completes_every_link_once() {
    for direction in [Direction::Send, Direction::Recv] {
        let mut t = TransferLoop::<char>::new(setup(direction));
        t.step(TransferEvent::Rank(4));
        for job in [0, 1, 0] {
            assert!(matches!(settle(&mut t), TransferAction::LoadFlag { job: j, flag: 0 } if j == job));
            // The bit of thread 1 is still up.
            t.step(TransferEvent::Flag(0b10));
            assert!(matches!(t.action(), TransferAction::LoadRank));
            t.step(TransferEvent::Rank(4));
            assert!(matches!(settle(&mut t), TransferAction::LoadFlag { flag: 0, .. }));
            // Other threads' bits do not matter.
            t.step(TransferEvent::Flag(0b101));
            assert!(matches!(settle(&mut t), TransferAction::LoadFlag { flag: 1, .. }));
            t.step(TransferEvent::Flag(0));
            assert!(matches!(settle(&mut t), TransferAction::LoadRank));
            t.step(TransferEvent::Rank(4));

            assert!(matches!(settle(&mut t), TransferAction::Post { job: j, link: 0 } if j == job));
            t.step(TransferEvent::Posted(None));
            assert!(matches!(settle(&mut t), TransferAction::Post { link: 1, .. }));
            t.step(TransferEvent::Posted(Some('b')));
            // The first link was refused: the ranks are looked at, and it alone is asked again.
            assert!(matches!(settle(&mut t), TransferAction::LoadRank));
            t.step(TransferEvent::Rank(4));
            assert!(matches!(settle(&mut t), TransferAction::Post { link: 0, .. }));
            assert_eq!((t.request(0), t.request(1), t.request(2)), (None, Some(&'b'), None));
            t.step(TransferEvent::Posted(Some('a')));

            assert!(matches!(settle(&mut t), TransferAction::LoadRank));
            t.step(TransferEvent::Rank(4));
            assert!(matches!(settle(&mut t), TransferAction::Test { job: j, link: 0 } if j == job));
            t.step(TransferEvent::Tested(false));
            assert!(matches!(settle(&mut t), TransferAction::Test { link: 1, .. }));
            t.step(TransferEvent::Tested(true));
            assert!(matches!(settle(&mut t), TransferAction::LoadRank));
            t.step(TransferEvent::Rank(4));
            assert_eq!((t.request(0), t.request(1)), (Some(&'a'), None));
            assert!(matches!(settle(&mut t), TransferAction::Test { link: 0, .. }));
            t.step(TransferEvent::Tested(true));

            for flag in 0..2 {
                let a = settle(&mut t);
                assert!(matches!(a, TransferAction::MarkFlag { job: j, flag: f, bit: 0b10 } if j == job && f == flag));
                t.step(TransferEvent::Continue);
            }
        }
    }
}

#[test]
fn a_waiting_transfer_thread_stops_when_a_rank_leaves() {
    // While it waits for a flag.
    let mut t = TransferLoop::<char>::new(setup(Direction::Send));
    t.step(TransferEvent::Rank(4));
    settle(&mut t);
    t.step(TransferEvent::Flag(0b10));
    t.step(TransferEvent::Rank(3));
    assert!(matches!(t.action(), TransferAction::Exit));
    t.step(TransferEvent::Rank(4));
    t.step(TransferEvent::Continue);
    assert!(matches!(t.action(), TransferAction::Exit));

    // Before it posts.
    let mut t = TransferLoop::<char>::new(setup(Direction::Send));
    t.step(TransferEvent::Rank(4));
    for _ in 0..2 {
        settle(&mut t);
        t.step(TransferEvent::Flag(0));
    }
    assert!(matches!(settle(&mut t), TransferAction::LoadRank));
    t.step(TransferEvent::Rank(5));
    assert!(matches!(t.action(), TransferAction::Exit));

    // Before it tests.
    let mut t = TransferLoop::<char>::new(setup(Direction::Recv));
    t.step(TransferEvent::Rank(4));
    for _ in 0..2 {
        settle(&mut t);
        t.step(TransferEvent::Flag(0));
    }
    settle(&mut t);
    t.step(TransferEvent::Rank(4));
    for _ in 0..2 {
        settle(&mut t);
        t.step(TransferEvent::Posted(Some('x')));
    }
    assert!(matches!(settle(&mut t), TransferAction::LoadRank));
    t.step(TransferEvent::Rank(3));
    assert!(matches!(t.action(), TransferAction::Exit));
}

#[test]
fn without_jobs_a_sender_ends_and_a_receiver_turns_in_circles() {
    for direction in [Direction::Send, Direction::Recv] {
        let mut t = TransferLoop::<char>::new(TransferSetup { jobs: 0, ..setup(direction) });
        t.step(TransferEvent::Rank(4));
        let a = settle(&mut t);
        if direction == Direction::Send {
            assert!(matches!(a, TransferAction::Exit));
        } else {
            assert!(matches!(a, TransferAction::Continue));
        }
    }
}

#[test]
fn a_transfer_event_out_of_place_changes_nothing() {
    let mut t = TransferLoop::<char>::new(setup(Direction::Send));
    t.step(TransferEvent::Flag(0));
    t.step(TransferEvent::Posted(Some('a')));
    t.step(TransferEvent::Tested(true));
    t.step(TransferEvent::Continue);
    assert!(matches!(t.action(), TransferAction::LoadRank));
    assert_eq!(t.request(0), None);
    t.step(TransferEvent::Rank(4));
    assert!(matches!(settle(&mut t), TransferAction::LoadFlag { job: 0, flag: 0 }));
}
