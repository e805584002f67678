use reduction_server::reduce_loop::{ReduceAction, ReduceEvent, ReduceLoop, ReduceSetup};

fn reducer() -> ReduceLoop {
    ReduceLoop::new(ReduceSetup { nrank: 3, jobs: 2, send_threads: 1, recv_threads: 3 })
}

fn settle(t: &mut ReduceLoop) -> ReduceAction {
    for _ in 0..100 {
        match t.action() {
            ReduceAction::Continue => t.step(ReduceEvent::Continue),
            a => return a,
        }
    }
    t.action()
}

#[test]
fn a_reduce_thread_waits_for_ranks_and_allocates_once() {
    let mut t = reducer();
    assert!(matches!(t.action(), ReduceAction::LoadRank));
    t.step(ReduceEvent::Rank(2));
    assert!(matches!(t.action(), ReduceAction::Nap));
    t.step(ReduceEvent::Continue);
    t.step(ReduceEvent::Rank(3));
    assert!(matches!(t.action(), ReduceAction::Allocate));
    t.step(ReduceEvent::Continue);
    assert!(matches!(settle(&mut t), ReduceAction::LoadSend { job: 0 }));
}

#[test]
fn a_reduce_thread_sums_when_both_flags_are_complete() {
    let mut t = reducer();
    t.step(ReduceEvent::Rank(3));
    t.step(ReduceEvent::Continue);
    for job in [0, 1, 0, 1] {
        for (send, recv) in [(0, 0b111), (1, 0b110), (1, 0b1111), (0, 0)] {
            assert!(matches!(settle(&mut t), ReduceAction::LoadSend { job: j } if j == job));
            t.step(ReduceEvent::Word(send));
            assert!(matches!(t.action(), ReduceAction::LoadRecv { job: j } if j == job));
            t.step(ReduceEvent::Word(recv));
            assert!(matches!(t.action(), ReduceAction::LoadRank));
            t.step(ReduceEvent::Rank(3));
        }
        settle(&mut t);
        t.step(ReduceEvent::Word(0b1));
        t.step(ReduceEvent::Word(0b111));
        assert!(matches!(t.action(), ReduceAction::Reduce { job: j } if j == job));
        t.step(ReduceEvent::Continue);
        assert!(matches!(t.action(), ReduceAction::ClearRecv { job: j } if j == job));
        t.step(ReduceEvent::Continue);
        assert!(matches!(t.action(), ReduceAction::ClearSend { job: j } if j == job));
        t.step(ReduceEvent::Continue);
    }
}

#[test]
fn a_waiting_reduce_thread_stops_when_a_rank_leaves() {
    let mut t = reducer();
    t.step(ReduceEvent::Rank(3));
    t.step(ReduceEvent::Continue);
    settle(&mut t);
    t.step(ReduceEvent::Word(0));
    t.step(ReduceEvent::Word(0));
    t.step(ReduceEvent::Rank(2));
    assert!(matches!(t.action(), ReduceAction::Exit));
    t.step(ReduceEvent::Rank(3));
    assert!(matches!(t.action(), ReduceAction::Exit));
}

#[test]
fn a_reduce_event_out_of_place_changes_nothing() {
    let mut t = reducer();
    t.step(ReduceEvent::Continue);
    t.step(ReduceEvent::Word(0));
    assert!(matches!(t.action(), ReduceAction::LoadRank));
    t.step(ReduceEvent::Rank(3));
    t.step(ReduceEvent::Rank(2));
    assert!(matches!(t.action(), ReduceAction::Allocate));
}

#[test]
fn a_reduce_thread_without_jobs_turns_in_circles() {
    let mut t = ReduceLoop::new(ReduceSetup { nrank: 1, jobs: 0, send_threads: 1, recv_threads: 1 });
    t.step(ReduceEvent::Rank(1));
    t.step(ReduceEvent::Continue);
    assert!(matches!(settle(&mut t), ReduceAction::Continue));
}
