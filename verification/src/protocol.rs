//! All threads of a server together: reduce threads and transfer threads that share nothing but
//! the readiness flags.
//!
//! A world holds the flags and the state of every thread. In one move one thread carries out its
//! action: flags are read and written as the action says, while the number of ranks and what the
//! network answers may be anything. The laws at the end hold after any sequence of moves.
//!
//! The moves of all threads come one after the other, and every thread sees all moves before its
//! own: the laws are proved of sequentially consistent interleavings, and say nothing of flags that
//! are read and written with relaxed atomic operations.

use vstd::prelude::*;
use crate::ready;
use crate::reduce_loop::{ReduceAction, ReduceEvent, ReducePhase, ReduceSetup};
use crate::transfer::{
    Direction, TransferAction, TransferEvent, TransferPhase, TransferSetup, TransferState,
};

verus! {

/// A table with a row for each job and a column for each reduce thread.
pub open spec fn table<T>(t: Seq<Seq<T>>, jobs: nat, reducers: nat) -> bool {
    &&& t.len() == jobs
    &&& forall|j: int| 0 <= j < jobs ==> (#[trigger] t[j]).len() == reducers
}

/// The table with one entry replaced.
pub open spec fn put<T>(t: Seq<Seq<T>>, job: int, reducer: int, v: T) -> Seq<Seq<T>> {
    t.update(job, t[job].update(reducer, v))
}

/// The numbers that all threads agree on.
pub struct WorldSetup {
    pub nrank: usize,
    pub jobs: usize,
    pub reducers: usize,
    pub send_threads: usize,
    pub recv_threads: usize,
}

/// The transfer threads of one direction, with their flags.
pub struct Side<R> {
    pub direction: Direction,
    /// The number of links of each thread.
    pub links: Seq<usize>,
    pub workers: Seq<TransferState<R>>,
    /// The word of each flag.
    pub flags: Seq<Seq<usize>>,
    /// How often each thread has raised its bit in each flag.
    pub marks: Seq<Seq<Seq<nat>>>,
    /// How often each flag has been taken down.
    pub clears: Seq<Seq<nat>>,
}

pub struct World<R> {
    pub setup: WorldSetup,
    pub reducers: Seq<ReducePhase>,
    pub send: Side<R>,
    pub recv: Side<R>,
}

/// The transfer threads of a direction.
pub open spec fn side<R>(w: World<R>, d: Direction) -> Side<R> {
    match d {
        Direction::Send => w.send,
        Direction::Recv => w.recv,
    }
}

/// One thread carries out its action, and the event or outcome comes of it.
pub enum Move<R> {
    Send { thread: usize, event: TransferEvent<R> },
    Recv { thread: usize, event: TransferEvent<R> },
    Reduce { thread: usize, outcome: ReduceEvent },
}

impl WorldSetup {
    pub open spec fn valid(self) -> bool {
        self.send_threads < usize::BITS && self.recv_threads < usize::BITS
    }

    pub open spec fn reducer(self) -> ReduceSetup {
        ReduceSetup {
            nrank: self.nrank,
            jobs: self.jobs,
            send_threads: self.send_threads,
            recv_threads: self.recv_threads,
        }
    }

    pub open spec fn threads(self, direction: Direction) -> usize {
        match direction {
            Direction::Send => self.send_threads,
            Direction::Recv => self.recv_threads,
        }
    }

    pub open spec fn worker<R>(self, side: Side<R>, thread: int) -> TransferSetup {
        TransferSetup {
            direction: side.direction,
            thread: thread as usize,
            nrank: self.nrank,
            jobs: self.jobs,
            flags: self.reducers,
            links: side.links[thread],
        }
    }
}

/// How many marks a flag stands for before its threads have made any: the flags of the send
/// threads start with all bits up, as if everything had been sent, those of the receive threads
/// with all bits down.
pub open spec fn head_start(direction: Direction) -> nat {
    match direction {
        Direction::Send => 1,
        Direction::Recv => 0,
    }
}

/// What every flag of a direction holds at the start.
pub open spec fn first_word(setup: WorldSetup, direction: Direction) -> usize {
    match direction {
        Direction::Send => ready::all_raised(setup.send_threads),
        Direction::Recv => 0,
    }
}

/// A side before its threads have done anything.
pub open spec fn fresh_side<R>(setup: WorldSetup, side: Side<R>, direction: Direction) -> bool {
    let n = setup.threads(direction);
    &&& side.direction == direction
    &&& side.links.len() == n
    &&& side.workers == Seq::new(n as nat, |i: int| setup.worker(side, i).start::<R>())
    &&& side.flags == Seq::new(
        setup.jobs as nat,
        |j: int| Seq::new(setup.reducers as nat, |r: int| first_word(setup, direction)),
    )
    &&& side.marks == Seq::new(
        n as nat,
        |i: int| Seq::new(setup.jobs as nat, |j: int| Seq::new(setup.reducers as nat, |r: int| 0nat)),
    )
    &&& side.clears == Seq::new(setup.jobs as nat, |j: int| Seq::new(setup.reducers as nat, |r: int| 0nat))
}

/// The world before any thread has done anything.
pub open spec fn fresh<R>(w: World<R>) -> bool {
    &&& w.setup.valid()
    &&& w.reducers == Seq::new(w.setup.reducers as nat, |r: int| ReducePhase::Connecting)
    &&& fresh_side(w.setup, w.send, Direction::Send)
    &&& fresh_side(w.setup, w.recv, Direction::Recv)
}

/// `event` may come of the action of thread `i`: a flag is read as it stands, all else is open.
pub open spec fn worker_may<R>(setup: WorldSetup, side: Side<R>, i: int, event: TransferEvent<R>) -> bool {
    &&& 0 <= i < side.workers.len()
    &&& match setup.worker(side, i).action(side.workers[i]) {
        TransferAction::LoadFlag { job, flag } =>
            event == TransferEvent::<R>::Flag(side.flags[job as int][flag as int]),
        TransferAction::LoadRank => event is Rank,
        TransferAction::Post { .. } => event is Posted,
        TransferAction::Test { .. } => event is Tested,
        TransferAction::Exit => false,
        _ => event is Continue,
    }
}

/// The side after thread `i` has carried out its action.
pub open spec fn worker_moves<R>(setup: WorldSetup, side: Side<R>, i: int, event: TransferEvent<R>) -> Side<R> {
    let w = setup.worker(side, i);
    let moved = Side { workers: side.workers.update(i, w.next(side.workers[i], event)), ..side };
    match w.action(side.workers[i]) {
        TransferAction::MarkFlag { job, flag, bit } => Side {
            flags: put(side.flags, job as int, flag as int, (side.flags[job as int][flag as int] + bit) as usize),
            marks: side.marks.update(
                i,
                put(side.marks[i], job as int, flag as int, side.marks[i][job as int][flag as int] + 1),
            ),
            ..moved
        },
        _ => moved,
    }
}

/// The side after reduce thread `r` has taken down its flag of `job`.
pub open spec fn cleared<R>(side: Side<R>, job: int, r: int) -> Side<R> {
    Side {
        flags: put(side.flags, job, r, 0),
        clears: put(side.clears, job, r, side.clears[job][r] + 1),
        ..side
    }
}

/// `event` may come of the action of reduce thread `r`.
pub open spec fn reducer_may<R>(w: World<R>, r: int, event: ReduceEvent) -> bool {
    &&& 0 <= r < w.reducers.len()
    &&& match w.setup.reducer().action(w.reducers[r]) {
        ReduceAction::LoadSend { job } => event == ReduceEvent::Word(w.send.flags[job as int][r]),
        ReduceAction::LoadRecv { job } => event == ReduceEvent::Word(w.recv.flags[job as int][r]),
        ReduceAction::LoadRank => event is Rank,
        ReduceAction::Exit => false,
        _ => event is Continue,
    }
}

/// The world after reduce thread `r` has carried out its action.
pub open spec fn reducer_moves<R>(w: World<R>, r: int, event: ReduceEvent) -> World<R> {
    let moved = World { reducers: w.reducers.update(r, w.setup.reducer().next(w.reducers[r], event)), ..w };
    match w.setup.reducer().action(w.reducers[r]) {
        ReduceAction::ClearRecv { job } => World { recv: cleared(w.recv, job as int, r), ..moved },
        ReduceAction::ClearSend { job } => World { send: cleared(w.send, job as int, r), ..moved },
        _ => moved,
    }
}

/// The move can be made.
pub open spec fn possible<R>(w: World<R>, m: Move<R>) -> bool {
    match m {
        Move::Send { thread, event } => worker_may(w.setup, w.send, thread as int, event),
        Move::Recv { thread, event } => worker_may(w.setup, w.recv, thread as int, event),
        Move::Reduce { thread, outcome } => reducer_may(w, thread as int, outcome),
    }
}

/// The world after the move.
pub open spec fn after<R>(w: World<R>, m: Move<R>) -> World<R> {
    match m {
        Move::Send { thread, event } =>
            World { send: worker_moves(w.setup, w.send, thread as int, event), ..w },
        Move::Recv { thread, event } =>
            World { recv: worker_moves(w.setup, w.recv, thread as int, event), ..w },
        Move::Reduce { thread, outcome } => reducer_moves(w, thread as int, outcome),
    }
}

/// The moves can be made one after the other, starting in `w`.
pub open spec fn possible_run<R>(w: World<R>, moves: Seq<Move<R>>) -> bool
    decreases moves.len(),
{
    moves.len() == 0 || {
        &&& possible_run(w, moves.drop_last())
        &&& possible(after_run(w, moves.drop_last()), moves.last())
    }
}

/// The world after the moves, starting in `w`.
pub open spec fn after_run<R>(w: World<R>, moves: Seq<Move<R>>) -> World<R>
    decreases moves.len(),
{
    if moves.len() == 0 { w } else { after(after_run(w, moves.drop_last()), moves.last()) }
}

/// Reduce thread `r` is told to sum up `job`.
pub open spec fn summing<R>(w: World<R>, r: int, job: usize) -> bool {
    w.setup.reducer().action(w.reducers[r]) == (ReduceAction::Reduce { job })
}

/// The transfer thread has requests of `job` under way, or may have.
pub open spec fn transferring(p: TransferPhase, job: usize) -> bool {
    match p {
        TransferPhase::PostRank { job: j } => j == job,
        TransferPhase::Post { job: j, .. } => j == job,
        TransferPhase::TestRank { job: j } => j == job,
        TransferPhase::Test { job: j, .. } => j == job,
        _ => false,
    }
}

/// The bit of thread `i` is known to be down in flag `r` of `job`.
pub open spec fn known_down(p: TransferPhase, job: int, r: int) -> bool {
    match p {
        TransferPhase::Flag { job: j, flag } => j == job && r < flag,
        TransferPhase::FlagRank { job: j, flag } => j == job && r < flag,
        TransferPhase::PostRank { job: j } => j == job,
        TransferPhase::Post { job: j, .. } => j == job,
        TransferPhase::TestRank { job: j } => j == job,
        TransferPhase::Test { job: j, .. } => j == job,
        TransferPhase::Mark { job: j, flag } => j == job && r >= flag,
        _ => false,
    }
}

/// The bit as a number.
pub open spec fn bit_count(word: usize, i: usize) -> nat {
    if ready::raised(word, i) { 1 } else { 0 }
}

/// What holds of a side after any moves.
pub open spec fn side_holds<R>(setup: WorldSetup, side: Side<R>) -> bool {
    let n = setup.threads(side.direction);
    &&& side.links.len() == n
    &&& side.workers.len() == n
    &&& side.marks.len() == n
    &&& table(side.flags, setup.jobs as nat, setup.reducers as nat)
    &&& table(side.clears, setup.jobs as nat, setup.reducers as nat)
    &&& forall|i: int| 0 <= i < n ==> table(#[trigger] side.marks[i], setup.jobs as nat, setup.reducers as nat)
    &&& forall|i: int| 0 <= i < n ==> setup.worker(side, i).reached(#[trigger] side.workers[i])
    &&& forall|j: int, r: int| 0 <= j < setup.jobs && 0 <= r < setup.reducers ==>
        ready::only_below(#[trigger] side.flags[j][r], n)
    &&& forall|i: int, j: int, r: int|
        0 <= i < n && 0 <= j < setup.jobs && 0 <= r < setup.reducers && known_down(side.workers[i].phase, j, r)
            ==> !#[trigger] ready::raised(side.flags[j][r], i as usize)
    &&& forall|i: int, j: int, r: int| 0 <= i < n && 0 <= j < setup.jobs && 0 <= r < setup.reducers ==>
        #[trigger] side.marks[i][j][r] + head_start(side.direction)
            == side.clears[j][r] + bit_count(side.flags[j][r], i as usize)
}

/// The flag of the reduce thread is known to be complete on a side.
pub open spec fn known_full(p: ReducePhase, job: int, direction: Direction, n: usize) -> bool {
    match p {
        ReducePhase::LoadRecv { job: j, send } =>
            j == job && direction == Direction::Send && send == ready::all_raised(n),
        ReducePhase::Reduce { job: j } => j == job,
        ReducePhase::ClearRecv { job: j } => j == job,
        ReducePhase::ClearSend { job: j } => j == job && direction == Direction::Send,
        _ => false,
    }
}

/// What the phases of the reduce threads say of the flags of a side.
pub open spec fn full_holds<R>(setup: WorldSetup, reducers: Seq<ReducePhase>, side: Side<R>) -> bool {
    let n = setup.threads(side.direction);
    forall|j: int, r: int|
        0 <= j < setup.jobs && 0 <= r < setup.reducers && known_full(reducers[r], j, side.direction, n)
            ==> #[trigger] side.flags[j][r] == ready::all_raised(n)
}

/// What holds of the world after any moves.
pub open spec fn holds<R>(w: World<R>) -> bool {
    &&& w.setup.valid()
    &&& w.reducers.len() == w.setup.reducers
    &&& forall|r: int| 0 <= r < w.reducers.len() ==> w.setup.reducer().reached(#[trigger] w.reducers[r])
    &&& w.send.direction == Direction::Send
    &&& w.recv.direction == Direction::Recv
    &&& side_holds(w.setup, w.send)
    &&& side_holds(w.setup, w.recv)
    &&& full_holds(w.setup, w.reducers, w.send)
    &&& full_holds(w.setup, w.reducers, w.recv)
}

proof fn lemma_fresh_side<R>(setup: WorldSetup, side: Side<R>, direction: Direction)
    requires
        setup.valid(),
        fresh_side(setup, side, direction),
    ensures
        side_holds(setup, side),
{
    let n = setup.threads(direction);
    ready::law_all_raised(n);
    assert forall|i: usize| i < usize::BITS implies !#[trigger] ready::raised(0, i) by {
        ready::law_none_raised(i);
    }
    assert forall|j: int, r: int| 0 <= j < setup.jobs && 0 <= r < setup.reducers implies
        ready::only_below(#[trigger] side.flags[j][r], n) by {
        assert(side.flags[j][r] == first_word(setup, direction));
    }
    assert forall|i: int, j: int, r: int| 0 <= i < n && 0 <= j < setup.jobs && 0 <= r < setup.reducers implies
        #[trigger] side.marks[i][j][r] + head_start(side.direction)
            == side.clears[j][r] + bit_count(side.flags[j][r], i as usize) by {
        assert(side.flags[j][r] == first_word(setup, direction));
        assert(ready::raised(ready::all_raised(n), i as usize));
        assert(side.marks[i][j][r] == 0);
        assert(side.clears[j][r] == 0);
    }
}

/// A thread that does not mark keeps the side in order.
proof fn lemma_worker_plain<R>(setup: WorldSetup, side: Side<R>, i: int, event: TransferEvent<R>)
    requires
        setup.valid(),
        side_holds(setup, side),
        worker_may(setup, side, i, event),
        !(setup.worker(side, i).action(side.workers[i]) is MarkFlag),
    ensures
        side_holds(setup, worker_moves(setup, side, i, event)),
        worker_moves(setup, side, i, event).flags == side.flags,
{
    let n = setup.threads(side.direction);
    let new = worker_moves(setup, side, i, event);
    let w = setup.worker(side, i);
    let s = side.workers[i];
    let t = new.workers[i];
    assert(w.reached(s));
    assert(w.reached(t));
    assert forall|k: int| 0 <= k < n implies setup.worker(new, k).reached(#[trigger] new.workers[k]) by {
        assert(setup.worker(side, k).reached(side.workers[k]));
    }
    assert forall|k: int, j: int, r: int|
        0 <= k < n && 0 <= j < setup.jobs && 0 <= r < setup.reducers && known_down(new.workers[k].phase, j, r)
        implies !#[trigger] ready::raised(new.flags[j][r], k as usize) by {
        if k == i && !known_down(s.phase, j, r) {
            assert(s.phase matches TransferPhase::Flag { job, flag } && job == j && flag == r);
        }
    }
    assert forall|k: int, j: int, r: int| 0 <= k < n && 0 <= j < setup.jobs && 0 <= r < setup.reducers implies
        #[trigger] new.marks[k][j][r] + head_start(new.direction)
            == new.clears[j][r] + bit_count(new.flags[j][r], k as usize) by {
        assert(side.marks[k][j][r] + head_start(side.direction)
            == side.clears[j][r] + bit_count(side.flags[j][r], k as usize));
    }
}

/// A thread that raises its bit keeps the side in order; it changes no complete flag.
proof fn lemma_worker_mark<R>(setup: WorldSetup, side: Side<R>, i: int, event: TransferEvent<R>)
    requires
        setup.valid(),
        side_holds(setup, side),
        worker_may(setup, side, i, event),
        setup.worker(side, i).action(side.workers[i]) is MarkFlag,
    ensures
        side_holds(setup, worker_moves(setup, side, i, event)),
        forall|j: int, r: int|
            0 <= j < setup.jobs && 0 <= r < setup.reducers && side.flags[j][r] == ready::all_raised(
                setup.threads(side.direction),
            ) ==> #[trigger] worker_moves(setup, side, i, event).flags[j][r] == side.flags[j][r],
{
    let n = setup.threads(side.direction);
    let new = worker_moves(setup, side, i, event);
    let w = setup.worker(side, i);
    let s = side.workers[i];
    let t = new.workers[i];
    assert(w.reached(s));
    assert(w.reached(t));
    let (job, flag) = match s.phase {
        TransferPhase::Mark { job, flag } => (job as int, flag as int),
        _ => (0, 0),
    };
    assert(s.phase matches TransferPhase::Mark { job: j, flag: f } && j == job && f == flag);
    let word = side.flags[job][flag];
    let up = ready::with_bit(word, i as usize);
    assert(known_down(s.phase, job, flag));
    assert(!ready::raised(side.flags[job][flag], i as usize));
    ready::law_raising(word, i as usize);
    ready::law_all_raised(n);
    assert(new.flags == put(side.flags, job, flag, up));
    assert(word != ready::all_raised(n)) by {
        assert(ready::raised(ready::all_raised(n), i as usize));
    }
    assert(ready::only_below(word, n));
    assert(ready::only_below(up, n)) by {
        assert forall|k: usize| k < usize::BITS && #[trigger] ready::raised(up, k) implies k < n by {
            assert(k == i || ready::raised(word, k));
        }
    }
    assert forall|k: int| 0 <= k < n implies setup.worker(new, k).reached(#[trigger] new.workers[k]) by {
        assert(setup.worker(side, k).reached(side.workers[k]));
    }
    assert forall|j: int, r: int| 0 <= j < setup.jobs && 0 <= r < setup.reducers implies
        ready::only_below(#[trigger] new.flags[j][r], n) by {
        assert(ready::only_below(side.flags[j][r], n));
    }
    assert forall|k: int, j: int, r: int|
        0 <= k < n && 0 <= j < setup.jobs && 0 <= r < setup.reducers && known_down(new.workers[k].phase, j, r)
        implies !#[trigger] ready::raised(new.flags[j][r], k as usize) by {
        if k == i {
            assert(known_down(s.phase, j, r));
        }
        assert(!ready::raised(side.flags[j][r], k as usize));
        if j == job && r == flag {
            assert(ready::raised(up, k as usize) <==> k == i || ready::raised(word, k as usize));
        }
    }
    assert forall|k: int| 0 <= k < n implies table(
        #[trigger] new.marks[k],
        setup.jobs as nat,
        setup.reducers as nat,
    ) by {
        assert(table(side.marks[k], setup.jobs as nat, setup.reducers as nat));
    }
    assert forall|k: int, j: int, r: int| 0 <= k < n && 0 <= j < setup.jobs && 0 <= r < setup.reducers implies
        #[trigger] new.marks[k][j][r] + head_start(new.direction)
            == new.clears[j][r] + bit_count(new.flags[j][r], k as usize) by {
        assert(side.marks[k][j][r] + head_start(side.direction)
            == side.clears[j][r] + bit_count(side.flags[j][r], k as usize));
        if j == job && r == flag {
            assert(ready::raised(up, k as usize) <==> k == i || ready::raised(word, k as usize));
        }
    }
}

/// Taking down a complete flag keeps the side in order.
proof fn lemma_clear<R>(setup: WorldSetup, side: Side<R>, job: int, reducer: int)
    requires
        setup.valid(),
        side_holds(setup, side),
        0 <= job < setup.jobs,
        0 <= reducer < setup.reducers,
        side.flags[job][reducer] == ready::all_raised(setup.threads(side.direction)),
    ensures
        side_holds(setup, cleared(side, job, reducer)),
{
    let n = setup.threads(side.direction);
    let new = cleared(side, job, reducer);
    ready::law_all_raised(n);
    assert forall|i: usize| i < usize::BITS implies !#[trigger] ready::raised(0, i) by {
        ready::law_none_raised(i);
    }
    assert forall|k: int| 0 <= k < n implies setup.worker(new, k).reached(#[trigger] new.workers[k]) by {
        assert(setup.worker(side, k).reached(side.workers[k]));
    }
    assert forall|j: int, r: int| 0 <= j < setup.jobs && 0 <= r < setup.reducers implies
        ready::only_below(#[trigger] new.flags[j][r], n) by {
        assert(ready::only_below(side.flags[j][r], n));
    }
    assert forall|k: int, j: int, r: int|
        0 <= k < n && 0 <= j < setup.jobs && 0 <= r < setup.reducers && known_down(new.workers[k].phase, j, r)
        implies !#[trigger] ready::raised(new.flags[j][r], k as usize) by {
        assert(!ready::raised(side.flags[j][r], k as usize));
    }
    assert forall|k: int, j: int, r: int| 0 <= k < n && 0 <= j < setup.jobs && 0 <= r < setup.reducers implies
        #[trigger] new.marks[k][j][r] + head_start(new.direction)
            == new.clears[j][r] + bit_count(new.flags[j][r], k as usize) by {
        assert(side.marks[k][j][r] + head_start(side.direction)
            == side.clears[j][r] + bit_count(side.flags[j][r], k as usize));
        assert(ready::raised(ready::all_raised(n), k as usize));
    }
}

/// A move of a transfer thread leaves what the reduce threads know of its side true.
proof fn lemma_worker_full<R>(setup: WorldSetup, reducers: Seq<ReducePhase>, side: Side<R>, i: int, event: TransferEvent<R>)
    requires
        setup.valid(),
        side_holds(setup, side),
        full_holds(setup, reducers, side),
        worker_may(setup, side, i, event),
    ensures
        side_holds(setup, worker_moves(setup, side, i, event)),
        full_holds(setup, reducers, worker_moves(setup, side, i, event)),
{
    if setup.worker(side, i).action(side.workers[i]) is MarkFlag {
        lemma_worker_mark(setup, side, i, event);
    } else {
        lemma_worker_plain(setup, side, i, event);
    }
    let n = setup.threads(side.direction);
    let new = worker_moves(setup, side, i, event);
    assert forall|j: int, r: int|
        0 <= j < setup.jobs && 0 <= r < setup.reducers && known_full(reducers[r], j, new.direction, n)
        implies #[trigger] new.flags[j][r] == ready::all_raised(n) by {
        assert(side.flags[j][r] == ready::all_raised(n));
    }
}

/// A move of a reduce thread keeps the world in order.
proof fn lemma_reducer<R>(w: World<R>, r: int, event: ReduceEvent)
    requires
        holds(w),
        reducer_may(w, r, event),
    ensures
        holds(reducer_moves(w, r, event)),
{
    let new = reducer_moves(w, r, event);
    let setup = w.setup;
    let p = w.reducers[r];
    let q = new.reducers[r];
    assert(setup.reducer().reached(p));
    assert(setup.reducer().reached(q));
    match p {
        ReducePhase::ClearRecv { job } => {
            assert(w.recv.flags[job as int][r] == ready::all_raised(setup.recv_threads));
            lemma_clear(setup, w.recv, job as int, r);
        },
        ReducePhase::ClearSend { job } => {
            assert(w.send.flags[job as int][r] == ready::all_raised(setup.send_threads));
            lemma_clear(setup, w.send, job as int, r);
        },
        _ => {},
    }
    assert forall|j: int, k: int|
        0 <= j < setup.jobs && 0 <= k < setup.reducers
            && known_full(new.reducers[k], j, Direction::Send, setup.send_threads)
        implies #[trigger] new.send.flags[j][k] == ready::all_raised(setup.send_threads) by {
        if k == r && !known_full(p, j, Direction::Send, setup.send_threads) {
            assert(p matches ReducePhase::LoadSend { job } && job == j);
        } else {
            assert(w.send.flags[j][k] == ready::all_raised(setup.send_threads));
        }
    }
    assert forall|j: int, k: int|
        0 <= j < setup.jobs && 0 <= k < setup.reducers
            && known_full(new.reducers[k], j, Direction::Recv, setup.recv_threads)
        implies #[trigger] new.recv.flags[j][k] == ready::all_raised(setup.recv_threads) by {
        if k == r && !known_full(p, j, Direction::Recv, setup.recv_threads) {
            assert(p matches ReducePhase::LoadRecv { job, send } && job == j);
        } else {
            assert(w.recv.flags[j][k] == ready::all_raised(setup.recv_threads));
        }
    }
}

/// One move keeps the world in order.
proof fn lemma_move<R>(w: World<R>, m: Move<R>)
    requires
        holds(w),
        possible(w, m),
    ensures
        holds(after(w, m)),
{
    match m {
        Move::Send { thread, event } => {
            lemma_worker_full(w.setup, w.reducers, w.send, thread as int, event);
        },
        Move::Recv { thread, event } => {
            lemma_worker_full(w.setup, w.reducers, w.recv, thread as int, event);
        },
        Move::Reduce { thread, outcome } => {
            lemma_reducer(w, thread as int, outcome);
        },
    }
}

/// A world that starts fresh is in order after any sequence of moves.
pub proof fn law_always_holds<R>(w: World<R>, moves: Seq<Move<R>>)
    requires
        fresh(w),
        possible_run(w, moves),
    ensures
        holds(after_run(w, moves)),
    decreases moves.len(),
{
    if moves.len() == 0 {
        lemma_fresh_side(w.setup, w.send, Direction::Send);
        lemma_fresh_side(w.setup, w.recv, Direction::Recv);
    } else {
        law_always_holds(w, moves.drop_last());
        lemma_move(after_run(w, moves.drop_last()), moves.last());
    }
}

/// Transfer thread `i` may have requests of `job` under way: it transfers that job, or has stopped
/// while it did.
pub open spec fn engaged<R>(w: World<R>, moves: Seq<Move<R>>, d: Direction, i: int, job: usize) -> bool
    decreases moves.len(),
{
    let p = side(after_run(w, moves), d).workers[i].phase;
    ||| transferring(p, job)
    ||| p is Stopped && moves.len() > 0 && engaged(w, moves.drop_last(), d, i, job)
}

/// The bits of a thread that may have requests of a job under way are down in all flags of the
/// job, even once it has stopped.
#[verifier::rlimit(40)]
pub(crate) proof fn lemma_engaged_down<R>(w: World<R>, moves: Seq<Move<R>>, d: Direction, i: int, job: usize)
    requires
        fresh(w),
        possible_run(w, moves),
        0 <= i < w.setup.threads(d),
        engaged(w, moves, d, i, job),
    ensures
        job < w.setup.jobs,
        forall|r: int| 0 <= r < w.setup.reducers ==>
            !ready::raised(#[trigger] side(after_run(w, moves), d).flags[job as int][r], i as usize),
    decreases moves.len(),
{
    let v = after_run(w, moves);
    let t = side(v, d);
    law_always_holds(w, moves);
    law_same_setup(w, moves);
    assert(v.setup.worker(t, i).reached(t.workers[i]));
    if transferring(t.workers[i].phase, job) {
        assert forall|r: int| 0 <= r < w.setup.reducers implies
            !ready::raised(#[trigger] t.flags[job as int][r], i as usize) by {
            assert(known_down(t.workers[i].phase, job as int, r));
        }
    } else {
        let before = moves.drop_last();
        let u = after_run(w, before);
        let s = side(u, d);
        lemma_engaged_down(w, before, d, i, job);
        law_always_holds(w, before);
        law_same_setup(w, before);
        ready::law_none_raised(i as usize);
        assert(u.setup.worker(s, i).reached(s.workers[i]));
        assert forall|r: int| 0 <= r < w.setup.reducers implies
            !ready::raised(#[trigger] t.flags[job as int][r], i as usize) by {
            assert(!ready::raised(s.flags[job as int][r], i as usize));
            let mover = match moves.last() {
                Move::Send { thread, .. } => if d == Direction::Send { thread as int } else { -1 },
                Move::Recv { thread, .. } => if d == Direction::Recv { thread as int } else { -1 },
                Move::Reduce { .. } => -1,
            };
            if t.flags != s.flags && mover >= 0 {
                assert(u.setup.worker(s, mover).reached(s.workers[mover]));
                match s.workers[mover].phase {
                    TransferPhase::Mark { job: j, flag } => {
                        assert(known_down(s.workers[mover].phase, j as int, flag as int));
                        assert(!ready::raised(s.flags[j as int][flag as int], mover as usize));
                        ready::law_raising(s.flags[j as int][flag as int], mover as usize);
                        assert(ready::raised(ready::with_bit(s.flags[j as int][flag as int], mover as usize), i as usize)
                            <==> i == mover || ready::raised(s.flags[j as int][flag as int], i as usize));
                    },
                    _ => {},
                }
            } else if t.flags != s.flags {
                match moves.last() {
                    Move::Reduce { thread, .. } => {
                        assert(u.setup.reducer().reached(u.reducers[thread as int]));
                    },
                    _ => {},
                }
            }
        }
    }
}

/// While any reduce thread sums up a job, no transfer thread has a request of that job under way,
/// not even one that has stopped: no buffer is summed up while it is sent or filled.
pub proof fn law_exclusion<R>(w: World<R>, moves: Seq<Move<R>>, r: int, job: usize, d: Direction, i: int)
    requires
        fresh(w),
        possible_run(w, moves),
        0 <= r < w.setup.reducers,
        summing(after_run(w, moves), r, job),
        0 <= i < w.setup.threads(d),
    ensures
        !engaged(w, moves, d, i, job),
{
    law_always_holds(w, moves);
    law_same_setup(w, moves);
    let v = after_run(w, moves);
    if engaged(w, moves, d, i, job) {
        lemma_engaged_down(w, moves, d, i, job);
        assert(v.setup.reducer().reached(v.reducers[r]));
        ready::law_all_raised(v.setup.threads(d));
        assert(side(v, d).flags[job as int][r] == ready::all_raised(v.setup.threads(d)));
        assert(ready::raised(side(v, d).flags[job as int][r], i as usize));
    }
}

/// A transfer thread with an open request is engaged in a job.
#[verifier::rlimit(40)]
pub proof fn law_open_request<R>(w: World<R>, moves: Seq<Move<R>>, d: Direction, i: int, link: int)
    requires
        fresh(w),
        possible_run(w, moves),
        0 <= i < w.setup.threads(d),
        0 <= link < side(w, d).links[i],
        side(after_run(w, moves), d).workers[i].reqs[link] is Some,
    ensures
        exists|job: usize| job < w.setup.jobs && #[trigger] engaged(w, moves, d, i, job),
    decreases moves.len(),
{
    let v = after_run(w, moves);
    let t = side(v, d);
    law_always_holds(w, moves);
    law_same_setup(w, moves);
    lemma_same_links(w, moves);
    assert(v.setup.worker(t, i).reached(t.workers[i]));
    if moves.len() > 0 {
        let before = moves.drop_last();
        let u = after_run(w, before);
        let s = side(u, d);
        law_always_holds(w, before);
        law_same_setup(w, before);
        lemma_same_links(w, before);
        assert(u.setup.worker(s, i).reached(s.workers[i]));
        if s.workers[i].reqs[link] is Some {
            law_open_request(w, before, d, i, link);
            let job = choose|job: usize| job < w.setup.jobs && #[trigger] engaged(w, before, d, i, job);
            assert(engaged(w, moves, d, i, job));
        } else {
            match t.workers[i].phase {
                TransferPhase::Post { job, .. } => {
                    assert(engaged(w, moves, d, i, job));
                },
                _ => {},
            }
        }
    }
}

/// No move changes how many links a thread has.
pub(crate) proof fn lemma_same_links<R>(w: World<R>, moves: Seq<Move<R>>)
    ensures
        after_run(w, moves).send.links == w.send.links,
        after_run(w, moves).recv.links == w.recv.links,
    decreases moves.len(),
{
    if moves.len() > 0 {
        lemma_same_links(w, moves.drop_last());
    }
}

/// While a reduce thread sums up a job for the time `k + 1`, every receive thread has filled the
/// job's buffers `k + 1` times and every send thread has sent them `k` times: each sum takes in
/// one new contribution of every rank, and is sent once before the next is formed.
pub proof fn law_lockstep<R>(w: World<R>, moves: Seq<Move<R>>, r: int, job: usize)
    requires
        fresh(w),
        possible_run(w, moves),
        0 <= r < w.setup.reducers,
        summing(after_run(w, moves), r, job),
    ensures
        ({
            let v = after_run(w, moves);
            &&& v.send.clears[job as int][r] == v.recv.clears[job as int][r]
            &&& forall|i: int| 0 <= i < v.recv.workers.len() ==>
                (#[trigger] v.recv.marks[i])[job as int][r] == v.recv.clears[job as int][r] + 1
            &&& forall|i: int| 0 <= i < v.send.workers.len() ==>
                (#[trigger] v.send.marks[i])[job as int][r] == v.recv.clears[job as int][r]
        }),
{
    law_always_holds(w, moves);
    law_same_setup(w, moves);
    lemma_same_clears(w, moves);
    let v = after_run(w, moves);
    assert(v.setup.reducer().reached(v.reducers[r]));
    ready::law_all_raised(v.setup.send_threads);
    ready::law_all_raised(v.setup.recv_threads);
    assert(v.send.flags[job as int][r] == ready::all_raised(v.setup.send_threads));
    assert(v.recv.flags[job as int][r] == ready::all_raised(v.setup.recv_threads));
    assert(v.send.clears[job as int][r] == v.recv.clears[job as int][r]);
    assert forall|i: int| 0 <= i < v.recv.workers.len() implies
        (#[trigger] v.recv.marks[i])[job as int][r] == v.recv.clears[job as int][r] + 1 by {
        assert(ready::raised(v.recv.flags[job as int][r], i as usize));
        assert(v.recv.marks[i][job as int][r] + head_start(v.recv.direction)
            == v.recv.clears[job as int][r] + bit_count(v.recv.flags[job as int][r], i as usize));
    }
    assert forall|i: int| 0 <= i < v.send.workers.len() implies
        (#[trigger] v.send.marks[i])[job as int][r] == v.recv.clears[job as int][r] by {
        assert(ready::raised(v.send.flags[job as int][r], i as usize));
        assert(v.send.marks[i][job as int][r] + head_start(v.send.direction)
            == v.send.clears[job as int][r] + bit_count(v.send.flags[job as int][r], i as usize));
    }
}

/// No move changes the setup.
pub proof fn law_same_setup<R>(w: World<R>, moves: Seq<Move<R>>)
    ensures
        after_run(w, moves).setup == w.setup,
    decreases moves.len(),
{
    if moves.len() > 0 {
        law_same_setup(w, moves.drop_last());
    }
}

/// How many more times the flag of the receive threads has been taken down than that of the send
/// threads: once, between the two.
pub open spec fn ahead(p: ReducePhase, job: int) -> nat {
    match p {
        ReducePhase::ClearSend { job: j } => if j == job { 1 } else { 0 },
        _ => 0,
    }
}

/// Both flags of a reduce thread are taken down equally often, but for the moment between.
proof fn lemma_same_clears<R>(w: World<R>, moves: Seq<Move<R>>)
    requires
        fresh(w),
        possible_run(w, moves),
    ensures
        forall|j: int, r: int| 0 <= j < w.setup.jobs && 0 <= r < w.setup.reducers ==>
            #[trigger] after_run(w, moves).recv.clears[j][r]
                == after_run(w, moves).send.clears[j][r] + ahead(after_run(w, moves).reducers[r], j),
    decreases moves.len(),
{
    if moves.len() > 0 {
        let before = moves.drop_last();
        let u = after_run(w, before);
        let v = after_run(w, moves);
        lemma_same_clears(w, before);
        law_always_holds(w, before);
        law_same_setup(w, before);
        assert forall|j: int, r: int| 0 <= j < w.setup.jobs && 0 <= r < w.setup.reducers implies
            #[trigger] v.recv.clears[j][r] == v.send.clears[j][r] + ahead(v.reducers[r], j) by {
            assert(u.recv.clears[j][r] == u.send.clears[j][r] + ahead(u.reducers[r], j));
            assert(u.setup.reducer().reached(u.reducers[r]));
            match moves.last() {
                Move::Reduce { thread, .. } => {
                    assert(u.setup.reducer().reached(u.reducers[thread as int]));
                },
                _ => {},
            }
        }
    }
}

} // verus!
