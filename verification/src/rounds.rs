//! The rounds of the threads of a server.
//!
//! Every thread takes the jobs up in turn, so that its count of rounds tells how often it has
//! been through with each job. It follows which contributions a sum takes in and which sum is
//! sent in a round, and that the threads never all wait for each other: the reduce thread that is
//! furthest behind waits only for transfer threads that are no further than itself, and these
//! wait only for reduce threads that are still further behind.

use vstd::prelude::*;
use vstd::arithmetic::div_mod;
use crate::protocol;
use crate::protocol::{Move, Side, World, WorldSetup};
use crate::ready;
use crate::reduce_loop::ReducePhase;
use crate::transfer::{Direction, TransferEvent, TransferPhase};

verus! {

/// How many of the rounds `0..n` take up `job`, when they take up the jobs in turn.
pub open spec fn times(n: nat, job: int, jobs: int) -> nat
    decreases n,
{
    if n == 0 {
        0
    } else {
        times((n - 1) as nat, job, jobs) + if (n - 1) % jobs == job { 1nat } else { 0 }
    }
}

/// The move ends a round of thread `i`.
pub open spec fn ends_round<R>(w: World<R>, m: Move<R>, d: Direction, i: int) -> bool {
    &&& match m {
        Move::Send { thread, .. } => d == Direction::Send && thread == i,
        Move::Recv { thread, .. } => d == Direction::Recv && thread == i,
        Move::Reduce { .. } => false,
    }
    &&& protocol::side(w, d).workers[i].phase matches TransferPhase::Mark { flag, .. } && flag >= w.setup.reducers
}

/// How many rounds thread `i` of a direction has ended.
pub open spec fn rounds<R>(w: World<R>, moves: Seq<Move<R>>, d: Direction, i: int) -> nat
    decreases moves.len(),
{
    if moves.len() == 0 {
        0
    } else {
        let before = moves.drop_last();
        rounds(w, before, d, i) + if ends_round(protocol::after_run(w, before), moves.last(), d, i) {
            1nat
        } else {
            0
        }
    }
}

/// The move ends a sum of reduce thread `r`: both flags are taken down.
pub open spec fn ends_sum<R>(w: World<R>, m: Move<R>, r: int) -> bool {
    &&& m matches Move::Reduce { thread, .. } && thread == r
    &&& w.reducers[r] is ClearSend
}

/// How many sums reduce thread `r` has ended.
pub open spec fn sums<R>(w: World<R>, moves: Seq<Move<R>>, r: int) -> nat
    decreases moves.len(),
{
    if moves.len() == 0 {
        0
    } else {
        let before = moves.drop_last();
        sums(w, before, r) + if ends_sum(protocol::after_run(w, before), moves.last(), r) { 1nat } else { 0 }
    }
}

/// The job that a transfer thread is at.
pub open spec fn job_of(p: TransferPhase) -> Option<usize> {
    match p {
        TransferPhase::Round { job } => Some(job),
        TransferPhase::Flag { job, .. } => Some(job),
        TransferPhase::FlagRank { job, .. } => Some(job),
        TransferPhase::PostRank { job } => Some(job),
        TransferPhase::Post { job, .. } => Some(job),
        TransferPhase::TestRank { job } => Some(job),
        TransferPhase::Test { job, .. } => Some(job),
        TransferPhase::Mark { job, .. } => Some(job),
        _ => None,
    }
}

/// The job that a reduce thread is at.
pub open spec fn job_of_reducer(p: ReducePhase) -> Option<usize> {
    match p {
        ReducePhase::Job { job } => Some(job),
        ReducePhase::LoadSend { job } => Some(job),
        ReducePhase::LoadRecv { job, .. } => Some(job),
        ReducePhase::Rank { job } => Some(job),
        ReducePhase::Reduce { job } => Some(job),
        ReducePhase::ClearRecv { job } => Some(job),
        ReducePhase::ClearSend { job } => Some(job),
        _ => None,
    }
}

/// How many more times a thread has raised its bit for a job than it has ended rounds of it:
/// once, in the flags that it has got to.
pub open spec fn begun(p: TransferPhase, job: int, r: int) -> nat {
    match p {
        TransferPhase::Mark { job: j, flag } => if j == job && r < flag { 1 } else { 0 },
        _ => 0,
    }
}

/// The job and the marks of a transfer thread follow from its rounds.
pub open spec fn counts<R>(setup: WorldSetup, s: Side<R>, i: int, n: nat) -> bool {
    let p = s.workers[i].phase;
    let jobs = setup.jobs as int;
    &&& job_of(p) matches Some(j) ==> j == n as int % jobs
    &&& p is Connecting || p is Napping ==> n == 0
    &&& forall|j: int, r: int| 0 <= j < jobs && 0 <= r < setup.reducers ==>
        #[trigger] s.marks[i][j][r] == times(n, j, jobs) + begun(p, j, r)
}

/// The job and the flags taken down by a reduce thread follow from its sums.
pub open spec fn counts_reducer<R>(w: World<R>, r: int, n: nat) -> bool {
    let p = w.reducers[r];
    let jobs = w.setup.jobs as int;
    &&& job_of_reducer(p) matches Some(j) ==> j == n as int % jobs
    &&& p is Connecting || p is Napping || p is Allocate ==> n == 0
    &&& forall|j: int| 0 <= j < jobs ==> (#[trigger] w.send.clears[j])[r] == times(n, j, jobs)
    &&& forall|j: int| 0 <= j < jobs ==>
        (#[trigger] w.recv.clears[j])[r] == times(n, j, jobs) + protocol::ahead(p, j)
}

/// The job after the one of round `n` is the one of round `n + 1`.
pub(crate) proof fn lemma_next_round(n: nat, jobs: int)
    requires
        jobs > 0,
    ensures
        (n + 1) as int % jobs == if n as int % jobs + 1 < jobs { n as int % jobs + 1 } else { 0 },
{
    let q = n as int / jobs;
    let r = n as int % jobs;
    div_mod::lemma_fundamental_div_mod(n as int, jobs);
    assert(jobs * q == q * jobs) by (nonlinear_arith);
    if r + 1 < jobs {
        div_mod::lemma_fundamental_div_mod_converse((n + 1) as int, jobs, q, r + 1);
    } else {
        assert((q + 1) * jobs == q * jobs + jobs) by (nonlinear_arith);
        div_mod::lemma_fundamental_div_mod_converse((n + 1) as int, jobs, q + 1, 0);
    }
}

/// More rounds take up a job no fewer times.
proof fn lemma_times_grow(a: nat, b: nat, job: int, jobs: int)
    requires
        a <= b,
    ensures
        times(a, job, jobs) <= times(b, job, jobs),
    decreases b,
{
    if a < b {
        lemma_times_grow(a, (b - 1) as nat, job, jobs);
    }
}

/// Who has been through with a job as often as one that is just at it is no further than that.
proof fn lemma_no_further(at: nat, other: nat, jobs: int)
    requires
        times(other, at as int % jobs, jobs) <= times(at, at as int % jobs, jobs),
    ensures
        other <= at,
{
    if other > at {
        lemma_times_grow(at + 1, other, at as int % jobs, jobs);
    }
}

/// A move of a transfer thread keeps its counts.
#[verifier::rlimit(40)]
proof fn lemma_counts_moved<R>(setup: WorldSetup, s: Side<R>, i: int, event: TransferEvent<R>, n: nat)
    requires
        setup.valid(),
        setup.jobs > 0,
        protocol::side_holds(setup, s),
        protocol::worker_may(setup, s, i, event),
        counts(setup, s, i, n),
    ensures
        counts(
            setup,
            protocol::worker_moves(setup, s, i, event),
            i,
            n + if s.workers[i].phase matches TransferPhase::Mark { flag, .. } && flag >= setup.reducers {
                1nat
            } else {
                0
            },
        ),
{
    let jobs = setup.jobs as int;
    let t = protocol::worker_moves(setup, s, i, event);
    let p = s.workers[i].phase;
    let q = t.workers[i].phase;
    let m = n + if p matches TransferPhase::Mark { flag, .. } && flag >= setup.reducers { 1nat } else { 0 };
    lemma_next_round(n, jobs);
    div_mod::lemma_small_mod(0, jobs as nat);
    assert(setup.worker(s, i).reached(s.workers[i]));
    assert(protocol::table(s.marks[i], setup.jobs as nat, setup.reducers as nat));
    assert forall|j: int, r: int| 0 <= j < jobs && 0 <= r < setup.reducers implies
        #[trigger] t.marks[i][j][r] == times(m, j, jobs) + begun(q, j, r) by {
        assert(s.marks[i][j][r] == times(n, j, jobs) + begun(p, j, r));
    }
}

/// The counts of a transfer thread hold after any moves.
pub(crate) proof fn lemma_counts<R>(w: World<R>, moves: Seq<Move<R>>, d: Direction, i: int)
    requires
        protocol::fresh(w),
        protocol::possible_run(w, moves),
        w.setup.jobs > 0,
        0 <= i < w.setup.threads(d),
    ensures
        counts(w.setup, protocol::side(protocol::after_run(w, moves), d), i, rounds(w, moves, d, i)),
    decreases moves.len(),
{
    let v = protocol::after_run(w, moves);
    let jobs = w.setup.jobs as int;
    if moves.len() == 0 {
        div_mod::lemma_small_mod(0, jobs as nat);
    } else {
        let before = moves.drop_last();
        let u = protocol::after_run(w, before);
        let n = rounds(w, before, d, i);
        lemma_counts(w, before, d, i);
        protocol::law_always_holds(w, before);
        protocol::law_same_setup(w, before);
        let s = protocol::side(u, d);
        let t = protocol::side(v, d);
        match moves.last() {
            Move::Send { thread, event } if d == Direction::Send && thread == i => {
                lemma_counts_moved(w.setup, s, i, event, n);
            },
            Move::Recv { thread, event } if d == Direction::Recv && thread == i => {
                lemma_counts_moved(w.setup, s, i, event, n);
            },
            _ => {
                assert(t.workers[i] == s.workers[i]);
                assert(t.marks[i] == s.marks[i]);
                assert forall|j: int, r: int| 0 <= j < jobs && 0 <= r < w.setup.reducers implies
                    #[trigger] t.marks[i][j][r] == times(n, j, jobs) + begun(t.workers[i].phase, j, r) by {
                    assert(s.marks[i][j][r] == times(n, j, jobs) + begun(s.workers[i].phase, j, r));
                }
            },
        }
    }
}

/// The counts of a reduce thread hold after any moves.
#[verifier::rlimit(40)]
pub(crate) proof fn lemma_counts_reducer<R>(w: World<R>, moves: Seq<Move<R>>, r: int)
    requires
        protocol::fresh(w),
        protocol::possible_run(w, moves),
        w.setup.jobs > 0,
        0 <= r < w.setup.reducers,
    ensures
        counts_reducer(protocol::after_run(w, moves), r, sums(w, moves, r)),
    decreases moves.len(),
{
    let v = protocol::after_run(w, moves);
    let jobs = w.setup.jobs as int;
    if moves.len() == 0 {
        div_mod::lemma_small_mod(0, jobs as nat);
    } else {
        let before = moves.drop_last();
        let u = protocol::after_run(w, before);
        let n = sums(w, before, r);
        lemma_counts_reducer(w, before, r);
        protocol::law_always_holds(w, before);
        protocol::law_same_setup(w, before);
        protocol::law_same_setup(w, moves);
        lemma_next_round(n, jobs);
        div_mod::lemma_small_mod(0, jobs as nat);
        assert(u.setup.reducer().reached(u.reducers[r]));
        assert(protocol::table(u.send.clears, u.setup.jobs as nat, u.setup.reducers as nat));
        assert(protocol::table(u.recv.clears, u.setup.jobs as nat, u.setup.reducers as nat));
        match moves.last() {
            Move::Reduce { thread, .. } => {
                assert(u.setup.reducer().reached(u.reducers[thread as int]));
            },
            _ => {},
        }
        assert forall|j: int| 0 <= j < jobs implies
            (#[trigger] v.send.clears[j])[r] == times(sums(w, moves, r), j, jobs) by {
            assert(u.send.clears[j][r] == times(n, j, jobs));
        }
        assert forall|j: int| 0 <= j < jobs implies
            (#[trigger] v.recv.clears[j])[r] == times(sums(w, moves, r), j, jobs) + protocol::ahead(v.reducers[r], j) by {
            assert(u.recv.clears[j][r] == times(n, j, jobs) + protocol::ahead(u.reducers[r], j));
        }
    }
}

/// How many rounds of thread `i` are transferred: those that it has ended, and the one for which
/// it is raising its bits.
pub open spec fn transferred<R>(w: World<R>, moves: Seq<Move<R>>, d: Direction, i: int) -> nat {
    rounds(w, moves, d, i) + if protocol::side(protocol::after_run(w, moves), d).workers[i].phase is Mark { 1nat } else { 0 }
}

/// How many sums of reduce thread `r` have taken in their contributions: those that it has ended,
/// and the one of which it has taken down the flag of the receive threads.
pub open spec fn taken<R>(w: World<R>, moves: Seq<Move<R>>, r: int) -> nat {
    sums(w, moves, r) + if protocol::after_run(w, moves).reducers[r] is ClearSend { 1nat } else { 0 }
}

/// Who has been through with a job once more than one that is just at it is ahead, but by no
/// more than one round for each job.
pub(crate) proof fn lemma_once_more(at: nat, other: nat, jobs: int)
    requires
        jobs > 0,
        times(other, at as int % jobs, jobs) == times(at, at as int % jobs, jobs) + 1,
    ensures
        at < other <= at + jobs,
{
    let j = at as int % jobs;
    if other <= at {
        lemma_times_grow(other, at, j, jobs);
    }
    if other > at + jobs {
        let a = (at + jobs) as nat;
        div_mod::lemma_mod_add_multiples_vanish(at as int, jobs);
        lemma_times_grow(at + 1, a, j, jobs);
        lemma_times_grow(a + 1, other, j, jobs);
    }
}

/// Who has been through with a job as often as one that is just at it is behind, but by less
/// than one round for each job.
pub(crate) proof fn lemma_as_often(at: nat, other: nat, jobs: int)
    requires
        jobs > 0,
        times(other, at as int % jobs, jobs) == times(at, at as int % jobs, jobs),
    ensures
        other <= at < other + jobs,
{
    let j = at as int % jobs;
    lemma_no_further(at, other, jobs);
    if other + jobs <= at {
        let a = (at - jobs) as nat;
        div_mod::lemma_mod_add_multiples_vanish(a as int, jobs);
        lemma_times_grow(other, a, j, jobs);
        lemma_times_grow(a + 1, at, j, jobs);
    }
}

/// Where a thread's bit is up, its marks are the rounds of the job that are transferred.
pub(crate) proof fn lemma_transferred<R>(w: World<R>, moves: Seq<Move<R>>, d: Direction, i: int, job: int, r: int)
    requires
        protocol::fresh(w),
        protocol::possible_run(w, moves),
        0 <= i < w.setup.threads(d),
        0 <= job < w.setup.jobs,
        0 <= r < w.setup.reducers,
        ready::raised(protocol::side(protocol::after_run(w, moves), d).flags[job][r], i as usize),
    ensures
        ({
            let s = protocol::side(protocol::after_run(w, moves), d);
            &&& s.marks[i][job][r] == times(transferred(w, moves, d, i), job, w.setup.jobs as int)
            &&& s.marks[i][job][r] + protocol::head_start(d) == s.clears[job][r] + 1
            &&& !protocol::transferring(s.workers[i].phase, job as usize)
        }),
{
    protocol::law_always_holds(w, moves);
    protocol::law_same_setup(w, moves);
    lemma_counts(w, moves, d, i);
    let s = protocol::side(protocol::after_run(w, moves), d);
    assert(!protocol::known_down(s.workers[i].phase, job, r));
    assert(s.marks[i][job][r] + protocol::head_start(d)
        == s.clears[job][r] + protocol::bit_count(s.flags[job][r], i as usize));
}

/// The flags of the receive threads are taken down once for each sum that has taken in its
/// contributions.
pub(crate) proof fn lemma_taken<R>(w: World<R>, moves: Seq<Move<R>>, job: int, r: int)
    requires
        protocol::fresh(w),
        protocol::possible_run(w, moves),
        0 <= job < w.setup.jobs,
        0 <= r < w.setup.reducers,
    ensures
        protocol::after_run(w, moves).send.clears[job][r] == times(sums(w, moves, r), job, w.setup.jobs as int),
        protocol::after_run(w, moves).recv.clears[job][r] == times(taken(w, moves, r), job, w.setup.jobs as int),
{
    protocol::law_same_setup(w, moves);
    lemma_counts_reducer(w, moves, r);
    let v = protocol::after_run(w, moves);
    assert(v.send.clears[job][r] == times(sums(w, moves, r), job, w.setup.jobs as int));
    assert(v.recv.clears[job][r]
        == times(sums(w, moves, r), job, w.setup.jobs as int) + protocol::ahead(v.reducers[r], job));
}

/// Sum number `c` takes in the contributions of round `c`: while a reduce thread forms it, every
/// receive thread is through with round `c`, which took up the same job, and with no later round
/// of that job. And it replaces a sum that was sent: every send thread is through with the last
/// round of that job before round `c`.
pub proof fn law_sum_of_round<R>(w: World<R>, moves: Seq<Move<R>>, r: int, job: usize)
    requires
        protocol::fresh(w),
        protocol::possible_run(w, moves),
        0 <= r < w.setup.reducers,
        protocol::summing(protocol::after_run(w, moves), r, job),
    ensures
        ({
            let c = sums(w, moves, r);
            let jobs = w.setup.jobs as int;
            &&& 0 < jobs
            &&& job == c as int % jobs
            &&& forall|i: int| 0 <= i < w.setup.recv_threads ==>
                c < #[trigger] transferred(w, moves, Direction::Recv, i) <= c + jobs
            &&& forall|i: int| 0 <= i < w.setup.send_threads ==>
                c - jobs < #[trigger] transferred(w, moves, Direction::Send, i) <= c
        }),
{
    let v = protocol::after_run(w, moves);
    let c = sums(w, moves, r);
    let jobs = w.setup.jobs as int;
    protocol::law_always_holds(w, moves);
    protocol::law_same_setup(w, moves);
    assert(v.setup.reducer().reached(v.reducers[r]));
    lemma_counts_reducer(w, moves, r);
    lemma_taken(w, moves, job as int, r);
    ready::law_all_raised(w.setup.send_threads);
    ready::law_all_raised(w.setup.recv_threads);
    assert(v.send.flags[job as int][r] == ready::all_raised(w.setup.send_threads));
    assert(v.recv.flags[job as int][r] == ready::all_raised(w.setup.recv_threads));
    assert forall|i: int| 0 <= i < w.setup.recv_threads implies
        c < #[trigger] transferred(w, moves, Direction::Recv, i) <= c + jobs by {
        lemma_transferred(w, moves, Direction::Recv, i, job as int, r);
        lemma_once_more(c, transferred(w, moves, Direction::Recv, i), jobs);
    }
    assert forall|i: int| 0 <= i < w.setup.send_threads implies
        c - jobs < #[trigger] transferred(w, moves, Direction::Send, i) <= c by {
        lemma_transferred(w, moves, Direction::Send, i, job as int, r);
        lemma_as_often(c, transferred(w, moves, Direction::Send, i), jobs);
    }
}

/// Sum number `m` is sent in round `m`: while a send thread transfers in that round, every reduce
/// thread is through with sum `m` and with no later sum of the same job.
pub proof fn law_sum_is_sent<R>(w: World<R>, moves: Seq<Move<R>>, i: int, job: usize)
    requires
        protocol::fresh(w),
        protocol::possible_run(w, moves),
        0 <= i < w.setup.send_threads,
        protocol::transferring(protocol::after_run(w, moves).send.workers[i].phase, job),
    ensures
        ({
            let m = rounds(w, moves, Direction::Send, i);
            let jobs = w.setup.jobs as int;
            &&& 0 < jobs
            &&& job == m as int % jobs
            &&& forall|r: int| 0 <= r < w.setup.reducers ==> m < #[trigger] sums(w, moves, r) <= m + jobs
        }),
{
    let v = protocol::after_run(w, moves);
    let m = rounds(w, moves, Direction::Send, i);
    let jobs = w.setup.jobs as int;
    protocol::law_always_holds(w, moves);
    protocol::law_same_setup(w, moves);
    assert(v.setup.worker(v.send, i).reached(v.send.workers[i]));
    lemma_counts(w, moves, Direction::Send, i);
    assert forall|r: int| 0 <= r < w.setup.reducers implies m < #[trigger] sums(w, moves, r) <= m + jobs by {
        lemma_taken(w, moves, job as int, r);
        assert(!ready::raised(v.send.flags[job as int][r], i as usize));
        assert(v.send.marks[i][job as int][r] + protocol::head_start(Direction::Send)
            == v.send.clears[job as int][r] + protocol::bit_count(v.send.flags[job as int][r], i as usize));
        lemma_once_more(m, sums(w, moves, r), jobs);
    }
}

/// Round `m` fills buffers whose contributions have been taken in: while a receive thread
/// transfers in that round, every reduce thread has taken in the contributions of the last round
/// of the same job before it, and no later ones of that job.
pub proof fn law_round_is_free<R>(w: World<R>, moves: Seq<Move<R>>, i: int, job: usize)
    requires
        protocol::fresh(w),
        protocol::possible_run(w, moves),
        0 <= i < w.setup.recv_threads,
        protocol::transferring(protocol::after_run(w, moves).recv.workers[i].phase, job),
    ensures
        ({
            let m = rounds(w, moves, Direction::Recv, i);
            let jobs = w.setup.jobs as int;
            &&& 0 < jobs
            &&& job == m as int % jobs
            &&& forall|r: int| 0 <= r < w.setup.reducers ==> m - jobs < #[trigger] taken(w, moves, r) <= m
        }),
{
    let v = protocol::after_run(w, moves);
    let m = rounds(w, moves, Direction::Recv, i);
    let jobs = w.setup.jobs as int;
    protocol::law_always_holds(w, moves);
    protocol::law_same_setup(w, moves);
    assert(v.setup.worker(v.recv, i).reached(v.recv.workers[i]));
    lemma_counts(w, moves, Direction::Recv, i);
    assert forall|r: int| 0 <= r < w.setup.reducers implies m - jobs < #[trigger] taken(w, moves, r) <= m by {
        lemma_taken(w, moves, job as int, r);
        assert(!ready::raised(v.recv.flags[job as int][r], i as usize));
        assert(v.recv.marks[i][job as int][r] + protocol::head_start(Direction::Recv)
            == v.recv.clears[job as int][r] + protocol::bit_count(v.recv.flags[job as int][r], i as usize));
        lemma_as_often(m, taken(w, moves, r), jobs);
    }
}

/// Transfer thread `i` waits for a reduce thread to take its bit down.
pub open spec fn worker_waits<R>(w: World<R>, d: Direction, i: int) -> bool {
    let s = protocol::side(w, d);
    match s.workers[i].phase {
        TransferPhase::Flag { job, flag } =>
            flag < w.setup.reducers && ready::raised(s.flags[job as int][flag as int], i as usize),
        TransferPhase::FlagRank { job, flag } => ready::raised(s.flags[job as int][flag as int], i as usize),
        _ => false,
    }
}

/// Reduce thread `r` waits for a transfer thread to raise its bit.
pub open spec fn reducer_waits<R>(w: World<R>, r: int) -> bool {
    match w.reducers[r] {
        ReducePhase::LoadSend { job } => !both_complete(w, job as int, r),
        ReducePhase::LoadRecv { job, .. } => !both_complete(w, job as int, r),
        ReducePhase::Rank { job } => !both_complete(w, job as int, r),
        _ => false,
    }
}

/// Both flags of reduce thread `r` for a job are complete.
pub open spec fn both_complete<R>(w: World<R>, job: int, r: int) -> bool {
    w.setup.reducer().complete(w.send.flags[job][r], w.recv.flags[job][r])
}

/// Every thread waits for another.
pub open spec fn all_wait<R>(w: World<R>) -> bool {
    &&& forall|i: int| 0 <= i < w.setup.send_threads ==> #[trigger] worker_waits(w, Direction::Send, i)
    &&& forall|i: int| 0 <= i < w.setup.recv_threads ==> #[trigger] worker_waits(w, Direction::Recv, i)
    &&& forall|r: int| 0 <= r < w.setup.reducers ==> #[trigger] reducer_waits(w, r)
}

/// A place where a sequence has its least number.
proof fn lemma_least(s: Seq<nat>) -> (i: int)
    requires
        s.len() > 0,
    ensures
        0 <= i < s.len(),
        forall|k: int| 0 <= k < s.len() ==> s[i] <= #[trigger] s[k],
    decreases s.len(),
{
    if s.len() == 1 {
        0
    } else {
        let i = lemma_least(s.drop_last());
        assert forall|k: int| 0 <= k < s.len() - 1 implies s[i] <= #[trigger] s[k] by {
            assert(s.drop_last()[k] == s[k]);
        }
        if s[i] <= s.last() { i } else { s.len() - 1 }
    }
}

/// A flag that is not complete misses the bit of some thread.
proof fn lemma_missing_bit(word: usize, n: usize) -> (i: usize)
    requires
        n < usize::BITS,
        ready::only_below(word, n),
        word != ready::all_raised(n),
    ensures
        i < n,
        !ready::raised(word, i),
{
    if forall|i: usize| i < n ==> #[trigger] ready::raised(word, i) {
        ready::law_complete(word, n);
    }
    choose|i: usize| i < n && !#[trigger] ready::raised(word, i)
}

/// It never comes to pass that every thread waits for another.
pub proof fn law_never_all_wait<R>(w: World<R>, moves: Seq<Move<R>>)
    requires
        protocol::fresh(w),
        protocol::possible_run(w, moves),
        w.setup.reducers > 0,
    ensures
        !all_wait(protocol::after_run(w, moves)),
{
    let v = protocol::after_run(w, moves);
    protocol::law_always_holds(w, moves);
    protocol::law_same_setup(w, moves);
    if all_wait(v) {
        let jobs = w.setup.jobs as int;
        let behind = Seq::new(w.setup.reducers as nat, |r: int| sums(w, moves, r));
        let r = lemma_least(behind);
        let c = sums(w, moves, r);
        assert(reducer_waits(v, r));
        assert(v.setup.reducer().reached(v.reducers[r]));
        lemma_counts_reducer(w, moves, r);
        let job = job_of_reducer(v.reducers[r]).unwrap() as int;
        assert(job == c as int % jobs);
        let d = if v.send.flags[job][r] != ready::all_raised(w.setup.send_threads) {
            Direction::Send
        } else {
            Direction::Recv
        };
        let s = protocol::side(v, d);
        let i = lemma_missing_bit(s.flags[job][r], w.setup.threads(d)) as int;
        let m = rounds(w, moves, d, i);
        lemma_counts(w, moves, d, i);
        assert(worker_waits(v, d, i));
        assert(s.marks[i][job][r] + protocol::head_start(d)
            == s.clears[job][r] + protocol::bit_count(s.flags[job][r], i as usize));
        assert(times(m, job, jobs) + protocol::head_start(d) == times(c, job, jobs)) by {
            assert(v.send.clears[job][r] == times(c, job, jobs));
            assert(v.recv.clears[job][r] == times(c, job, jobs) + protocol::ahead(v.reducers[r], job));
        }
        lemma_no_further(c, m, jobs);

        let (mine, other) = match s.workers[i].phase {
            TransferPhase::Flag { job, flag } => (job as int, flag as int),
            TransferPhase::FlagRank { job, flag } => (job as int, flag as int),
            _ => (0, 0),
        };
        assert(v.setup.worker(s, i).reached(s.workers[i]));
        assert(0 <= other < w.setup.reducers && 0 <= mine < jobs && mine == m as int % jobs);
        let b = sums(w, moves, other);
        lemma_counts_reducer(w, moves, other);
        assert(reducer_waits(v, other));
        assert(s.marks[i][mine][other] + protocol::head_start(d)
            == s.clears[mine][other] + protocol::bit_count(s.flags[mine][other], i as usize));
        assert(times(m, mine, jobs) + protocol::head_start(d) == times(b, mine, jobs) + 1) by {
            assert(v.send.clears[mine][other] == times(b, mine, jobs));
            assert(v.recv.clears[mine][other] == times(b, mine, jobs) + protocol::ahead(v.reducers[other], mine));
        }
        assert(behind[r] <= behind[other]);
        lemma_times_grow(m, b, mine, jobs);
        if d == Direction::Send {
            lemma_no_further(m, b, jobs);
            lemma_times_grow(c, m, job, jobs);
        }
    }
}

} // verus!
