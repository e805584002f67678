//! What has gone over each link of a server, and so over the connections of each rank.
//!
//! On every link one transfer is complete in each round, so that the transfers of a link come in
//! the order of the rounds: transfer number `n` belongs to round `n`. It follows that sum number
//! `n` takes in contribution number `n` of every rank, and that it is what every rank is sent as
//! answer number `n`.

use vstd::prelude::*;
use crate::protocol;
use crate::protocol::{Move, World};
use crate::rounds;
use crate::topology;
use crate::transfer::{Direction, TransferAction, TransferEvent, TransferPhase};

verus! {

/// The event of a move of transfer thread `i` of a direction.
pub open spec fn event_of<R>(m: Move<R>, d: Direction, i: int) -> Option<TransferEvent<R>> {
    match m {
        Move::Send { thread, event } => if d == Direction::Send && thread == i { Some(event) } else { None },
        Move::Recv { thread, event } => if d == Direction::Recv && thread == i { Some(event) } else { None },
        Move::Reduce { .. } => None,
    }
}

/// The job whose transfer on a link of thread `i` the move finds complete, if it does.
pub open spec fn finishes<R>(w: World<R>, m: Move<R>, d: Direction, i: int, link: int) -> Option<usize> {
    let s = protocol::side(w, d);
    match (event_of(m, d, i), w.setup.worker(s, i).action(s.workers[i])) {
        (Some(TransferEvent::Tested(complete)), TransferAction::Test { job, link: l }) =>
            if complete && l == link { Some(job) } else { None },
        _ => None,
    }
}

/// How many transfers on a link are complete.
pub open spec fn complete<R>(w: World<R>, moves: Seq<Move<R>>, d: Direction, i: int, link: int) -> nat
    decreases moves.len(),
{
    if moves.len() == 0 {
        0
    } else {
        let before = moves.drop_last();
        let u = protocol::after_run(w, before);
        complete(w, before, d, i, link) + if finishes(u, moves.last(), d, i, link) is Some { 1nat } else { 0 }
    }
}

/// How many transfers of a job on a link are complete.
pub open spec fn complete_of<R>(w: World<R>, moves: Seq<Move<R>>, d: Direction, i: int, link: int, job: usize) -> nat
    decreases moves.len(),
{
    if moves.len() == 0 {
        0
    } else {
        let before = moves.drop_last();
        let u = protocol::after_run(w, before);
        complete_of(w, before, d, i, link, job) + if finishes(u, moves.last(), d, i, link) == Some(job) {
            1nat
        } else {
            0
        }
    }
}

/// The number, among all transfers of a link, of the last one of a job that is complete.
pub open spec fn last_of<R>(w: World<R>, moves: Seq<Move<R>>, d: Direction, i: int, link: int, job: usize) -> Option<nat>
    decreases moves.len(),
{
    if moves.len() == 0 {
        None
    } else {
        let before = moves.drop_last();
        let u = protocol::after_run(w, before);
        if finishes(u, moves.last(), d, i, link) == Some(job) {
            Some(complete(w, before, d, i, link))
        } else {
            last_of(w, before, d, i, link, job)
        }
    }
}

/// The last of the rounds `0..n` that takes up `job`.
pub open spec fn last_round(n: nat, job: int, jobs: int) -> Option<nat>
    decreases n,
{
    if n == 0 {
        None
    } else if (n - 1) % jobs == job {
        Some((n - 1) as nat)
    } else {
        last_round((n - 1) as nat, job, jobs)
    }
}

/// How many transfers of a link are complete follows from the rounds of its thread.
pub open spec fn in_step<R>(w: World<R>, moves: Seq<Move<R>>, d: Direction, i: int, link: int) -> bool {
    let s = protocol::side(protocol::after_run(w, moves), d).workers[i];
    let n = rounds::rounds(w, moves, d, i);
    let c = complete(w, moves, d, i, link);
    match s.phase {
        TransferPhase::TestRank { .. } => c == n + if s.reqs[link] is None { 1nat } else { 0 },
        TransferPhase::Test { .. } => c == n + if s.reqs[link] is None { 1nat } else { 0 },
        TransferPhase::Mark { .. } => c == n + 1,
        TransferPhase::Stopped =>
            c == n || (c == n + 1 && protocol::engaged(w, moves, d, i, (n as int % w.setup.jobs as int) as usize)),
        _ => c == n,
    }
}

#[verifier::rlimit(40)]
pub(crate) proof fn lemma_in_step<R>(w: World<R>, moves: Seq<Move<R>>, d: Direction, i: int, link: int)
    requires
        protocol::fresh(w),
        protocol::possible_run(w, moves),
        w.setup.jobs > 0,
        0 <= i < w.setup.threads(d),
        0 <= link < protocol::side(w, d).links[i],
    ensures
        in_step(w, moves, d, i, link),
    decreases moves.len(),
{
    if moves.len() > 0 {
        let before = moves.drop_last();
        let u = protocol::after_run(w, before);
        let v = protocol::after_run(w, moves);
        let s = protocol::side(u, d);
        lemma_in_step(w, before, d, i, link);
        protocol::law_always_holds(w, before);
        protocol::law_same_setup(w, before);
        protocol::lemma_same_links(w, before);
        rounds::lemma_counts(w, before, d, i);
        assert(u.setup.worker(s, i).reached(s.workers[i]));
        let n = rounds::rounds(w, before, d, i);
        let job = (n as int % w.setup.jobs as int) as usize;
        let p = s.workers[i].phase;
        if p is TestRank || p is Stopped {
            assert(p is TestRank ==> protocol::engaged(w, before, d, i, job));
            if protocol::side(v, d).workers[i].phase is Stopped && protocol::engaged(w, before, d, i, job) {
                assert(protocol::engaged(w, moves, d, i, job));
            }
        }
        match event_of(moves.last(), d, i) {
            None => {
                assert(protocol::side(v, d).workers[i] == s.workers[i]);
            },
            Some(event) => {
                assert(protocol::side(v, d).workers[i] == u.setup.worker(s, i).next(s.workers[i], event));
                assert(u.setup.worker(s, i).links == protocol::side(w, d).links[i]);
            },
        }
    }
}

/// The transfers of a link take up the jobs in turn.
proof fn lemma_in_turn<R>(w: World<R>, moves: Seq<Move<R>>, d: Direction, i: int, link: int, job: usize)
    requires
        protocol::fresh(w),
        protocol::possible_run(w, moves),
        w.setup.jobs > 0,
        0 <= i < w.setup.threads(d),
        0 <= link < protocol::side(w, d).links[i],
    ensures
        complete_of(w, moves, d, i, link, job)
            == rounds::times(complete(w, moves, d, i, link), job as int, w.setup.jobs as int),
        last_of(w, moves, d, i, link, job)
            == last_round(complete(w, moves, d, i, link), job as int, w.setup.jobs as int),
    decreases moves.len(),
{
    if moves.len() > 0 {
        let before = moves.drop_last();
        let u = protocol::after_run(w, before);
        let s = protocol::side(u, d);
        lemma_in_turn(w, before, d, i, link, job);
        lemma_in_step(w, before, d, i, link);
        protocol::law_always_holds(w, before);
        protocol::law_same_setup(w, before);
        protocol::lemma_same_links(w, before);
        rounds::lemma_counts(w, before, d, i);
        assert(u.setup.worker(s, i).reached(s.workers[i]));
    }
}

/// A round is the last of its job until the jobs have gone round.
pub(crate) proof fn lemma_last_round(at: nat, n: nat, jobs: int)
    requires
        jobs > 0,
        at < n <= at + jobs,
    ensures
        last_round(n, at as int % jobs, jobs) == Some(at),
    decreases n,
{
    if n > at + 1 {
        let step = n - 1 - at;
        if (n - 1) % jobs == at as int % jobs {
            vstd::arithmetic::div_mod::lemma_fundamental_div_mod(n - 1, jobs);
            vstd::arithmetic::div_mod::lemma_fundamental_div_mod(at as int, jobs);
            let a = (n - 1) / jobs;
            let b = at as int / jobs;
            assert(step == jobs * (a - b)) by (nonlinear_arith)
                requires
                    n - 1 == jobs * a + (n - 1) % jobs,
                    at == jobs * b + at as int % jobs,
                    (n - 1) % jobs == at as int % jobs,
                    step == n - 1 - at,
            ;
            assert(!(0 < step < jobs)) by (nonlinear_arith)
                requires
                    step == jobs * (a - b),
                    jobs > 0,
            ;
        }
        lemma_last_round(at, (n - 1) as nat, jobs);
    }
}

/// Where the bit of a thread is up, its marks tell how many transfers of the job are complete on
/// each of its links.
proof fn lemma_marked<R>(w: World<R>, moves: Seq<Move<R>>, d: Direction, i: int, link: int, job: usize, r: int)
    requires
        protocol::fresh(w),
        protocol::possible_run(w, moves),
        0 <= i < w.setup.threads(d),
        0 <= link < protocol::side(w, d).links[i],
        job < w.setup.jobs,
        0 <= r < w.setup.reducers,
        crate::ready::raised(protocol::side(protocol::after_run(w, moves), d).flags[job as int][r], i as usize),
    ensures
        ({
            let s = protocol::side(protocol::after_run(w, moves), d);
            let n = rounds::times(complete(w, moves, d, i, link), job as int, w.setup.jobs as int);
            s.marks[i][job as int][r] == n && n + protocol::head_start(d) == s.clears[job as int][r] + 1
        }),
{
    let s = protocol::side(protocol::after_run(w, moves), d);
    let n = rounds::rounds(w, moves, d, i);
    protocol::law_same_setup(w, moves);
    rounds::lemma_transferred(w, moves, d, i, job as int, r);
    rounds::lemma_counts(w, moves, d, i);
    lemma_in_step(w, moves, d, i, link);
    if complete(w, moves, d, i, link) != rounds::transferred(w, moves, d, i) {
        assert(complete(w, moves, d, i, link) == n + 1);
        if n as int % w.setup.jobs as int == job && protocol::engaged(w, moves, d, i, job) {
            protocol::lemma_engaged_down(w, moves, d, i, job);
            assert(!crate::ready::raised(s.flags[job as int][r], i as usize));
        }
    }
}

/// While a reduce thread forms sum number `c`, its sum number `k + 1` of a job, exactly `k + 1`
/// receives of that job are complete on every link, the last of them number `c` of the link, and
/// exactly `k` sends of that job.
pub proof fn law_sum_of_links<R>(w: World<R>, moves: Seq<Move<R>>, r: int, job: usize)
    requires
        protocol::fresh(w),
        protocol::possible_run(w, moves),
        0 <= r < w.setup.reducers,
        protocol::summing(protocol::after_run(w, moves), r, job),
    ensures
        ({
            let c = rounds::sums(w, moves, r);
            let k = protocol::after_run(w, moves).send.clears[job as int][r];
            &&& forall|i: int, l: int| 0 <= i < w.setup.recv_threads && 0 <= l < w.recv.links[i] ==>
                #[trigger] complete_of(w, moves, Direction::Recv, i, l, job) == k + 1
            &&& forall|i: int, l: int| 0 <= i < w.setup.recv_threads && 0 <= l < w.recv.links[i] ==>
                #[trigger] last_of(w, moves, Direction::Recv, i, l, job) == Some(c)
            &&& forall|i: int, l: int| 0 <= i < w.setup.send_threads && 0 <= l < w.send.links[i] ==>
                #[trigger] complete_of(w, moves, Direction::Send, i, l, job) == k
        }),
{
    let v = protocol::after_run(w, moves);
    let c = rounds::sums(w, moves, r);
    let k = v.send.clears[job as int][r];
    let jobs = w.setup.jobs as int;
    protocol::law_always_holds(w, moves);
    protocol::law_same_setup(w, moves);
    assert(v.setup.reducer().reached(v.reducers[r]));
    rounds::lemma_counts_reducer(w, moves, r);
    rounds::lemma_taken(w, moves, job as int, r);
    crate::ready::law_all_raised(w.setup.send_threads);
    crate::ready::law_all_raised(w.setup.recv_threads);
    assert(v.send.flags[job as int][r] == crate::ready::all_raised(w.setup.send_threads));
    assert(v.recv.flags[job as int][r] == crate::ready::all_raised(w.setup.recv_threads));
    assert forall|i: int, l: int| 0 <= i < w.setup.recv_threads && 0 <= l < w.recv.links[i] implies {
        &&& #[trigger] complete_of(w, moves, Direction::Recv, i, l, job) == k + 1
        &&& last_of(w, moves, Direction::Recv, i, l, job) == Some(c)
    } by {
        lemma_marked(w, moves, Direction::Recv, i, l, job, r);
        lemma_in_turn(w, moves, Direction::Recv, i, l, job);
        rounds::lemma_once_more(c, complete(w, moves, Direction::Recv, i, l), jobs);
        lemma_last_round(c, complete(w, moves, Direction::Recv, i, l), jobs);
    }
    assert forall|i: int, l: int| 0 <= i < w.setup.recv_threads && 0 <= l < w.recv.links[i] implies
        #[trigger] last_of(w, moves, Direction::Recv, i, l, job) == Some(c) by {
        assert(complete_of(w, moves, Direction::Recv, i, l, job) == k + 1);
    }
    assert forall|i: int, l: int| 0 <= i < w.setup.send_threads && 0 <= l < w.send.links[i] implies
        #[trigger] complete_of(w, moves, Direction::Send, i, l, job) == k by {
        lemma_marked(w, moves, Direction::Send, i, l, job, r);
        lemma_in_turn(w, moves, Direction::Send, i, l, job);
    }
}

/// While the send of round `m` is under way on a link, exactly `m` sends are complete on it, and
/// the buffer holds sum number `m`: every reduce thread is through with it, and with no later sum
/// of the same job.
pub proof fn law_sum_on_link<R>(w: World<R>, moves: Seq<Move<R>>, i: int, link: int, job: usize)
    requires
        protocol::fresh(w),
        protocol::possible_run(w, moves),
        0 <= i < w.setup.send_threads,
        0 <= link < w.send.links[i],
        protocol::transferring(protocol::after_run(w, moves).send.workers[i].phase, job),
        protocol::after_run(w, moves).send.workers[i].reqs[link] is Some,
    ensures
        ({
            let m = complete(w, moves, Direction::Send, i, link);
            let jobs = w.setup.jobs as int;
            &&& m == rounds::rounds(w, moves, Direction::Send, i)
            &&& 0 < jobs
            &&& job == m as int % jobs
            &&& forall|r: int| 0 <= r < w.setup.reducers ==> m < #[trigger] rounds::sums(w, moves, r) <= m + jobs
            &&& forall|r: int| 0 <= r < w.setup.reducers ==>
                !#[trigger] protocol::summing(protocol::after_run(w, moves), r, job)
        }),
{
    rounds::law_sum_is_sent(w, moves, i, job);
    lemma_in_step(w, moves, Direction::Send, i, link);
    assert forall|r: int| 0 <= r < w.setup.reducers implies
        !#[trigger] protocol::summing(protocol::after_run(w, moves), r, job) by {
        if protocol::summing(protocol::after_run(w, moves), r, job) {
            protocol::law_exclusion(w, moves, r, job, Direction::Send, i);
        }
    }
}

/// The links of every thread of a direction serve the ranks that fall to it, in some order:
/// `order[i][l]` is the rank that link `l` of thread `i` serves.
pub open spec fn serves<R>(w: World<R>, d: Direction, order: Seq<Seq<usize>>) -> bool {
    let n = w.setup.threads(d);
    &&& order.len() == n
    &&& n > 0
    &&& forall|i: int| 0 <= i < n ==> (#[trigger] order[i]).len() == protocol::side(w, d).links[i]
    &&& forall|i: int| 0 <= i < n ==> (#[trigger] order[i]).to_multiset()
        == topology::dealt(w.setup.nrank as nat, n as nat, i as nat).to_multiset()
}

/// The thread that serves a rank.
pub open spec fn thread_of(order: Seq<Seq<usize>>, rank: usize) -> int {
    rank as int % order.len() as int
}

/// The link that serves a rank.
pub open spec fn link_of(order: Seq<Seq<usize>>, rank: usize) -> int {
    order[thread_of(order, rank)].index_of(rank)
}

/// Every rank has a link, and no other link serves it.
pub proof fn law_one_link<R>(w: World<R>, d: Direction, order: Seq<Seq<usize>>, rank: usize)
    requires
        serves(w, d, order),
        rank < w.setup.nrank,
    ensures
        0 <= thread_of(order, rank) < w.setup.threads(d),
        0 <= link_of(order, rank) < protocol::side(w, d).links[thread_of(order, rank)],
        forall|i: int, l: int| 0 <= i < order.len() && 0 <= l < order[i].len() ==>
            (#[trigger] order[i][l] == rank <==> i == thread_of(order, rank) && l == link_of(order, rank)),
{
    broadcast use vstd::seq_lib::group_to_multiset_ensures;

    let n = w.setup.threads(d) as nat;
    let t = thread_of(order, rank);
    let nrank = w.setup.nrank as nat;
    assert(0 <= t < n);
    topology::law_dealt(nrank, n, t as nat, rank);
    assert(order[t].to_multiset() == topology::dealt(nrank, n, t as nat).to_multiset());
    assert(topology::dealt(nrank, n, t as nat).to_multiset().count(rank) > 0);
    assert(order[t].contains(rank));
    assert forall|i: int, l: int| 0 <= i < order.len() && 0 <= l < order[i].len() implies
        (#[trigger] order[i][l] == rank <==> i == t && l == link_of(order, rank)) by {
        if order[i][l] == rank {
            let share = topology::dealt(nrank, n, i as nat);
            assert(order[i].contains(rank));
            assert(order[i].to_multiset() == share.to_multiset());
            assert(order[i].to_multiset().count(rank) > 0);
            assert(share.contains(rank));
            topology::law_dealt(nrank, n, i as nat, rank);
            topology::law_dealt_ascending(nrank, n, i as nat);
            assert(share.no_duplicates());
            share.lemma_multiset_has_no_duplicates();
            order[i].lemma_multiset_has_no_duplicates_conv();
        }
    }
}

/// While a reduce thread forms sum number `c`, its sum number `k + 1` of a job, exactly `k + 1`
/// receives of that job are complete from every rank, the last of them number `c` of all receives
/// from that rank, and exactly `k` sends of that job to every rank: the sum takes in contribution
/// number `c` of every rank, and every rank has been sent the sums of the job before it.
pub proof fn law_sum_of_ranks<R>(
    w: World<R>,
    moves: Seq<Move<R>>,
    r: int,
    job: usize,
    senders: Seq<Seq<usize>>,
    receivers: Seq<Seq<usize>>,
    rank: usize,
)
    requires
        protocol::fresh(w),
        protocol::possible_run(w, moves),
        0 <= r < w.setup.reducers,
        protocol::summing(protocol::after_run(w, moves), r, job),
        serves(w, Direction::Send, senders),
        serves(w, Direction::Recv, receivers),
        rank < w.setup.nrank,
    ensures
        ({
            let c = rounds::sums(w, moves, r);
            let k = protocol::after_run(w, moves).send.clears[job as int][r];
            let (i, l) = (thread_of(receivers, rank), link_of(receivers, rank));
            let (j, m) = (thread_of(senders, rank), link_of(senders, rank));
            &&& complete_of(w, moves, Direction::Recv, i, l, job) == k + 1
            &&& last_of(w, moves, Direction::Recv, i, l, job) == Some(c)
            &&& complete_of(w, moves, Direction::Send, j, m, job) == k
        }),
{
    law_one_link(w, Direction::Recv, receivers, rank);
    law_one_link(w, Direction::Send, senders, rank);
    law_sum_of_links(w, moves, r, job);
}

/// While a send to a rank is under way and `m` sends to it are complete, the buffer that is sent
/// holds sum number `m`: answer number `m` to every rank is sum number `m`.
pub proof fn law_answer_of_rank<R>(w: World<R>, moves: Seq<Move<R>>, senders: Seq<Seq<usize>>, rank: usize, job: usize)
    requires
        protocol::fresh(w),
        protocol::possible_run(w, moves),
        serves(w, Direction::Send, senders),
        rank < w.setup.nrank,
        ({
            let s = protocol::after_run(w, moves).send.workers[thread_of(senders, rank)];
            protocol::transferring(s.phase, job) && s.reqs[link_of(senders, rank)] is Some
        }),
    ensures
        ({
            let m = complete(w, moves, Direction::Send, thread_of(senders, rank), link_of(senders, rank));
            let jobs = w.setup.jobs as int;
            &&& 0 < jobs
            &&& job == m as int % jobs
            &&& forall|r: int| 0 <= r < w.setup.reducers ==> m < #[trigger] rounds::sums(w, moves, r) <= m + jobs
            &&& forall|r: int| 0 <= r < w.setup.reducers ==>
                !#[trigger] protocol::summing(protocol::after_run(w, moves), r, job)
        }),
{
    law_one_link(w, Direction::Send, senders, rank);
    law_sum_on_link(w, moves, thread_of(senders, rank), link_of(senders, rank), job);
}

} // verus!
