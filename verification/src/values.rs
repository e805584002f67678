//! What the buffers of a server hold, and so which numbers every rank is sent.
//!
//! A history adds to a run of the threads what the buffers hold after each move. A receive fills
//! the buffer of its rank: while it is under way the buffer may hold anything, and when it is
//! found complete the buffer holds what the rank has sent. A reduce thread writes its part of the
//! sum when it carries out its sum. Nothing else changes a buffer.

use vstd::prelude::*;
use crate::links;
use crate::protocol;
use crate::protocol::{Move, World};
use crate::reduce;
use crate::rounds;
use crate::transfer::{Direction, TransferAction};

verus! {

/// What the buffers hold: one for each job and rank, and one for the sum of each job, all in one
/// part for each reduce thread.
pub struct Buffers<T> {
    pub recv: spec_fn(usize, usize, int) -> Seq<T>,
    pub send: spec_fn(usize, int) -> Seq<T>,
}

impl<T> Buffers<T> {
    /// A part of the buffer of a job and a rank.
    pub open spec fn recv_part(self, job: usize, rank: usize, part: int) -> Seq<T> {
        (self.recv)(job, rank, part)
    }

    /// A part of the sum of a job.
    pub open spec fn send_part(self, job: usize, part: int) -> Seq<T> {
        (self.send)(job, part)
    }

    /// A part of the buffers of a job, in the order of the ranks.
    pub open spec fn recv_parts(self, nrank: usize, job: usize, part: int) -> Seq<Seq<T>> {
        Seq::new(nrank as nat, |rank: int| self.recv_part(job, rank as usize, part))
    }
}

/// What surrounds the threads of a server.
#[verifier::reject_recursive_types(T)]
pub struct Surroundings<T> {
    /// The rank that each link of each receive thread serves.
    pub receivers: Seq<Seq<usize>>,
    /// What a rank sends as its contribution of a given number, in parts.
    pub given: spec_fn(usize, nat, int) -> Seq<T>,
    /// Whether summing contributions into a buffer that held the second argument can give the
    /// third.
    pub sums_to: spec_fn(Seq<Seq<T>>, Seq<T>, Seq<T>) -> bool,
}

impl<T> Surroundings<T> {
    /// A part of what a rank sends as its contribution number `n`.
    pub open spec fn contribution(self, rank: usize, n: nat, part: int) -> Seq<T> {
        (self.given)(rank, n, part)
    }

    /// A part of contribution number `n` of all ranks, in their order.
    pub open spec fn contributions(self, nrank: usize, n: nat, part: int) -> Seq<Seq<T>> {
        Seq::new(nrank as nat, |rank: int| self.contribution(rank as usize, n, part))
    }
}

/// A receive of `job` from the rank of a link is under way, or may be.
pub open spec fn under_way<R>(w: World<R>, moves: Seq<Move<R>>, i: int, link: int, job: usize) -> bool {
    &&& protocol::engaged(w, moves, Direction::Recv, i, job)
    &&& protocol::after_run(w, moves).recv.workers[i].reqs[link] is Some
}

/// The last move may change a part of the buffer of a rank from `a` to `b`.
pub open spec fn recv_step<R, T>(
    w: World<R>,
    moves: Seq<Move<R>>,
    env: Surroundings<T>,
    job: usize,
    rank: usize,
    part: int,
    a: Seq<T>,
    b: Seq<T>,
) -> bool {
    let before = moves.drop_last();
    let (i, l) = (links::thread_of(env.receivers, rank), links::link_of(env.receivers, rank));
    if links::finishes(protocol::after_run(w, before), moves.last(), Direction::Recv, i, l) == Some(job) {
        b == env.contribution(rank, links::complete(w, before, Direction::Recv, i, l), part)
    } else {
        b == a || under_way(w, before, i, l, job) || under_way(w, moves, i, l, job)
    }
}

/// The move carries out the sum of a part of a job.
pub open spec fn forms<R>(w: World<R>, m: Move<R>, job: usize, part: int) -> bool {
    &&& m matches Move::Reduce { thread, .. } && thread == part
    &&& protocol::summing(w, part, job)
}

/// The last move may change what the buffers hold from `a` to `b`.
pub open spec fn step<R, T>(w: World<R>, moves: Seq<Move<R>>, env: Surroundings<T>, a: Buffers<T>, b: Buffers<T>) -> bool {
    let u = protocol::after_run(w, moves.drop_last());
    &&& forall|job: usize, rank: usize, part: int|
        job < w.setup.jobs && rank < w.setup.nrank && 0 <= part < w.setup.reducers ==> recv_step(
            w,
            moves,
            env,
            job,
            rank,
            part,
            a.recv_part(job, rank, part),
            #[trigger] b.recv_part(job, rank, part),
        )
    &&& forall|job: usize, part: int| job < w.setup.jobs && 0 <= part < w.setup.reducers ==> if forms(
        u,
        moves.last(),
        job,
        part,
    ) {
        (env.sums_to)(
            a.recv_parts(w.setup.nrank, job, part),
            a.send_part(job, part),
            #[trigger] b.send_part(job, part),
        )
    } else {
        b.send_part(job, part) == a.send_part(job, part)
    }
}

/// `buffers` is what the buffers hold at the start and after each of the moves.
pub open spec fn history<R, T>(w: World<R>, moves: Seq<Move<R>>, env: Surroundings<T>, buffers: Seq<Buffers<T>>) -> bool
    decreases moves.len(),
{
    &&& buffers.len() == moves.len() + 1
    &&& moves.len() > 0 ==> {
        &&& history(w, moves.drop_last(), env, buffers.drop_last())
        &&& step(w, moves, env, buffers[moves.len() - 1], buffers.last())
    }
}

/// A buffer whose receive is not under way holds the last contribution that was received into it.
pub proof fn law_holds_contribution<R, T>(
    w: World<R>,
    moves: Seq<Move<R>>,
    env: Surroundings<T>,
    buffers: Seq<Buffers<T>>,
    job: usize,
    rank: usize,
    part: int,
)
    requires
        protocol::fresh(w),
        protocol::possible_run(w, moves),
        history(w, moves, env, buffers),
        links::serves(w, Direction::Recv, env.receivers),
        job < w.setup.jobs,
        rank < w.setup.nrank,
        0 <= part < w.setup.reducers,
        !under_way(
            w,
            moves,
            links::thread_of(env.receivers, rank),
            links::link_of(env.receivers, rank),
            job,
        ),
    ensures
        ({
            let (i, l) = (links::thread_of(env.receivers, rank), links::link_of(env.receivers, rank));
            links::last_of(w, moves, Direction::Recv, i, l, job) matches Some(n) ==> buffers.last().recv_part(
                job,
                rank,
                part,
            ) == env.contribution(rank, n, part)
        }),
    decreases moves.len(),
{
    let (i, l) = (links::thread_of(env.receivers, rank), links::link_of(env.receivers, rank));
    if moves.len() > 0 {
        let before = moves.drop_last();
        let u = protocol::after_run(w, before);
        let v = protocol::after_run(w, moves);
        let a = buffers[moves.len() - 1];
        let b = buffers.last();
        assert(buffers.drop_last().last() == a);
        assert(recv_step(
            w,
            moves,
            env,
            job,
            rank,
            part,
            a.recv_part(job, rank, part),
            b.recv_part(job, rank, part),
        ));
        if links::finishes(u, moves.last(), Direction::Recv, i, l) != Some(job) {
            links::law_one_link(w, Direction::Recv, env.receivers, rank);
            if under_way(w, before, i, l, job) {
                lemma_stays_under_way(w, moves, i, l, job);
            } else {
                law_holds_contribution(w, before, env, buffers.drop_last(), job, rank, part);
            }
        }
    }
}

/// A receive that is under way stays so until it is found complete.
proof fn lemma_stays_under_way<R>(w: World<R>, moves: Seq<Move<R>>, i: int, link: int, job: usize)
    requires
        protocol::fresh(w),
        protocol::possible_run(w, moves),
        moves.len() > 0,
        0 <= i < w.setup.recv_threads,
        0 <= link < w.recv.links[i],
        under_way(w, moves.drop_last(), i, link, job),
        links::finishes(protocol::after_run(w, moves.drop_last()), moves.last(), Direction::Recv, i, link)
            != Some(job),
    ensures
        under_way(w, moves, i, link, job),
{
    let before = moves.drop_last();
    let u = protocol::after_run(w, before);
    let v = protocol::after_run(w, moves);
    protocol::law_always_holds(w, before);
    protocol::law_always_holds(w, moves);
    protocol::law_same_setup(w, before);
    protocol::law_same_setup(w, moves);
    protocol::lemma_same_links(w, before);
    protocol::lemma_same_links(w, moves);
    assert(u.setup.worker(u.recv, i).reached(u.recv.workers[i]));
    assert(v.setup.worker(v.recv, i).reached(v.recv.workers[i]));
    match links::event_of(moves.last(), Direction::Recv, i) {
        None => {
            assert(v.recv.workers[i] == u.recv.workers[i]);
        },
        Some(event) => {
            assert(v.recv.workers[i] == u.setup.worker(u.recv, i).next(u.recv.workers[i], event));
        },
    }
}

/// How many sums reduce thread `r` has formed: those that it has ended, and the one of which it is
/// taking down the flags.
pub open spec fn formed<R>(w: World<R>, moves: Seq<Move<R>>, r: int) -> nat {
    let p = protocol::after_run(w, moves).reducers[r];
    rounds::sums(w, moves, r) + if p is ClearRecv || p is ClearSend { 1nat } else { 0 }
}

/// A part of a sum comes of summing contribution number `n` of all ranks.
pub open spec fn is_sum_number<T>(env: Surroundings<T>, nrank: usize, n: nat, part: int, sum: Seq<T>) -> bool {
    exists|before: Seq<T>| #[trigger] (env.sums_to)(env.contributions(nrank, n, part), before, sum)
}

/// The buffer for the sum of a job holds the last sum that was formed of it, and sum number `n` is
/// that of contribution number `n` of all ranks.
pub proof fn law_holds_sum<R, T>(
    w: World<R>,
    moves: Seq<Move<R>>,
    env: Surroundings<T>,
    buffers: Seq<Buffers<T>>,
    job: usize,
    r: int,
)
    requires
        protocol::fresh(w),
        protocol::possible_run(w, moves),
        history(w, moves, env, buffers),
        links::serves(w, Direction::Recv, env.receivers),
        job < w.setup.jobs,
        0 <= r < w.setup.reducers,
    ensures
        links::last_round(formed(w, moves, r), job as int, w.setup.jobs as int) matches Some(n) ==> is_sum_number(
            env,
            w.setup.nrank,
            n,
            r,
            buffers.last().send_part(job, r),
        ),
    decreases moves.len(),
{
    if moves.len() > 0 {
        let before = moves.drop_last();
        let u = protocol::after_run(w, before);
        let a = buffers[moves.len() - 1];
        let b = buffers.last();
        let jobs = w.setup.jobs as int;
        let c = rounds::sums(w, before, r);
        assert(buffers.drop_last().last() == a);
        law_holds_sum(w, before, env, buffers.drop_last(), job, r);
        protocol::law_always_holds(w, before);
        protocol::law_same_setup(w, before);
        rounds::lemma_counts_reducer(w, before, r);
        assert(u.setup.reducer().reached(u.reducers[r]));
        assert(b.send_part(job, r) == b.send_part(job, r));
        if forms(u, moves.last(), job, r) {
            links::law_sum_of_links(w, before, r, job);
            let got = a.recv_parts(w.setup.nrank, job, r);
            let given = env.contributions(w.setup.nrank, c, r);
            assert forall|q: int| 0 <= q < w.setup.nrank implies got[q] == given[q] by {
                let rank = q as usize;
                let (i, l) = (links::thread_of(env.receivers, rank), links::link_of(env.receivers, rank));
                links::law_one_link(w, Direction::Recv, env.receivers, rank);
                protocol::law_exclusion(w, before, r, job, Direction::Recv, i);
                law_holds_contribution(w, before, env, buffers.drop_last(), job, rank, r);
                assert(links::last_of(w, before, Direction::Recv, i, l, job) == Some(c));
            }
            assert(got =~= given);
            assert((env.sums_to)(given, a.send_part(job, r), b.send_part(job, r)));
        } else {
            assert(b.send_part(job, r) == a.send_part(job, r));
        }
    }
}

/// While a send thread transfers in round `m`, every part of the buffer of its job is the sum of
/// contribution number `m` of all ranks.
proof fn lemma_sent<R, T>(
    w: World<R>,
    moves: Seq<Move<R>>,
    env: Surroundings<T>,
    buffers: Seq<Buffers<T>>,
    i: int,
    job: usize,
    part: int,
)
    requires
        protocol::fresh(w),
        protocol::possible_run(w, moves),
        history(w, moves, env, buffers),
        links::serves(w, Direction::Recv, env.receivers),
        0 <= i < w.setup.send_threads,
        0 <= part < w.setup.reducers,
        protocol::transferring(protocol::after_run(w, moves).send.workers[i].phase, job),
    ensures
        is_sum_number(
            env,
            w.setup.nrank,
            rounds::rounds(w, moves, Direction::Send, i),
            part,
            buffers.last().send_part(job, part),
        ),
{
    let v = protocol::after_run(w, moves);
    let jobs = w.setup.jobs as int;
    let m = rounds::rounds(w, moves, Direction::Send, i);
    rounds::law_sum_is_sent(w, moves, i, job);
    protocol::law_always_holds(w, moves);
    protocol::law_same_setup(w, moves);
    rounds::lemma_counts_reducer(w, moves, part);
    assert(m < rounds::sums(w, moves, part) <= m + jobs);
    if formed(w, moves, part) > m + jobs {
        vstd::arithmetic::div_mod::lemma_mod_add_multiples_vanish(m as int, jobs);
        crate::ready::law_all_raised(w.setup.send_threads);
        assert(protocol::known_full(v.reducers[part], job as int, Direction::Send, w.setup.send_threads));
        assert(v.send.flags[job as int][part] == crate::ready::all_raised(w.setup.send_threads));
        assert(v.setup.worker(v.send, i).reached(v.send.workers[i]));
        assert(protocol::known_down(v.send.workers[i].phase, job as int, part));
        assert(!crate::ready::raised(v.send.flags[job as int][part], i as usize));
        assert(crate::ready::raised(crate::ready::all_raised(w.setup.send_threads), i as usize));
    }
    links::lemma_last_round(m, formed(w, moves, part), jobs);
    law_holds_sum(w, moves, env, buffers, job, part);
}

/// When a send to a rank is asked for and `m` sends to it are complete, every part of the buffer
/// of the job that is to be sent is the sum of contribution number `m` of all ranks.
pub proof fn law_posted_answer<R, T>(
    w: World<R>,
    moves: Seq<Move<R>>,
    env: Surroundings<T>,
    buffers: Seq<Buffers<T>>,
    senders: Seq<Seq<usize>>,
    rank: usize,
    job: usize,
    part: int,
)
    requires
        protocol::fresh(w),
        protocol::possible_run(w, moves),
        history(w, moves, env, buffers),
        links::serves(w, Direction::Recv, env.receivers),
        links::serves(w, Direction::Send, senders),
        rank < w.setup.nrank,
        0 <= part < w.setup.reducers,
        ({
            let v = protocol::after_run(w, moves);
            let i = links::thread_of(senders, rank);
            v.setup.worker(v.send, i).action(v.send.workers[i]) matches TransferAction::Post { job: j, link } && j == job
                && link == links::link_of(senders, rank)
        }),
    ensures
        ({
            let m = links::complete(
                w,
                moves,
                Direction::Send,
                links::thread_of(senders, rank),
                links::link_of(senders, rank),
            );
            is_sum_number(env, w.setup.nrank, m, part, buffers.last().send_part(job, part))
        }),
{
    let v = protocol::after_run(w, moves);
    let i = links::thread_of(senders, rank);
    links::law_one_link(w, Direction::Send, senders, rank);
    protocol::law_always_holds(w, moves);
    protocol::law_same_setup(w, moves);
    assert(v.setup.worker(v.send, i).reached(v.send.workers[i]));
    links::lemma_in_step(w, moves, Direction::Send, i, links::link_of(senders, rank));
    lemma_sent(w, moves, env, buffers, i, job, part);
}

/// While a send to a rank is under way and `m` sends to it are complete, every part of the buffer
/// that is sent is the sum of contribution number `m` of all ranks.
pub proof fn law_answer<R, T>(
    w: World<R>,
    moves: Seq<Move<R>>,
    env: Surroundings<T>,
    buffers: Seq<Buffers<T>>,
    senders: Seq<Seq<usize>>,
    rank: usize,
    job: usize,
    part: int,
)
    requires
        protocol::fresh(w),
        protocol::possible_run(w, moves),
        history(w, moves, env, buffers),
        links::serves(w, Direction::Recv, env.receivers),
        links::serves(w, Direction::Send, senders),
        rank < w.setup.nrank,
        0 <= part < w.setup.reducers,
        ({
            let s = protocol::after_run(w, moves).send.workers[links::thread_of(senders, rank)];
            protocol::transferring(s.phase, job) && s.reqs[links::link_of(senders, rank)] is Some
        }),
    ensures
        ({
            let m = links::complete(
                w,
                moves,
                Direction::Send,
                links::thread_of(senders, rank),
                links::link_of(senders, rank),
            );
            is_sum_number(env, w.setup.nrank, m, part, buffers.last().send_part(job, part))
        }),
{
    links::law_one_link(w, Direction::Send, senders, rank);
    links::law_sum_on_link(w, moves, links::thread_of(senders, rank), links::link_of(senders, rank), job);
    lemma_sent(w, moves, env, buffers, links::thread_of(senders, rank), job, part);
}

/// Where the parts are summed as `reduce` sums buffers that are aligned to a group, every number
/// in a whole group of the buffer that is sent as answer number `m` is the sum of the numbers at
/// its place in contribution number `m` of all ranks, from the first rank to the last.
pub proof fn law_answer_numbers<R, T, F: Fn(T, T) -> T>(
    w: World<R>,
    moves: Seq<Move<R>>,
    env: Surroundings<T>,
    plus: F,
    buffers: Seq<Buffers<T>>,
    senders: Seq<Seq<usize>>,
    rank: usize,
    job: usize,
    part: int,
)
    requires
        protocol::fresh(w),
        protocol::possible_run(w, moves),
        history(w, moves, env, buffers),
        links::serves(w, Direction::Recv, env.receivers),
        links::serves(w, Direction::Send, senders),
        forall|bufs: Seq<Seq<T>>, before: Seq<T>, after: Seq<T>| #[trigger] (env.sums_to)(bufs, before, after) ==>
            reduce::summed(plus, bufs, before, after),
        rank < w.setup.nrank,
        0 <= part < w.setup.reducers,
        ({
            let s = protocol::after_run(w, moves).send.workers[links::thread_of(senders, rank)];
            protocol::transferring(s.phase, job) && s.reqs[links::link_of(senders, rank)] is Some
        }),
    ensures
        ({
            let m = links::complete(
                w,
                moves,
                Direction::Send,
                links::thread_of(senders, rank),
                links::link_of(senders, rank),
            );
            let sum = buffers.last().send_part(job, part);
            forall|j: int| 0 <= j < reduce::grouped(sum.len() as int) ==> reduce::is_sum(
                plus,
                reduce::terms_at(env.contributions(w.setup.nrank, m, part), j),
                #[trigger] sum[j],
            )
        }),
{
    let m = links::complete(
        w,
        moves,
        Direction::Send,
        links::thread_of(senders, rank),
        links::link_of(senders, rank),
    );
    let sum = buffers.last().send_part(job, part);
    let given = env.contributions(w.setup.nrank, m, part);
    law_answer(w, moves, env, buffers, senders, rank, job, part);
    let before = choose|before: Seq<T>| #[trigger] (env.sums_to)(given, before, sum);
    assert(reduce::summed(plus, given, before, sum));
}

} // verus!
