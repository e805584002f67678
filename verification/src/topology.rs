//! Which thread serves which rank.
//!
//! Ranks are numbered in the order in which they connect, and dealt out to the transfer threads
//! of each direction in turn.

use vstd::prelude::*;
use vstd::arithmetic::div_mod;

verus! {

/// The ranks below `nrank` that fall to thread `thread` of `threads`, in ascending order.
pub open spec fn dealt(nrank: nat, threads: nat, thread: nat) -> Seq<usize>
    decreases nrank,
{
    if nrank == 0 {
        Seq::empty()
    } else {
        let before = dealt((nrank - 1) as nat, threads, thread);
        if (nrank - 1) % threads as int == thread { before.push((nrank - 1) as usize) } else { before }
    }
}

/// The thread that serves a rank.
pub fn thread_of_rank(rank: usize, threads: usize) -> (thread: usize)
    requires
        threads > 0,
    ensures
        thread == rank % threads,
        thread < threads,
        forall|nrank: nat| rank < nrank <= usize::MAX ==>
            #[trigger] dealt(nrank, threads as nat, thread as nat).contains(rank),
{
    proof {
        assert forall|nrank: nat| rank < nrank <= usize::MAX implies
            #[trigger] dealt(nrank, threads as nat, (rank % threads) as nat).contains(rank) by {
            law_dealt(nrank, threads as nat, (rank % threads) as nat, rank);
        }
    }
    rank % threads
}

/// The ranks that a thread serves.
pub fn ranks_of_thread(nrank: usize, threads: usize, thread: usize) -> (ranks: Vec<usize>)
    requires
        threads > 0,
    ensures
        ranks@ == dealt(nrank as nat, threads as nat, thread as nat),
{
    let mut ranks: Vec<usize> = Vec::new();
    for rank in 0..nrank
        invariant
            threads > 0,
            ranks@ == dealt(rank as nat, threads as nat, thread as nat),
    {
        if rank % threads == thread {
            ranks.push(rank);
        }
    }
    ranks
}

/// How many connections a thread waits for before it starts.
pub fn connections_of_thread(nrank: usize, threads: usize) -> (n: usize)
    requires
        threads > 0,
    ensures
        n == nrank / threads,
        n * threads <= nrank < (n + 1) * threads,
{
    proof {
        let n = nrank as int / threads as int;
        div_mod::lemma_fundamental_div_mod(nrank as int, threads as int);
        div_mod::lemma_mod_bound(nrank as int, threads as int);
        assert(n * threads == threads * n) by (nonlinear_arith);
        assert((n + 1) * threads == n * threads + threads) by (nonlinear_arith);
    }
    nrank / threads
}

/// The place of the connection of a rank among numbered connections: the last one with its
/// number.
pub fn find_connection<C>(numbered: &Vec<(usize, C)>, rank: usize) -> (place: Option<usize>)
    ensures
        match place {
            Some(p) => {
                &&& p < numbered@.len()
                &&& numbered@[p as int].0 == rank
                &&& forall|q: int| p < q < numbered@.len() ==> (#[trigger] numbered@[q]).0 != rank
            },
            None => forall|q: int| 0 <= q < numbered@.len() ==> (#[trigger] numbered@[q]).0 != rank,
        },
{
    let mut p: usize = numbered.len();
    while p > 0
        invariant
            p <= numbered@.len(),
            forall|q: int| p <= q < numbered@.len() ==> (#[trigger] numbered@[q]).0 != rank,
        decreases p,
    {
        p -= 1;
        if numbered[p].0 == rank {
            return Some(p);
        }
    }
    None
}

/// A thread serves exactly the ranks that fall to it.
pub proof fn law_dealt(nrank: nat, threads: nat, thread: nat, rank: usize)
    requires
        threads > 0,
        nrank <= usize::MAX,
    ensures
        dealt(nrank, threads, thread).contains(rank) <==> rank < nrank && rank as int % threads as int == thread,
    decreases nrank,
{
    if nrank > 0 {
        let n = (nrank - 1) as nat;
        let before = dealt(n, threads, thread);
        law_dealt(n, threads, thread, rank);
        if n as int % threads as int == thread {
            let last = n as usize;
            if before.contains(rank) {
                let i = choose|i: int| 0 <= i < before.len() && before[i] == rank;
                assert(before.push(last)[i] == rank);
            }
            assert(before.push(last)[before.len() as int] == last);
            if before.push(last).contains(rank) && rank != last {
                let i = choose|i: int| 0 <= i < before.push(last).len() && before.push(last)[i] == rank;
                assert(before[i] == rank);
            }
        }
    }
}

/// The ranks of a thread are in ascending order, so that none occurs twice.
pub proof fn law_dealt_ascending(nrank: nat, threads: nat, thread: nat)
    requires
        threads > 0,
        nrank <= usize::MAX,
    ensures
        forall|i: int, j: int| 0 <= i < j < dealt(nrank, threads, thread).len() ==>
            #[trigger] dealt(nrank, threads, thread)[i] < #[trigger] dealt(nrank, threads, thread)[j],
        forall|i: int| 0 <= i < dealt(nrank, threads, thread).len() ==>
            #[trigger] dealt(nrank, threads, thread)[i] < nrank,
    decreases nrank,
{
    if nrank > 0 {
        let before = dealt((nrank - 1) as nat, threads, thread);
        let ranks = dealt(nrank, threads, thread);
        law_dealt_ascending((nrank - 1) as nat, threads, thread);
        assert forall|i: int| 0 <= i < ranks.len() implies #[trigger] ranks[i] < nrank by {
            if i < before.len() {
                assert(ranks[i] == before[i]);
            }
        }
        assert forall|i: int, j: int| 0 <= i < j < ranks.len() implies
            #[trigger] ranks[i] < #[trigger] ranks[j] by {
            assert(ranks[i] == before[i]);
            if j < before.len() {
                assert(ranks[j] == before[j]);
            }
        }
    }
}

/// Every rank is served by one thread and one only: the one to which its connection is handed.
pub proof fn law_one_server(nrank: nat, threads: nat, rank: usize, thread: nat)
    requires
        threads > 0,
        nrank <= usize::MAX,
        rank < nrank,
    ensures
        dealt(nrank, threads, thread).contains(rank) <==> thread == rank as int % threads as int,
{
    law_dealt(nrank, threads, thread, rank);
}

/// How many ranks fall to a thread: an equal share, and one of those left over for each of the
/// first threads. When the threads divide the ranks evenly, that is the number of connections
/// that the thread waits for.
pub proof fn law_share(nrank: nat, threads: nat, thread: nat)
    requires
        thread < threads,
    ensures
        dealt(nrank, threads, thread).len()
            == nrank as int / threads as int + (if thread < nrank as int % threads as int { 1int } else { 0 }),
        nrank as int % threads as int == 0 ==>
            dealt(nrank, threads, thread).len() == nrank as int / threads as int,
    decreases nrank,
{
    let t = threads as int;
    if nrank == 0 {
        div_mod::lemma_div_basics(t);
        div_mod::lemma_small_mod(0, threads);
    } else {
        let n = (nrank - 1) as nat;
        law_share(n, threads, thread);
        div_mod::lemma_fundamental_div_mod(n as int, t);
        div_mod::lemma_mod_bound(n as int, t);
        let q = n as int / t;
        let r = n as int % t;
        if r == t - 1 {
            assert(nrank == t * (q + 1) + 0) by (nonlinear_arith)
                requires
                    nrank == n + 1,
                    n == t * q + r,
                    r == t - 1,
            ;
            div_mod::lemma_fundamental_div_mod_converse(nrank as int, t, q + 1, 0);
        } else {
            div_mod::lemma_fundamental_div_mod_converse(nrank as int, t, q, r + 1);
        }
    }
}

} // verus!
