//! The loop of a reduce thread.
//!
//! The thread goes through the jobs in a circle. For each it waits until every send thread and
//! every receive thread has raised its bit in the thread's two flags of the job, sums up its
//! part of the buffers, and takes all bits down again, first those of the receive threads. While
//! it waits, it stops when the number of connected ranks is no longer the full one.

use vstd::prelude::*;
use crate::ready::expected;

verus! {

/// What a reduce thread is set up with.
#[derive(Clone, Copy, Debug)]
pub struct ReduceSetup {
    /// Number of ranks that take part.
    pub nrank: usize,
    /// Number of jobs.
    pub jobs: usize,
    /// Number of send threads.
    pub send_threads: usize,
    /// Number of receive threads.
    pub recv_threads: usize,
}

/// Where a reduce thread stands.
#[derive(Clone, Copy, Debug)]
pub enum ReducePhase {
    /// Waiting until all ranks are connected.
    Connecting,
    /// Resting before the number of ranks is read again.
    Napping,
    /// About to allocate the working memory of each job.
    Allocate,
    /// About to take up a job.
    Job { job: usize },
    /// Reading the flag of the send threads.
    LoadSend { job: usize },
    /// Reading the flag of the receive threads; `send` is the word of the send threads.
    LoadRecv { job: usize, send: usize },
    /// Some thread is not through: looking whether all ranks are still there.
    Rank { job: usize },
    /// Summing up.
    Reduce { job: usize },
    /// Taking down the bits of the receive threads.
    ClearRecv { job: usize },
    /// Taking down the bits of the send threads.
    ClearSend { job: usize },
    /// The loop has ended.
    Stopped,
}

/// What a reduce thread does next.
#[derive(Clone, Copy, Debug)]
pub enum ReduceAction {
    /// Nothing but to go on.
    Continue,
    /// Read the number of connected ranks.
    LoadRank,
    /// Rest for a while.
    Nap,
    /// Allocate the working memory of each job.
    Allocate,
    /// Read the flag of the send threads.
    LoadSend { job: usize },
    /// Read the flag of the receive threads.
    LoadRecv { job: usize },
    /// Sum up the thread's part of the buffers of a job.
    Reduce { job: usize },
    /// Store zero in the flag of the receive threads.
    ClearRecv { job: usize },
    /// Store zero in the flag of the send threads.
    ClearSend { job: usize },
    /// End the thread.
    Exit,
}

/// What came of an action.
#[derive(Clone, Copy, Debug)]
pub enum ReduceEvent {
    /// The action is through; it has no outcome to tell.
    Continue,
    /// The number of connected ranks.
    Rank(usize),
    /// The word read from a flag.
    Word(usize),
}

impl ReduceSetup {
    /// Every send and every receive thread has a bit in a flag, and the word that the thread
    /// waits for can be written.
    pub open spec fn valid(self) -> bool {
        self.send_threads < usize::BITS && self.recv_threads < usize::BITS
    }

    /// The job after `job`, in a circle.
    pub open spec fn job_after(self, job: usize) -> usize {
        if job + 1 < self.jobs { (job + 1) as usize } else { 0 }
    }

    /// Both words are complete: every transfer thread is through with the job.
    pub open spec fn complete(self, send: usize, recv: usize) -> bool {
        &&& send == crate::ready::all_raised(self.send_threads)
        &&& recv == crate::ready::all_raised(self.recv_threads)
    }

    /// What a thread in phase `p` does next.
    pub open spec fn action(self, p: ReducePhase) -> ReduceAction {
        match p {
            ReducePhase::Connecting => ReduceAction::LoadRank,
            ReducePhase::Napping => ReduceAction::Nap,
            ReducePhase::Allocate => ReduceAction::Allocate,
            ReducePhase::Job { job } => ReduceAction::Continue,
            ReducePhase::LoadSend { job } => ReduceAction::LoadSend { job },
            ReducePhase::LoadRecv { job, send } => ReduceAction::LoadRecv { job },
            ReducePhase::Rank { job } => ReduceAction::LoadRank,
            ReducePhase::Reduce { job } => ReduceAction::Reduce { job },
            ReducePhase::ClearRecv { job } => ReduceAction::ClearRecv { job },
            ReducePhase::ClearSend { job } => ReduceAction::ClearSend { job },
            ReducePhase::Stopped => ReduceAction::Exit,
        }
    }

    /// The phase that follows `p` when `e` came of its action. An event that does not answer the
    /// action changes nothing.
    pub open spec fn next(self, p: ReducePhase, e: ReduceEvent) -> ReducePhase {
        match (p, e) {
            (ReducePhase::Connecting, ReduceEvent::Rank(rank)) =>
                if rank == self.nrank { ReducePhase::Allocate } else { ReducePhase::Napping },
            (ReducePhase::Napping, ReduceEvent::Continue) => ReducePhase::Connecting,
            (ReducePhase::Allocate, ReduceEvent::Continue) => ReducePhase::Job { job: 0 },
            (ReducePhase::Job { job }, ReduceEvent::Continue) =>
                if job < self.jobs { ReducePhase::LoadSend { job } } else { p },
            (ReducePhase::LoadSend { job }, ReduceEvent::Word(word)) => ReducePhase::LoadRecv { job, send: word },
            (ReducePhase::LoadRecv { job, send }, ReduceEvent::Word(word)) =>
                if self.complete(send, word) { ReducePhase::Reduce { job } } else { ReducePhase::Rank { job } },
            (ReducePhase::Rank { job }, ReduceEvent::Rank(rank)) =>
                if rank != self.nrank { ReducePhase::Stopped } else { ReducePhase::LoadSend { job } },
            (ReducePhase::Reduce { job }, ReduceEvent::Continue) => ReducePhase::ClearRecv { job },
            (ReducePhase::ClearRecv { job }, ReduceEvent::Continue) => ReducePhase::ClearSend { job },
            (ReducePhase::ClearSend { job }, ReduceEvent::Continue) =>
                ReducePhase::Job { job: self.job_after(job) },
            _ => p,
        }
    }

    /// What holds in every phase that a thread of this setup reaches.
    pub open spec fn reached(self, p: ReducePhase) -> bool {
        match p {
            ReducePhase::Job { job } => job < self.jobs || (job == 0 && self.jobs == 0),
            ReducePhase::LoadSend { job } => job < self.jobs,
            ReducePhase::LoadRecv { job, send } => job < self.jobs,
            ReducePhase::Rank { job } => job < self.jobs,
            ReducePhase::Reduce { job } => job < self.jobs,
            ReducePhase::ClearRecv { job } => job < self.jobs,
            ReducePhase::ClearSend { job } => job < self.jobs,
            _ => true,
        }
    }
}

/// The loop of a reduce thread.
pub struct ReduceLoop {
    setup: ReduceSetup,
    phase: ReducePhase,
}

impl View for ReduceLoop {
    type V = ReducePhase;

    closed spec fn view(&self) -> ReducePhase {
        self.phase
    }
}

impl ReduceLoop {
    /// What the thread is set up with.
    pub closed spec fn setup(&self) -> ReduceSetup {
        self.setup
    }

    /// The setup is valid and the phase one that the thread reaches.
    pub open spec fn wf(&self) -> bool {
        self.setup().valid() && self.setup().reached(self@)
    }

    /// The loop at its start.
    pub fn new(setup: ReduceSetup) -> (this: Self)
        requires
            setup.valid(),
        ensures
            this.wf(),
            this.setup() == setup,
            this@ == ReducePhase::Connecting,
            this@ == reduce_after(setup, Seq::empty()),
    {
        ReduceLoop { setup, phase: ReducePhase::Connecting }
    }

    /// What the thread does next.
    pub fn action(&self) -> (a: ReduceAction)
        ensures
            a == self.setup().action(self@),
    {
        match self.phase {
            ReducePhase::Connecting => ReduceAction::LoadRank,
            ReducePhase::Napping => ReduceAction::Nap,
            ReducePhase::Allocate => ReduceAction::Allocate,
            ReducePhase::Job { .. } => ReduceAction::Continue,
            ReducePhase::LoadSend { job } => ReduceAction::LoadSend { job },
            ReducePhase::LoadRecv { job, .. } => ReduceAction::LoadRecv { job },
            ReducePhase::Rank { .. } => ReduceAction::LoadRank,
            ReducePhase::Reduce { job } => ReduceAction::Reduce { job },
            ReducePhase::ClearRecv { job } => ReduceAction::ClearRecv { job },
            ReducePhase::ClearSend { job } => ReduceAction::ClearSend { job },
            ReducePhase::Stopped => ReduceAction::Exit,
        }
    }

    /// Takes note of what came of the action.
    pub fn step(&mut self, event: ReduceEvent)
        requires
            old(self).wf(),
        ensures
            final(self).wf(),
            final(self).setup() == old(self).setup(),
            final(self)@ == old(self).setup().next(old(self)@, event),
    {
        let setup = self.setup;
        match (self.phase, event) {
            (ReducePhase::Connecting, ReduceEvent::Rank(rank)) => {
                self.phase = if rank == setup.nrank { ReducePhase::Allocate } else { ReducePhase::Napping };
            },
            (ReducePhase::Napping, ReduceEvent::Continue) => {
                self.phase = ReducePhase::Connecting;
            },
            (ReducePhase::Allocate, ReduceEvent::Continue) => {
                self.phase = ReducePhase::Job { job: 0 };
            },
            (ReducePhase::Job { job }, ReduceEvent::Continue) => {
                if job < setup.jobs {
                    self.phase = ReducePhase::LoadSend { job };
                }
            },
            (ReducePhase::LoadSend { job }, ReduceEvent::Word(word)) => {
                self.phase = ReducePhase::LoadRecv { job, send: word };
            },
            (ReducePhase::LoadRecv { job, send }, ReduceEvent::Word(word)) => {
                self.phase = if send == expected(setup.send_threads) && word == expected(setup.recv_threads) {
                    ReducePhase::Reduce { job }
                } else {
                    ReducePhase::Rank { job }
                };
            },
            (ReducePhase::Rank { job }, ReduceEvent::Rank(rank)) => {
                self.phase = if rank != setup.nrank { ReducePhase::Stopped } else { ReducePhase::LoadSend { job } };
            },
            (ReducePhase::Reduce { job }, ReduceEvent::Continue) => {
                self.phase = ReducePhase::ClearRecv { job };
            },
            (ReducePhase::ClearRecv { job }, ReduceEvent::Continue) => {
                self.phase = ReducePhase::ClearSend { job };
            },
            (ReducePhase::ClearSend { job }, ReduceEvent::Continue) => {
                self.phase = if job + 1 < setup.jobs {
                    ReducePhase::Job { job: job + 1 }
                } else {
                    ReducePhase::Job { job: 0 }
                };
            },
            _ => {},
        }
    }
}

/// A thread starts to sum up a job only when it has just read that every transfer thread is
/// through with it.
pub proof fn law_sums_when_complete(setup: ReduceSetup, p: ReducePhase, e: ReduceEvent, job: usize)
    requires
        setup.next(p, e) == (ReducePhase::Reduce { job }),
        p != (ReducePhase::Reduce { job }),
    ensures
        p matches ReducePhase::LoadRecv { job: j, send } && e matches ReduceEvent::Word(recv) && j == job
            && setup.complete(send, recv),
{
}

/// A thread that has summed up a job goes on to the next one, in a circle, after it has taken
/// down its flags.
pub proof fn law_next_job(setup: ReduceSetup, job: usize)
    requires
        job < setup.jobs,
    ensures
        ({
            let p1 = setup.next(ReducePhase::Reduce { job }, ReduceEvent::Continue);
            let p2 = setup.next(p1, ReduceEvent::Continue);
            let p3 = setup.next(p2, ReduceEvent::Continue);
            let p4 = setup.next(p3, ReduceEvent::Continue);
            &&& setup.action(p1) == (ReduceAction::ClearRecv { job })
            &&& setup.action(p2) == (ReduceAction::ClearSend { job })
            &&& setup.action(p4) == (ReduceAction::LoadSend { job: ((job + 1) % setup.jobs as int) as usize })
        }),
{
    if job + 1 < setup.jobs {
        vstd::arithmetic::div_mod::lemma_small_mod((job + 1) as nat, setup.jobs as nat);
    } else {
        vstd::arithmetic::div_mod::lemma_mod_self_0(setup.jobs as int);
    }
}

/// A thread that waits and finds a rank missing stops, and does nothing any more.
pub proof fn law_reduce_stops_without_rank(setup: ReduceSetup, job: usize, rank: usize, e: ReduceEvent)
    requires
        rank != setup.nrank,
    ensures
        ({
            let p = setup.next(ReducePhase::Rank { job }, ReduceEvent::Rank(rank));
            setup.action(p) is Exit && setup.next(p, e) == p
        }),
{
}

/// The phase after `events` have come of the actions of a thread, one after the other, from its
/// start on.
pub open spec fn reduce_after(setup: ReduceSetup, events: Seq<ReduceEvent>) -> ReducePhase
    decreases events.len(),
{
    if events.len() == 0 {
        ReducePhase::Connecting
    } else {
        setup.next(reduce_after(setup, events.drop_last()), events.last())
    }
}

/// The event is of the kind that comes of the action.
pub open spec fn answers(a: ReduceAction, e: ReduceEvent) -> bool {
    match a {
        ReduceAction::LoadRank => e is Rank,
        ReduceAction::LoadSend { .. } => e is Word,
        ReduceAction::LoadRecv { .. } => e is Word,
        ReduceAction::Exit => false,
        _ => e is Continue,
    }
}

/// What can be seen of a thread from outside: what it was answered, and how often it did what.
pub struct ReduceHistory {
    /// The number of ranks was read and was the full one.
    pub met: bool,
    /// After that it was read and was another.
    pub lost: bool,
    /// The last number of ranks that was read was not the full one, and no rest followed.
    pub short: bool,
    /// How often memory was allocated.
    pub allocated: nat,
    /// The words that were read since the last sum or look at the ranks.
    pub send_word: Option<usize>,
    pub recv_word: Option<usize>,
    /// How many sums were formed.
    pub reduced: nat,
    /// How often a flag of the receive threads was taken down.
    pub recv_cleared: nat,
    /// How often a flag of the send threads was taken down.
    pub send_cleared: nat,
}

impl ReduceHistory {
    /// The history in which event `e` came of action `a` next.
    pub open spec fn with(self, nrank: usize, a: ReduceAction, e: ReduceEvent) -> ReduceHistory {
        match (a, e) {
            (ReduceAction::LoadRank, ReduceEvent::Rank(rank)) => ReduceHistory {
                met: self.met || rank == nrank,
                lost: self.lost || (self.met && rank != nrank),
                short: rank != nrank,
                send_word: None,
                recv_word: None,
                ..self
            },
            (ReduceAction::Nap, ReduceEvent::Continue) => ReduceHistory { short: false, ..self },
            (ReduceAction::Allocate, ReduceEvent::Continue) =>
                ReduceHistory { allocated: self.allocated + 1, ..self },
            (ReduceAction::LoadSend { .. }, ReduceEvent::Word(word)) =>
                ReduceHistory { send_word: Some(word), recv_word: None, ..self },
            (ReduceAction::LoadRecv { .. }, ReduceEvent::Word(word)) =>
                ReduceHistory { recv_word: Some(word), ..self },
            (ReduceAction::Reduce { .. }, ReduceEvent::Continue) =>
                ReduceHistory { reduced: self.reduced + 1, send_word: None, recv_word: None, ..self },
            (ReduceAction::ClearRecv { .. }, ReduceEvent::Continue) =>
                ReduceHistory { recv_cleared: self.recv_cleared + 1, ..self },
            (ReduceAction::ClearSend { .. }, ReduceEvent::Continue) =>
                ReduceHistory { send_cleared: self.send_cleared + 1, ..self },
            _ => self,
        }
    }
}

/// What was seen of a thread while `events` came of its actions.
pub open spec fn reduce_history(setup: ReduceSetup, events: Seq<ReduceEvent>) -> ReduceHistory
    decreases events.len(),
{
    if events.len() == 0 {
        ReduceHistory {
            met: false,
            lost: false,
            short: false,
            allocated: 0,
            send_word: None,
            recv_word: None,
            reduced: 0,
            recv_cleared: 0,
            send_cleared: 0,
        }
    } else {
        let before = events.drop_last();
        reduce_history(setup, before).with(
            setup.nrank,
            setup.action(reduce_after(setup, before)),
            events.last(),
        )
    }
}

/// A word has the bits of exactly the threads `0..n`.
pub open spec fn has_all(word: usize, n: usize) -> bool {
    forall|i: usize| i < usize::BITS ==> (#[trigger] crate::ready::raised(word, i) <==> i < n)
}

proof fn lemma_has_all(word: usize, n: usize)
    requires
        n < usize::BITS,
    ensures
        has_all(word, n) <==> word == crate::ready::all_raised(n),
{
    crate::ready::law_all_raised(n);
    if has_all(word, n) {
        assert forall|i: usize| i < n implies #[trigger] crate::ready::raised(word, i) by {}
        assert(crate::ready::only_below(word, n));
        crate::ready::law_complete(word, n);
    }
}

/// How the phase of a thread and its history belong together.
spec fn reduce_tied(setup: ReduceSetup, p: ReducePhase, h: ReduceHistory) -> bool {
    let jobs = setup.jobs as int;
    let running = h.met && !h.lost && h.allocated == 1;
    let idle = running && h.recv_cleared == h.reduced && h.send_cleared == h.reduced;
    let unread = h.send_word is None && h.recv_word is None;
    let this = h.reduced as int % jobs;
    let last = (h.reduced - 1) % jobs;
    &&& h.allocated == 0 ==> unread && h.reduced == 0 && h.recv_cleared == 0 && h.send_cleared == 0
    &&& h.allocated <= 1
    &&& match p {
        ReducePhase::Connecting => !h.met && !h.lost && !h.short && h.allocated == 0,
        ReducePhase::Napping => !h.met && !h.lost && h.short && h.allocated == 0,
        ReducePhase::Allocate => h.met && !h.lost && h.allocated == 0,
        ReducePhase::Job { job } => idle && unread && (jobs > 0 ==> job == this),
        ReducePhase::LoadSend { job } => idle && unread && job == this,
        ReducePhase::LoadRecv { job, send } =>
            idle && job == this && h.send_word == Some(send) && h.recv_word is None,
        ReducePhase::Rank { job } => idle && job == this && h.send_word is Some && h.recv_word is Some
            && !setup.complete(h.send_word->0, h.recv_word->0),
        ReducePhase::Reduce { job } => idle && job == this && h.send_word is Some && h.recv_word is Some
            && setup.complete(h.send_word->0, h.recv_word->0),
        ReducePhase::ClearRecv { job } => running && unread && h.reduced > 0 && job == last
            && h.recv_cleared == h.reduced - 1 && h.send_cleared == h.reduced - 1,
        ReducePhase::ClearSend { job } => running && unread && h.reduced > 0 && job == last
            && h.recv_cleared == h.reduced && h.send_cleared == h.reduced - 1,
        ReducePhase::Stopped => h.lost && h.met,
    }
}

proof fn lemma_reduce_tied(setup: ReduceSetup, events: Seq<ReduceEvent>)
    ensures
        setup.reached(reduce_after(setup, events)),
        reduce_tied(setup, reduce_after(setup, events), reduce_history(setup, events)),
    decreases events.len(),
{
    if events.len() > 0 {
        let before = events.drop_last();
        let h = reduce_history(setup, before);
        lemma_reduce_tied(setup, before);
        if setup.jobs > 0 {
            vstd::arithmetic::div_mod::lemma_small_mod(0, setup.jobs as nat);
            if h.reduced > 0 {
                crate::rounds::lemma_next_round((h.reduced - 1) as nat, setup.jobs as int);
            }
        }
    } else if setup.jobs > 0 {
        vstd::arithmetic::div_mod::lemma_small_mod(0, setup.jobs as nat);
    }
}

/// A thread starts only when it has read that all ranks are connected, and until then it reads
/// their number and rests in turn. It ends exactly when it has read that all ranks are connected
/// and later that they are not.
pub proof fn law_reduce_starts_and_ends(setup: ReduceSetup, events: Seq<ReduceEvent>)
    ensures
        ({
            let h = reduce_history(setup, events);
            let a = setup.action(reduce_after(setup, events));
            &&& a is Exit <==> h.lost
            &&& h.lost ==> h.met
            &&& !h.met ==> a == if h.short { ReduceAction::Nap } else { ReduceAction::LoadRank }
            &&& h.met ==> !(a is Nap)
            &&& h.allocated <= 1
            &&& a is Allocate <==> h.met && !h.lost && h.allocated == 0
            &&& setup.jobs == 0 && h.allocated == 1 && !h.lost ==> a is Continue
        }),
{
    lemma_reduce_tied(setup, events);
}

/// A thread that has started takes the jobs up in turn: sum number `n` is that of job `n` modulo
/// the number of jobs. It sums up a job exactly when the words that it has read last of the two
/// flags of that job have the bits of all threads, and looks at the ranks when they have not. Each
/// sum is followed by taking down the flag of the receive threads and then that of the send
/// threads, both of the same job.
pub proof fn law_reduce_jobs_in_turn(setup: ReduceSetup, events: Seq<ReduceEvent>)
    requires
        setup.valid(),
        setup.jobs > 0,
        reduce_history(setup, events).allocated == 1,
        !reduce_history(setup, events).lost,
    ensures
        ({
            let h = reduce_history(setup, events);
            let p = reduce_after(setup, events);
            let a = setup.action(p);
            let jobs = setup.jobs as int;
            let job = (h.reduced as int % jobs) as usize;
            let last = ((h.reduced - 1) % jobs) as usize;
            &&& job < jobs
            &&& h.send_cleared <= h.recv_cleared <= h.reduced <= h.send_cleared + 1
            &&& if h.recv_cleared < h.reduced {
                a == (ReduceAction::ClearRecv { job: last })
            } else if h.send_cleared < h.reduced {
                a == (ReduceAction::ClearSend { job: last })
            } else if h.send_word is None {
                ||| a == (ReduceAction::LoadSend { job })
                ||| a is Continue && setup.action(setup.next(p, ReduceEvent::Continue)) == (ReduceAction::LoadSend {
                    job,
                })
            } else if h.recv_word is None {
                a == (ReduceAction::LoadRecv { job })
            } else if has_all(h.send_word->0, setup.send_threads) && has_all(h.recv_word->0, setup.recv_threads) {
                a == (ReduceAction::Reduce { job })
            } else {
                a is LoadRank
            }
        }),
{
    let h = reduce_history(setup, events);
    lemma_reduce_tied(setup, events);
    vstd::arithmetic::div_mod::lemma_mod_bound(h.reduced as int, setup.jobs as int);
    if h.send_word is Some && h.recv_word is Some {
        lemma_has_all(h.send_word->0, setup.send_threads);
        lemma_has_all(h.recv_word->0, setup.recv_threads);
    }
}

/// An event that is not of the kind that comes of the action changes nothing.
pub proof fn law_reduce_unanswered(setup: ReduceSetup, p: ReducePhase, e: ReduceEvent)
    requires
        !answers(setup.action(p), e),
    ensures
        setup.next(p, e) == p,
{
}

/// The thread is told to sum up a job exactly in the phase in which it sums up that job.
pub proof fn law_reduce_action(setup: ReduceSetup, p: ReducePhase, job: usize)
    ensures
        setup.action(p) == (ReduceAction::Reduce { job }) <==> p == (ReducePhase::Reduce { job }),
{
}

} // verus!
