//! The loop of a transfer thread: one that sends the sums of each job to its ranks, or one that
//! receives the contributions of its ranks for each job.
//!
//! Both directions go through the same rounds. A round takes up one job: the thread waits until
//! its bit is down in the flag of every reduce thread, asks the network for one request per
//! link, waits until each of them is complete, and raises its bit in every flag. Whenever the
//! thread waits and the number of connected ranks is no longer the full one, it stops.

use vstd::prelude::*;
use crate::matrix::vec_of_none;
use crate::ready::{is_raised, thread_bit};

verus! {

/// Which way the data of a transfer thread goes.
#[derive(Clone, Copy, Debug, PartialEq, Eq, Structural)]
pub enum Direction {
    Send,
    Recv,
}

/// What a transfer thread is set up with.
#[derive(Clone, Copy, Debug)]
pub struct TransferSetup {
    pub direction: Direction,
    /// Index of the thread among those of its direction, and of its bit in the flags.
    pub thread: usize,
    /// Number of ranks that take part.
    pub nrank: usize,
    /// Number of jobs.
    pub jobs: usize,
    /// Number of flags per job: one for each reduce thread.
    pub flags: usize,
    /// Number of connections that the thread serves.
    pub links: usize,
}

/// Where a transfer thread stands.
#[derive(Clone, Copy, Debug)]
pub enum TransferPhase {
    /// Waiting until all ranks are connected.
    Connecting,
    /// Resting before the number of ranks is read again.
    Napping,
    /// About to take up a job.
    Round { job: usize },
    /// Waiting for the thread's bit to go down in flag number `flag`.
    Flag { job: usize, flag: usize },
    /// The bit was still up: looking whether all ranks are still there.
    FlagRank { job: usize, flag: usize },
    /// About to go through the links for requests, if all ranks are still there.
    PostRank { job: usize },
    /// Asking for a request on each link that has none; `done` until one was refused.
    Post { job: usize, link: usize, done: bool },
    /// About to go through the links for completions, if all ranks are still there.
    TestRank { job: usize },
    /// Testing each request that is open; `done` until one was found incomplete.
    Test { job: usize, link: usize, done: bool },
    /// Raising the thread's bit in flag number `flag`.
    Mark { job: usize, flag: usize },
    /// The loop has ended.
    Stopped,
}

/// What a transfer thread does next.
#[derive(Clone, Copy, Debug)]
pub enum TransferAction {
    /// Nothing but to go on.
    Continue,
    /// Read the number of connected ranks.
    LoadRank,
    /// Rest for a while.
    Nap,
    /// Read a flag of a job.
    LoadFlag { job: usize, flag: usize },
    /// Ask the network for a request that transfers the buffer of a job on a link.
    Post { job: usize, link: usize },
    /// Test whether the request of a link is complete.
    Test { job: usize, link: usize },
    /// Add `bit` to a flag of a job.
    MarkFlag { job: usize, flag: usize, bit: usize },
    /// End the thread.
    Exit,
}

/// What came of an action.
pub enum TransferEvent<R> {
    /// The action is through; it has no outcome to tell.
    Continue,
    /// The number of connected ranks.
    Rank(usize),
    /// The word read from a flag.
    Flag(usize),
    /// The request that the network granted, if it did.
    Posted(Option<R>),
    /// Whether the request is complete.
    Tested(bool),
}

/// The state of a transfer thread: its phase, and the open request of each link.
pub struct TransferState<R> {
    pub phase: TransferPhase,
    pub reqs: Seq<Option<R>>,
}

impl TransferSetup {
    /// The thread has a bit in a flag.
    pub open spec fn valid(self) -> bool {
        self.thread < usize::BITS
    }

    /// The state in which a transfer thread starts.
    pub open spec fn start<R>(self) -> TransferState<R> {
        TransferState {
            phase: TransferPhase::Connecting,
            reqs: Seq::new(self.links as nat, |i: int| None::<R>),
        }
    }

    /// The job after `job`, in a circle.
    pub open spec fn job_after(self, job: usize) -> usize {
        if job + 1 < self.jobs { (job + 1) as usize } else { 0 }
    }

    /// What a thread in state `s` does next.
    pub open spec fn action<R>(self, s: TransferState<R>) -> TransferAction {
        match s.phase {
            TransferPhase::Connecting => TransferAction::LoadRank,
            TransferPhase::Napping => TransferAction::Nap,
            TransferPhase::Round { job } => TransferAction::Continue,
            TransferPhase::Flag { job, flag } =>
                if flag < self.flags {
                    TransferAction::LoadFlag { job, flag }
                } else {
                    TransferAction::Continue
                },
            TransferPhase::FlagRank { job, flag } => TransferAction::LoadRank,
            TransferPhase::PostRank { job } => TransferAction::LoadRank,
            TransferPhase::Post { job, link, done } =>
                if link < self.links && s.reqs[link as int] is None {
                    TransferAction::Post { job, link }
                } else {
                    TransferAction::Continue
                },
            TransferPhase::TestRank { job } => TransferAction::LoadRank,
            TransferPhase::Test { job, link, done } =>
                if link < self.links && s.reqs[link as int] is Some {
                    TransferAction::Test { job, link }
                } else {
                    TransferAction::Continue
                },
            TransferPhase::Mark { job, flag } =>
                if flag < self.flags {
                    TransferAction::MarkFlag { job, flag, bit: 1usize << self.thread }
                } else {
                    TransferAction::Continue
                },
            TransferPhase::Stopped => TransferAction::Exit,
        }
    }

    /// The phase of a thread that has read the number of ranks in phase `p`.
    pub open spec fn after_rank(self, p: TransferPhase, rank: usize) -> TransferPhase {
        match p {
            TransferPhase::Connecting =>
                if rank == self.nrank { TransferPhase::Round { job: 0 } } else { TransferPhase::Napping },
            TransferPhase::FlagRank { job, flag } =>
                if rank != self.nrank { TransferPhase::Stopped } else { TransferPhase::Flag { job, flag } },
            TransferPhase::PostRank { job } =>
                if rank != self.nrank {
                    TransferPhase::Stopped
                } else {
                    TransferPhase::Post { job, link: 0, done: true }
                },
            TransferPhase::TestRank { job } =>
                if rank != self.nrank {
                    TransferPhase::Stopped
                } else {
                    TransferPhase::Test { job, link: 0, done: true }
                },
            _ => p,
        }
    }

    /// The state of a thread that goes on from `s` without an outcome.
    pub open spec fn after_continue<R>(self, s: TransferState<R>) -> TransferState<R> {
        match s.phase {
            TransferPhase::Napping => TransferState { phase: TransferPhase::Connecting, ..s },
            TransferPhase::Round { job } =>
                if job < self.jobs {
                    TransferState { phase: TransferPhase::Flag { job, flag: 0 }, ..s }
                } else if self.direction == Direction::Send {
                    TransferState { phase: TransferPhase::Stopped, ..s }
                } else {
                    s
                },
            TransferPhase::Flag { job, flag } if flag >= self.flags => TransferState {
                phase: TransferPhase::PostRank { job },
                reqs: Seq::new(self.links as nat, |i: int| None::<R>),
            },
            TransferPhase::Post { job, link, done } =>
                if link >= self.links {
                    TransferState {
                        phase: if done { TransferPhase::TestRank { job } } else { TransferPhase::PostRank { job } },
                        ..s
                    }
                } else if s.reqs[link as int] is Some {
                    TransferState { phase: TransferPhase::Post { job, link: (link + 1) as usize, done }, ..s }
                } else {
                    s
                },
            TransferPhase::Test { job, link, done } =>
                if link >= self.links {
                    TransferState {
                        phase: if done {
                            TransferPhase::Mark { job, flag: 0 }
                        } else {
                            TransferPhase::TestRank { job }
                        },
                        ..s
                    }
                } else if s.reqs[link as int] is None {
                    TransferState { phase: TransferPhase::Test { job, link: (link + 1) as usize, done }, ..s }
                } else {
                    s
                },
            TransferPhase::Mark { job, flag } =>
                if flag < self.flags {
                    TransferState { phase: TransferPhase::Mark { job, flag: (flag + 1) as usize }, ..s }
                } else {
                    TransferState { phase: TransferPhase::Round { job: self.job_after(job) }, ..s }
                },
            _ => s,
        }
    }

    /// The state that follows `s` when `e` came of its action. An event that does not answer the
    /// action changes nothing.
    pub open spec fn next<R>(self, s: TransferState<R>, e: TransferEvent<R>) -> TransferState<R> {
        match e {
            TransferEvent::Continue => self.after_continue(s),
            TransferEvent::Rank(rank) => TransferState { phase: self.after_rank(s.phase, rank), ..s },
            TransferEvent::Flag(word) => match s.phase {
                TransferPhase::Flag { job, flag } if flag < self.flags => TransferState {
                    phase: if !crate::ready::raised(word, self.thread) {
                        TransferPhase::Flag { job, flag: (flag + 1) as usize }
                    } else {
                        TransferPhase::FlagRank { job, flag }
                    },
                    ..s
                },
                _ => s,
            },
            TransferEvent::Posted(req) => match s.phase {
                TransferPhase::Post { job, link, done } if link < self.links && s.reqs[link as int] is None =>
                    TransferState {
                        phase: TransferPhase::Post { job, link: (link + 1) as usize, done: done && req is Some },
                        reqs: s.reqs.update(link as int, req),
                    },
                _ => s,
            },
            TransferEvent::Tested(complete) => match s.phase {
                TransferPhase::Test { job, link, done } if link < self.links && s.reqs[link as int] is Some =>
                    TransferState {
                        phase: TransferPhase::Test { job, link: (link + 1) as usize, done: done && complete },
                        reqs: if complete { s.reqs.update(link as int, None) } else { s.reqs },
                    },
                _ => s,
            },
        }
    }

    /// What holds in every state that a thread of this setup reaches.
    pub open spec fn reached<R>(self, s: TransferState<R>) -> bool {
        &&& s.reqs.len() == self.links
        &&& match s.phase {
            TransferPhase::Round { job } => job < self.jobs || (job == 0 && self.jobs == 0),
            TransferPhase::Flag { job, flag } => job < self.jobs && flag <= self.flags,
            TransferPhase::FlagRank { job, flag } => job < self.jobs && flag < self.flags,
            TransferPhase::PostRank { job } => job < self.jobs,
            TransferPhase::Post { job, link, done } => {
                &&& job < self.jobs
                &&& link <= self.links
                &&& done ==> forall|k: int| 0 <= k < link ==> (#[trigger] s.reqs[k]) is Some
            },
            TransferPhase::TestRank { job } => job < self.jobs,
            TransferPhase::Test { job, link, done } => {
                &&& job < self.jobs
                &&& link <= self.links
                &&& done ==> forall|k: int| 0 <= k < link ==> (#[trigger] s.reqs[k]) is None
            },
            TransferPhase::Mark { job, flag } => {
                &&& job < self.jobs
                &&& flag <= self.flags
                &&& forall|k: int| 0 <= k < self.links ==> (#[trigger] s.reqs[k]) is None
            },
            _ => true,
        }
    }
}

/// The loop of a transfer thread, holding the open request of each link.
pub struct TransferLoop<R> {
    setup: TransferSetup,
    phase: TransferPhase,
    reqs: Vec<Option<R>>,
}

impl<R> View for TransferLoop<R> {
    type V = TransferState<R>;

    closed spec fn view(&self) -> TransferState<R> {
        TransferState { phase: self.phase, reqs: self.reqs@ }
    }
}

impl<R> TransferLoop<R> {
    /// What the thread is set up with.
    pub closed spec fn setup(&self) -> TransferSetup {
        self.setup
    }

    /// The setup is valid and the state one that the thread reaches.
    pub open spec fn wf(&self) -> bool {
        self.setup().valid() && self.setup().reached(self@)
    }

    /// The loop at its start.
    pub fn new(setup: TransferSetup) -> (this: Self)
        requires
            setup.valid(),
        ensures
            this.wf(),
            this.setup() == setup,
            this@ == setup.start::<R>(),
            this@ == transfer_after(setup, setup.start::<R>(), Seq::empty()),
    {
        TransferLoop { setup, phase: TransferPhase::Connecting, reqs: vec_of_none(setup.links) }
    }

    /// What the thread does next.
    pub fn action(&self) -> (a: TransferAction)
        requires
            self.wf(),
        ensures
            a == self.setup().action(self@),
    {
        match self.phase {
            TransferPhase::Connecting => TransferAction::LoadRank,
            TransferPhase::Napping => TransferAction::Nap,
            TransferPhase::Round { .. } => TransferAction::Continue,
            TransferPhase::Flag { job, flag } => {
                if flag < self.setup.flags {
                    TransferAction::LoadFlag { job, flag }
                } else {
                    TransferAction::Continue
                }
            },
            TransferPhase::FlagRank { .. } => TransferAction::LoadRank,
            TransferPhase::PostRank { .. } => TransferAction::LoadRank,
            TransferPhase::Post { job, link, .. } => {
                if link < self.setup.links && self.reqs[link].is_none() {
                    TransferAction::Post { job, link }
                } else {
                    TransferAction::Continue
                }
            },
            TransferPhase::TestRank { .. } => TransferAction::LoadRank,
            TransferPhase::Test { job, link, .. } => {
                if link < self.setup.links && self.reqs[link].is_some() {
                    TransferAction::Test { job, link }
                } else {
                    TransferAction::Continue
                }
            },
            TransferPhase::Mark { job, flag } => {
                if flag < self.setup.flags {
                    TransferAction::MarkFlag { job, flag, bit: thread_bit(self.setup.thread) }
                } else {
                    TransferAction::Continue
                }
            },
            TransferPhase::Stopped => TransferAction::Exit,
        }
    }

    /// The open request of a link, if it has one.
    pub fn request(&self, link: usize) -> (req: Option<&R>)
        requires
            self.wf(),
        ensures
            match req {
                Some(r) => link < self.setup().links && self@.reqs[link as int] == Some(*r),
                None => link >= self.setup().links || self@.reqs[link as int] is None,
            },
    {
        if link < self.reqs.len() {
            self.reqs[link].as_ref()
        } else {
            None
        }
    }

    /// Takes note of what came of the action.
    pub fn step(&mut self, event: TransferEvent<R>)
        requires
            old(self).wf(),
        ensures
            final(self).wf(),
            final(self).setup() == old(self).setup(),
            final(self)@ == old(self).setup().next(old(self)@, event),
    {
        let setup = self.setup;
        match event {
            TransferEvent::Continue => self.go_on(),
            TransferEvent::Rank(rank) => {
                let there = rank == setup.nrank;
                match self.phase {
                    TransferPhase::Connecting => {
                        self.phase = if there { TransferPhase::Round { job: 0 } } else { TransferPhase::Napping };
                    },
                    TransferPhase::FlagRank { job, flag } => {
                        self.phase = if there { TransferPhase::Flag { job, flag } } else { TransferPhase::Stopped };
                    },
                    TransferPhase::PostRank { job } => {
                        self.phase = if there {
                            TransferPhase::Post { job, link: 0, done: true }
                        } else {
                            TransferPhase::Stopped
                        };
                    },
                    TransferPhase::TestRank { job } => {
                        self.phase = if there {
                            TransferPhase::Test { job, link: 0, done: true }
                        } else {
                            TransferPhase::Stopped
                        };
                    },
                    _ => {},
                }
            },
            TransferEvent::Flag(word) => {
                if let TransferPhase::Flag { job, flag } = self.phase {
                    if flag < setup.flags {
                        self.phase = if !is_raised(word, setup.thread) {
                            TransferPhase::Flag { job, flag: flag + 1 }
                        } else {
                            TransferPhase::FlagRank { job, flag }
                        };
                    }
                }
            },
            TransferEvent::Posted(req) => {
                if let TransferPhase::Post { job, link, done } = self.phase {
                    if link < setup.links && self.reqs[link].is_none() {
                        let granted = req.is_some();
                        self.reqs[link] = req;
                        self.phase = TransferPhase::Post { job, link: link + 1, done: done && granted };
                    }
                }
            },
            TransferEvent::Tested(complete) => {
                if let TransferPhase::Test { job, link, done } = self.phase {
                    if link < setup.links && self.reqs[link].is_some() {
                        if complete {
                            self.reqs[link] = None;
                        }
                        self.phase = TransferPhase::Test { job, link: link + 1, done: done && complete };
                    }
                }
            },
        }
    }

    /// Goes on after an action without an outcome.
    fn go_on(&mut self)
        requires
            old(self).wf(),
        ensures
            final(self).wf(),
            final(self).setup() == old(self).setup(),
            final(self)@ == old(self).setup().after_continue(old(self)@),
    {
        let setup = self.setup;
        match self.phase {
            TransferPhase::Napping => {
                self.phase = TransferPhase::Connecting;
            },
            TransferPhase::Round { job } => {
                if job < setup.jobs {
                    self.phase = TransferPhase::Flag { job, flag: 0 };
                } else if setup.direction == Direction::Send {
                    self.phase = TransferPhase::Stopped;
                }
            },
            TransferPhase::Flag { job, flag } => {
                if flag >= setup.flags {
                    self.reqs = vec_of_none(setup.links);
                    self.phase = TransferPhase::PostRank { job };
                }
            },
            TransferPhase::Post { job, link, done } => {
                if link >= setup.links {
                    self.phase = if done { TransferPhase::TestRank { job } } else { TransferPhase::PostRank { job } };
                } else if self.reqs[link].is_some() {
                    self.phase = TransferPhase::Post { job, link: link + 1, done };
                }
            },
            TransferPhase::Test { job, link, done } => {
                if link >= setup.links {
                    self.phase = if done { TransferPhase::Mark { job, flag: 0 } } else { TransferPhase::TestRank { job } };
                } else if self.reqs[link].is_none() {
                    self.phase = TransferPhase::Test { job, link: link + 1, done };
                }
            },
            TransferPhase::Mark { job, flag } => {
                self.phase = if flag < setup.flags {
                    TransferPhase::Mark { job, flag: flag + 1 }
                } else if job + 1 < setup.jobs {
                    TransferPhase::Round { job: job + 1 }
                } else {
                    TransferPhase::Round { job: 0 }
                };
            },
            _ => {},
        }
    }
}

/// The state after `events` have come of the actions of a thread, one after the other, from `s` on.
pub open spec fn transfer_after<R>(setup: TransferSetup, s: TransferState<R>, events: Seq<TransferEvent<R>>) -> TransferState<R>
    decreases events.len(),
{
    if events.len() == 0 {
        s
    } else {
        setup.next(transfer_after(setup, s, events.drop_last()), events.last())
    }
}

/// The event grants the request that the thread has asked for on link `link`.
pub open spec fn grants<R>(setup: TransferSetup, s: TransferState<R>, e: TransferEvent<R>, link: usize) -> bool {
    &&& e matches TransferEvent::Posted(req) && req is Some
    &&& setup.action(s) matches TransferAction::Post { link: l, .. } && l == link
}

/// The event completes the request of link `link`.
pub open spec fn completes<R>(setup: TransferSetup, s: TransferState<R>, e: TransferEvent<R>, link: usize) -> bool {
    &&& e matches TransferEvent::Tested(complete) && complete
    &&& setup.action(s) matches TransferAction::Test { link: l, .. } && l == link
}

/// How many requests the network has granted on a link.
pub open spec fn granted<R>(setup: TransferSetup, s: TransferState<R>, events: Seq<TransferEvent<R>>, link: usize) -> nat
    decreases events.len(),
{
    if events.len() == 0 {
        0
    } else {
        let before = events.drop_last();
        granted(setup, s, before, link) + if grants(setup, transfer_after(setup, s, before), events.last(), link) {
            1nat
        } else {
            0
        }
    }
}

/// How many requests of a link have been found complete.
pub open spec fn completed<R>(setup: TransferSetup, s: TransferState<R>, events: Seq<TransferEvent<R>>, link: usize) -> nat
    decreases events.len(),
{
    if events.len() == 0 {
        0
    } else {
        let before = events.drop_last();
        completed(setup, s, before, link) + if completes(setup, transfer_after(setup, s, before), events.last(), link) {
            1nat
        } else {
            0
        }
    }
}

/// How many requests have been granted on a link in the current round.
spec fn granted_in_round<R>(s: TransferState<R>, link: usize) -> nat {
    match s.phase {
        TransferPhase::PostRank { .. } => if s.reqs[link as int] is Some { 1 } else { 0 },
        TransferPhase::Post { .. } => if s.reqs[link as int] is Some { 1 } else { 0 },
        TransferPhase::TestRank { .. } => 1,
        TransferPhase::Test { .. } => 1,
        TransferPhase::Mark { .. } => 1,
        _ => 0,
    }
}

/// How many requests of a link have been found complete in the current round.
spec fn completed_in_round<R>(s: TransferState<R>, link: usize) -> nat {
    match s.phase {
        TransferPhase::TestRank { .. } => if s.reqs[link as int] is Some { 0 } else { 1 },
        TransferPhase::Test { .. } => if s.reqs[link as int] is Some { 0 } else { 1 },
        TransferPhase::Mark { .. } => 1,
        _ => 0,
    }
}

/// Every step keeps the thread in order.
pub proof fn law_transfer_in_order<R>(setup: TransferSetup, s: TransferState<R>, e: TransferEvent<R>)
    requires
        setup.reached(s),
    ensures
        setup.reached(setup.next(s, e)),
{
}

proof fn lemma_counts<R>(setup: TransferSetup, s: TransferState<R>, events: Seq<TransferEvent<R>>, link: usize)
    requires
        setup.reached(s),
        s.phase is Round,
        link < setup.links,
        forall|k: int| 0 < k <= events.len() ==> !(transfer_after(setup, s, #[trigger] events.take(k)).phase is Round),
    ensures
        setup.reached(transfer_after(setup, s, events)),
        ({
            let t = transfer_after(setup, s, events);
            ||| t.phase is Stopped
            ||| granted(setup, s, events, link) == granted_in_round(t, link)
                && completed(setup, s, events, link) == completed_in_round(t, link)
        }),
    decreases events.len(),
{
    if events.len() > 0 {
        let before = events.drop_last();
        assert forall|k: int| 0 < k <= before.len() implies
            !(transfer_after(setup, s, #[trigger] before.take(k)).phase is Round) by {
            assert(before.take(k) =~= events.take(k));
        }
        lemma_counts(setup, s, before, link);
        assert(events.take(events.len() as int) =~= events);
        law_transfer_in_order(setup, transfer_after(setup, s, before), events.last());
    }
}

/// In a round, from the moment a job is taken up until the thread raises its bits, exactly one
/// request is granted on every link and found complete.
pub proof fn law_once_per_round<R>(setup: TransferSetup, s: TransferState<R>, events: Seq<TransferEvent<R>>, link: usize)
    requires
        setup.reached(s),
        s.phase is Round,
        link < setup.links,
        forall|k: int| 0 < k <= events.len() ==> !(transfer_after(setup, s, #[trigger] events.take(k)).phase is Round),
        transfer_after(setup, s, events).phase is Mark,
    ensures
        granted(setup, s, events, link) == 1,
        completed(setup, s, events, link) == 1,
{
    lemma_counts(setup, s, events, link);
}

/// A thread that waits and finds a rank missing stops, and does nothing any more.
pub proof fn law_stops_without_rank<R>(setup: TransferSetup, s: TransferState<R>, rank: usize, e: TransferEvent<R>)
    requires
        s.phase is FlagRank || s.phase is PostRank || s.phase is TestRank,
        rank != setup.nrank,
    ensures
        setup.next(s, TransferEvent::Rank(rank)).phase is Stopped,
        setup.action(setup.next(s, TransferEvent::Rank(rank))) is Exit,
        setup.next(setup.next(s, TransferEvent::Rank(rank)), e) == setup.next(s, TransferEvent::Rank(rank)),
{
}

/// The event is of the kind that comes of the action.
pub open spec fn answers<R>(a: TransferAction, e: TransferEvent<R>) -> bool {
    match a {
        TransferAction::LoadRank => e is Rank,
        TransferAction::LoadFlag { .. } => e is Flag,
        TransferAction::Post { .. } => e is Posted,
        TransferAction::Test { .. } => e is Tested,
        TransferAction::Exit => false,
        _ => e is Continue,
    }
}

/// An event that is not of the kind that comes of the action changes nothing.
pub proof fn law_transfer_unanswered<R>(setup: TransferSetup, s: TransferState<R>, e: TransferEvent<R>)
    requires
        !answers(setup.action(s), e),
    ensures
        setup.next(s, e) == s,
{
}

/// What can be seen of a transfer thread from outside: what it was answered, and what it did.
pub struct TransferHistory {
    /// The number of ranks was read and was the full one.
    pub met: bool,
    /// After that it was read and was another.
    pub lost: bool,
    /// The last number of ranks that was read was not the full one, and no rest followed.
    pub short: bool,
    /// How many rounds are over: all flags were marked or, where there are none, all requests were
    /// found complete.
    pub rounds: nat,
    /// How many flags of the round were read with the thread's bit down.
    pub down: nat,
    /// The last flag was read with the thread's bit up, and the ranks were not looked at since.
    pub up: bool,
    /// On which links a request was granted in the round.
    pub granted: Seq<bool>,
    /// On which links it was found complete.
    pub complete: Seq<bool>,
    /// How many links the present pass is past; none before the ranks are looked at for it.
    pub pass: Option<nat>,
    /// How many flags were marked in the round.
    pub marked: nat,
    /// How often the ranks were looked at since the bit was down in all flags of the round.
    pub looks: nat,
}

/// True for all links.
pub open spec fn on_all(s: Seq<bool>) -> bool {
    forall|l: int| 0 <= l < s.len() ==> #[trigger] s[l]
}

/// False for all links.
pub open spec fn on_none(n: usize) -> Seq<bool> {
    Seq::new(n as nat, |l: int| false)
}

impl TransferHistory {
    /// The history at the end of a round.
    pub open spec fn next_round(self, setup: TransferSetup) -> TransferHistory {
        TransferHistory {
            rounds: self.rounds + 1,
            down: 0,
            granted: on_none(setup.links),
            complete: on_none(setup.links),
            pass: None,
            marked: 0,
            looks: 0,
            ..self
        }
    }

    /// The history in which event `e` came of action `a` next.
    pub open spec fn with<R>(self, setup: TransferSetup, a: TransferAction, e: TransferEvent<R>) -> TransferHistory {
        match (a, e) {
            (TransferAction::LoadRank, TransferEvent::Rank(rank)) => TransferHistory {
                met: self.met || rank == setup.nrank,
                lost: self.lost || (self.met && rank != setup.nrank),
                short: rank != setup.nrank,
                up: false,
                pass: if self.met && !self.up { Some(0) } else { self.pass },
                looks: if self.met && self.down >= setup.flags { self.looks + 1 } else { 0 },
                ..self
            },
            (TransferAction::Nap, TransferEvent::Continue) => TransferHistory { short: false, ..self },
            (TransferAction::LoadFlag { .. }, TransferEvent::Flag(word)) =>
                if crate::ready::raised(word, setup.thread) {
                    TransferHistory { up: true, ..self }
                } else {
                    TransferHistory { down: self.down + 1, ..self }
                },
            (TransferAction::Post { link, .. }, TransferEvent::Posted(req)) => {
                let granted = self.granted.update(link as int, req is Some);
                TransferHistory {
                    granted,
                    pass: if on_all(granted) { None } else { Some((link + 1) as nat) },
                    ..self
                }
            },
            (TransferAction::Test { link, .. }, TransferEvent::Tested(done)) => {
                let complete = self.complete.update(link as int, done);
                if on_all(complete) && setup.flags == 0 {
                    self.next_round(setup)
                } else {
                    TransferHistory {
                        complete,
                        pass: if on_all(complete) { None } else { Some((link + 1) as nat) },
                        ..self
                    }
                }
            },
            (TransferAction::MarkFlag { .. }, TransferEvent::Continue) =>
                if self.marked + 1 < setup.flags {
                    TransferHistory { marked: self.marked + 1, ..self }
                } else {
                    self.next_round(setup)
                },
            _ => self,
        }
    }
}

/// What was seen of a thread while `events` came of its actions.
pub open spec fn transfer_history<R>(setup: TransferSetup, events: Seq<TransferEvent<R>>) -> TransferHistory
    decreases events.len(),
{
    if events.len() == 0 {
        TransferHistory {
            met: false,
            lost: false,
            short: false,
            rounds: 0,
            down: 0,
            up: false,
            granted: on_none(setup.links),
            complete: on_none(setup.links),
            pass: None,
            marked: 0,
            looks: 0,
        }
    } else {
        let before = events.drop_last();
        transfer_history(setup, before).with(
            setup,
            setup.action(transfer_after(setup, setup.start::<R>(), before)),
            events.last(),
        )
    }
}

/// Link `link` is the first from `from` on where `s` is false.
pub open spec fn first_open(s: Seq<bool>, from: nat, link: usize) -> bool {
    &&& from <= link < s.len()
    &&& !s[link as int]
    &&& forall|l: int| from <= l < link ==> #[trigger] s[l]
}

/// `s` is true from `from` on.
pub open spec fn all_from(s: Seq<bool>, from: nat) -> bool {
    forall|l: int| from <= l < s.len() ==> #[trigger] s[l]
}

/// No request is open.
spec fn no_requests<R>(s: TransferState<R>) -> bool {
    forall|k: int| 0 <= k < s.reqs.len() ==> (#[trigger] s.reqs[k]) is None
}

/// How the state of a thread and its history belong together.
spec fn transfer_tied<R>(setup: TransferSetup, s: TransferState<R>, h: TransferHistory) -> bool {
    let jobs = setup.jobs as int;
    let running = h.met && !h.lost;
    let this = h.rounds as int % jobs;
    let unasked = h.granted == on_none(setup.links) && h.complete == on_none(setup.links);
    let posting = running && !h.up && h.down == setup.flags && h.complete == on_none(setup.links) && h.marked == 0
        && forall|l: int| 0 <= l < setup.links ==> (#[trigger] h.granted[l] <==> s.reqs[l] is Some);
    let testing = running && !h.up && h.down == setup.flags && on_all(h.granted) && h.marked == 0
        && forall|l: int| 0 <= l < setup.links ==> (#[trigger] h.complete[l] <==> s.reqs[l] is None);
    &&& h.granted.len() == setup.links
    &&& h.complete.len() == setup.links
    &&& h.lost ==> h.met
    &&& match s.phase {
        TransferPhase::Connecting => !h.met && !h.short && h.rounds == 0 && h.down == 0 && !h.up && unasked
            && h.pass is None && h.marked == 0,
        TransferPhase::Napping => !h.met && h.short && h.rounds == 0 && h.down == 0 && !h.up && unasked
            && h.pass is None && h.marked == 0,
        TransferPhase::Round { job } =>
            running && job == this && h.down == 0 && !h.up && unasked && h.pass is None && h.marked == 0,
        TransferPhase::Flag { job, flag } =>
            running && job == this && h.down == flag && !h.up && unasked && h.pass is None && h.marked == 0,
        TransferPhase::FlagRank { job, flag } =>
            running && job == this && h.down == flag && h.up && unasked && h.pass is None && h.marked == 0,
        TransferPhase::PostRank { job } => posting && job == this && !on_all(h.granted)
            && (h.pass matches Some(from) ==> all_from(h.granted, from)),
        TransferPhase::Post { job, link, done } => {
            &&& posting && job == this
            &&& !done ==> exists|k: int| 0 <= k < link && (#[trigger] s.reqs[k]) is None
            &&& if on_all(h.granted) {
                h.pass is None
            } else {
                h.pass matches Some(from) && from <= link && forall|l: int| from <= l < link ==> #[trigger] h.granted[l]
            }
        },
        TransferPhase::TestRank { job } => testing && job == this && !on_all(h.complete)
            && (h.pass matches Some(from) ==> all_from(h.complete, from)),
        TransferPhase::Test { job, link, done } if setup.flags == 0 && no_requests(s) => {
            &&& running && h.rounds > 0 && job == (h.rounds - 1) % jobs && h.down == 0 && !h.up && unasked
            &&& h.pass is None && h.marked == 0 && done
        },
        TransferPhase::Test { job, link, done } => {
            &&& testing && job == this
            &&& !done ==> exists|k: int| 0 <= k < link && (#[trigger] s.reqs[k]) is Some
            &&& if on_all(h.complete) {
                h.pass is None
            } else {
                h.pass matches Some(from) && from <= link
                    && forall|l: int| from <= l < link ==> #[trigger] h.complete[l]
            }
        },
        TransferPhase::Mark { job, flag } => if flag < setup.flags {
            running && job == this && !h.up && h.down == setup.flags && on_all(h.granted) && on_all(h.complete)
                && h.pass is None && h.marked == flag
        } else {
            running && h.rounds > 0 && job == (h.rounds - 1) % jobs && h.down == 0 && !h.up && unasked
                && h.pass is None && h.marked == 0
        },
        TransferPhase::Stopped => h.lost,
    }
}

#[verifier::rlimit(60)]
proof fn lemma_transfer_tied_step<R>(setup: TransferSetup, s: TransferState<R>, h: TransferHistory, e: TransferEvent<R>)
    requires
        setup.jobs > 0,
        setup.links > 0,
        setup.reached(s),
        transfer_tied(setup, s, h),
    ensures
        transfer_tied(setup, setup.next(s, e), h.with(setup, setup.action(s), e)),
{
    let t = setup.next(s, e);
    let g = h.with(setup, setup.action(s), e);
    vstd::arithmetic::div_mod::lemma_small_mod(0, setup.jobs as nat);
    crate::rounds::lemma_next_round(h.rounds, setup.jobs as int);
    if h.rounds > 0 {
        crate::rounds::lemma_next_round((h.rounds - 1) as nat, setup.jobs as int);
    }
    assert(!on_all(on_none(setup.links))) by {
        assert(!on_none(setup.links)[0]);
    }
    match s.phase {
        TransferPhase::Post { job, link, done } => {
            if link >= setup.links && e is Continue {
                if done {
                    assert forall|l: int| 0 <= l < setup.links implies (#[trigger] h.granted[l]) && !h.complete[l] by {
                        assert(s.reqs[l] is Some);
                    }
                    assert(on_all(h.granted));
                    assert(!h.complete[0]);
                } else {
                    let k = choose|k: int| 0 <= k < link && (#[trigger] s.reqs[k]) is None;
                    assert(!h.granted[k]);
                }
            }
            if link < setup.links {
                if s.reqs[link as int] is None {
                    assert(!h.granted[link as int]);
                    if e is Posted && t.reqs[link as int] is None {
                        assert(!g.granted[link as int]);
                    }
                } else {
                    assert(h.granted[link as int]);
                }
                if !done {
                    let k = choose|k: int| 0 <= k < link && (#[trigger] s.reqs[k]) is None;
                    assert(t.reqs[k] is None);
                }
            }
        },
        TransferPhase::TestRank { .. } => {
            let l = choose|l: int| 0 <= l < setup.links && !#[trigger] h.complete[l];
            assert(s.reqs[l] is Some);
            assert(!no_requests(s));
        },
        TransferPhase::Test { job, link, done } if setup.flags == 0 && no_requests(s) => {},
        TransferPhase::Test { job, link, done } => {
            if e is Tested && link < setup.links && s.reqs[link as int] is Some && no_requests(t) {
                assert forall|l: int| 0 <= l < setup.links implies #[trigger] h.complete.update(link as int, true)[l] by {
                    if l != link {
                        assert(t.reqs[l] is None);
                        assert(h.complete[l]);
                    }
                }
                if !done {
                    let k = choose|k: int| 0 <= k < link && (#[trigger] s.reqs[k]) is Some;
                    assert(t.reqs[k] is None);
                }
            }
            if e is Tested && link < setup.links && s.reqs[link as int] is Some && !no_requests(t) {
                let l = choose|l: int| 0 <= l < t.reqs.len() && !((#[trigger] t.reqs[l]) is None);
                assert(s.reqs[l] is Some);
                assert(!h.complete[l]);
                assert(!h.complete.update(link as int, t.reqs[link as int] is None)[l]);
            }
            if no_requests(s) {
                assert forall|l: int| 0 <= l < setup.links implies #[trigger] h.complete[l] by {
                    assert(s.reqs[l] is None);
                }
            }
            if link >= setup.links && e is Continue {
                if done {
                    assert(on_all(h.complete));
                } else {
                    let k = choose|k: int| 0 <= k < link && (#[trigger] s.reqs[k]) is Some;
                    assert(!h.complete[k]);
                }
            }
            if link < setup.links {
                if s.reqs[link as int] is Some {
                    assert(!h.complete[link as int]);
                    if e is Tested && t.reqs[link as int] is Some {
                        assert(!g.complete[link as int]);
                    }
                } else {
                    assert(h.complete[link as int]);
                }
                if !done {
                    let k = choose|k: int| 0 <= k < link && (#[trigger] s.reqs[k]) is Some;
                    assert(t.reqs[k] is Some);
                }
            }
        },
        _ => {},
    }
}

proof fn lemma_transfer_tied<R>(setup: TransferSetup, events: Seq<TransferEvent<R>>)
    requires
        setup.jobs > 0,
        setup.links > 0,
    ensures
        setup.reached(transfer_after(setup, setup.start::<R>(), events)),
        transfer_tied(setup, transfer_after(setup, setup.start::<R>(), events), transfer_history(setup, events)),
    decreases events.len(),
{
    if events.len() > 0 {
        let before = events.drop_last();
        let s = transfer_after(setup, setup.start::<R>(), before);
        lemma_transfer_tied(setup, before);
        law_transfer_in_order(setup, s, events.last());
        lemma_transfer_tied_step(setup, s, transfer_history(setup, before), events.last());
    } else {
        vstd::arithmetic::div_mod::lemma_small_mod(0, setup.jobs as nat);
    }
}

proof fn lemma_transfer_ends<R>(setup: TransferSetup, events: Seq<TransferEvent<R>>)
    ensures
        ({
            let s = transfer_after(setup, setup.start::<R>(), events);
            let h = transfer_history(setup, events);
            &&& setup.reached(s)
            &&& h.lost ==> h.met
            &&& match s.phase {
                TransferPhase::Connecting => !h.met && !h.short,
                TransferPhase::Napping => !h.met && h.short,
                TransferPhase::Stopped => h.lost || (h.met && setup.jobs == 0 && setup.direction == Direction::Send),
                _ => h.met && !h.lost,
            }
            &&& match s.phase {
                TransferPhase::PostRank { .. } => true,
                TransferPhase::Post { .. } => true,
                TransferPhase::TestRank { .. } => true,
                TransferPhase::Test { .. } => true,
                TransferPhase::Stopped => true,
                _ => forall|l: int| 0 <= l < setup.links ==> (#[trigger] s.reqs[l]) is None,
            }
        }),
    decreases events.len(),
{
    if events.len() > 0 {
        let before = events.drop_last();
        lemma_transfer_ends(setup, before);
        law_transfer_in_order(setup, transfer_after(setup, setup.start::<R>(), before), events.last());
    }
}

/// A thread starts only when it has read that all ranks are connected, and until then it reads
/// their number and rests in turn. It ends exactly when it has read that all ranks are connected
/// and later that they are not, or when it is to send and there are no jobs at all.
/// One that is to receive goes on without doing anything where there are no jobs.
pub proof fn law_transfer_starts_and_ends<R>(setup: TransferSetup, events: Seq<TransferEvent<R>>)
    ensures
        ({
            let h = transfer_history(setup, events);
            let a = setup.action(transfer_after(setup, setup.start::<R>(), events));
            &&& !h.met ==> a == if h.short { TransferAction::Nap } else { TransferAction::LoadRank }
            &&& h.met ==> !(a is Nap)
            &&& h.lost ==> h.met && a is Exit
            &&& a is Exit ==> h.lost || (h.met && setup.jobs == 0 && setup.direction == Direction::Send)
            &&& h.met && !h.lost && setup.jobs == 0 ==> match setup.direction {
                Direction::Send => setup.action(
                    transfer_after(setup, setup.start::<R>(), events.push(TransferEvent::Continue)),
                ) is Exit,
                Direction::Recv => a is Continue,
            }
        }),
{
    lemma_transfer_ends(setup, events);
    assert(events.push(TransferEvent::Continue).drop_last() =~= events);
}

/// A thread that has started goes through rounds, and round number `n` takes up job `n` modulo the
/// number of jobs. In a round it reads the flags of the job one after the other until its bit is
/// down in each, looking at the ranks whenever it is up; then it goes through the links, in passes
/// before each of which it looks at the ranks, and asks for a request wherever it has none, until
/// it has one on every link; then it goes through the links in the same way and tests every open
/// request, until all are complete; then it adds its bit to the flags one after the other.
pub proof fn law_transfer_rounds<R>(setup: TransferSetup, events: Seq<TransferEvent<R>>)
    requires
        setup.jobs > 0,
        setup.links > 0,
        transfer_history(setup, events).met,
        !transfer_history(setup, events).lost,
        !(setup.action(transfer_after(setup, setup.start::<R>(), events)) is Continue),
    ensures
        ({
            let h = transfer_history(setup, events);
            let s = transfer_after(setup, setup.start::<R>(), events);
            let a = setup.action(s);
            let job = (h.rounds as int % setup.jobs as int) as usize;
            &&& job < setup.jobs
            &&& h.down <= setup.flags
            &&& setup.flags > 0 ==> h.marked < setup.flags
            &&& forall|l: int| 0 <= l < setup.links ==>
                ((#[trigger] s.reqs[l]) is Some <==> h.granted[l] && !h.complete[l])
            &&& if h.down < setup.flags {
                a == if h.up {
                    TransferAction::LoadRank
                } else {
                    TransferAction::LoadFlag { job, flag: h.down as usize }
                }
            } else if !on_all(h.granted) {
                match h.pass {
                    Some(from) if !all_from(h.granted, from) => a matches TransferAction::Post { job: j, link }
                        && j == job && first_open(h.granted, from, link),
                    _ => a is LoadRank,
                }
            } else if !on_all(h.complete) {
                match h.pass {
                    Some(from) if !all_from(h.complete, from) => a matches TransferAction::Test { job: j, link }
                        && j == job && first_open(h.complete, from, link),
                    _ => a is LoadRank,
                }
            } else {
                &&& a == (TransferAction::MarkFlag { job, flag: h.marked as usize, bit: 1usize << setup.thread })
                &&& setup.flags > 0
            }
        }),
{
    let h = transfer_history(setup, events);
    let s = transfer_after(setup, setup.start::<R>(), events);
    let a = setup.action(s);
    let job = (h.rounds as int % setup.jobs as int) as usize;
    lemma_transfer_tied(setup, events);
    lemma_transfer_ends(setup, events);
    vstd::arithmetic::div_mod::lemma_mod_bound(h.rounds as int, setup.jobs as int);
    assert(!on_all(on_none(setup.links))) by {
        assert(!on_none(setup.links)[0]);
    }
    match s.phase {
        TransferPhase::Post { link, .. } => {
            assert(!h.granted[link as int]);
            assert(first_open(h.granted, h.pass->0, link));
        },
        TransferPhase::Test { link, .. } => {
            assert(!h.complete[link as int]);
            assert(first_open(h.complete, h.pass->0, link));
        },
        _ => {},
    }
}

/// How the state of a thread without links and its history belong together.
spec fn unlinked_tied<R>(setup: TransferSetup, s: TransferState<R>, h: TransferHistory) -> bool {
    let jobs = setup.jobs as int;
    let some = setup.flags > 0;
    let running = h.met && !h.lost;
    let this = h.rounds as int % jobs;
    let open = running && h.down == setup.flags && !h.up && h.marked == 0;
    let fresh = h.down == 0 && !h.up && h.marked == 0 && (some ==> h.looks == 0);
    match s.phase {
        TransferPhase::Connecting => !h.met && !h.lost && h.rounds == 0 && fresh,
        TransferPhase::Napping => !h.met && !h.lost && h.rounds == 0 && fresh,
        TransferPhase::Round { job } => running && fresh && (some ==> job == this),
        TransferPhase::Flag { job, flag } =>
            running && h.down == flag && !h.up && h.marked == 0 && (some ==> job == this && h.looks == 0),
        TransferPhase::FlagRank { job, flag } =>
            running && h.down == flag && h.up && h.marked == 0 && (some ==> job == this && h.looks == 0),
        TransferPhase::PostRank { job } => open && (some ==> job == this && h.looks == 0),
        TransferPhase::Post { job, done, .. } => open && done && (some ==> job == this && h.looks == 1),
        TransferPhase::TestRank { job } => open && (some ==> job == this && h.looks == 1),
        TransferPhase::Test { job, done, .. } => open && done && (some ==> job == this && h.looks == 2),
        TransferPhase::Mark { job, flag } => if flag < setup.flags {
            running && h.down == setup.flags && !h.up && h.marked == flag && job == this && h.looks == 2
        } else {
            running && fresh && (some ==> h.rounds > 0 && job == (h.rounds - 1) % jobs)
        },
        TransferPhase::Stopped => h.lost,
    }
}

proof fn lemma_unlinked_tied<R>(setup: TransferSetup, events: Seq<TransferEvent<R>>)
    requires
        setup.jobs > 0,
        setup.links == 0,
    ensures
        setup.reached(transfer_after(setup, setup.start::<R>(), events)),
        unlinked_tied(setup, transfer_after(setup, setup.start::<R>(), events), transfer_history(setup, events)),
    decreases events.len(),
{
    vstd::arithmetic::div_mod::lemma_small_mod(0, setup.jobs as nat);
    if events.len() > 0 {
        let before = events.drop_last();
        let s = transfer_after(setup, setup.start::<R>(), before);
        let h = transfer_history(setup, before);
        lemma_unlinked_tied(setup, before);
        law_transfer_in_order(setup, s, events.last());
        crate::rounds::lemma_next_round(h.rounds, setup.jobs as int);
        if h.rounds > 0 {
            crate::rounds::lemma_next_round((h.rounds - 1) as nat, setup.jobs as int);
        }
    }
}

/// A thread without links reads the flags of its job in the same way, looks at the ranks twice, and
/// adds its bit to the flags one after the other. Without flags it only looks at the ranks.
pub proof fn law_transfer_unlinked<R>(setup: TransferSetup, events: Seq<TransferEvent<R>>)
    requires
        setup.jobs > 0,
        setup.links == 0,
        transfer_history(setup, events).met,
        !transfer_history(setup, events).lost,
        !(setup.action(transfer_after(setup, setup.start::<R>(), events)) is Continue),
    ensures
        ({
            let h = transfer_history(setup, events);
            let a = setup.action(transfer_after(setup, setup.start::<R>(), events));
            let job = (h.rounds as int % setup.jobs as int) as usize;
            if h.down < setup.flags && !h.up {
                a == (TransferAction::LoadFlag { job, flag: h.down as usize })
            } else if 0 < setup.flags <= h.down && h.looks >= 2 {
                &&& h.marked < setup.flags
                &&& a == (TransferAction::MarkFlag { job, flag: h.marked as usize, bit: 1usize << setup.thread })
            } else {
                a is LoadRank
            }
        }),
{
    lemma_unlinked_tied(setup, events);
    lemma_transfer_ends(setup, events);
    vstd::arithmetic::div_mod::lemma_mod_bound(transfer_history(setup, events).rounds as int, setup.jobs as int);
}

/// What the network grants on a link is the open request of that link until it is found complete,
/// and no other event changes what is open.
pub proof fn law_transfer_requests<R>(setup: TransferSetup, events: Seq<TransferEvent<R>>, e: TransferEvent<R>)
    requires
        !(setup.action(transfer_after(setup, setup.start::<R>(), events)) is Exit),
    ensures
        ({
            let s = transfer_after(setup, setup.start::<R>(), events);
            setup.next(s, e).reqs == match (setup.action(s), e) {
                (TransferAction::Post { link, .. }, TransferEvent::Posted(req)) => s.reqs.update(link as int, req),
                (TransferAction::Test { link, .. }, TransferEvent::Tested(done)) => if done {
                    s.reqs.update(link as int, None)
                } else {
                    s.reqs
                },
                _ => s.reqs,
            }
        }),
{
    let s = transfer_after(setup, setup.start::<R>(), events);
    lemma_transfer_ends(setup, events);
    if s.phase is Flag && e is Continue {
        assert(setup.next(s, e).reqs =~= s.reqs);
    }
}

/// The state after a thread has gone on `n` times without an outcome.
pub open spec fn paused<R>(setup: TransferSetup, s: TransferState<R>, n: nat) -> TransferState<R>
    decreases n,
{
    if n == 0 {
        s
    } else {
        paused(setup, setup.next(s, TransferEvent::Continue), (n - 1) as nat)
    }
}

proof fn lemma_settles<R>(setup: TransferSetup, s: TransferState<R>, bound: nat) -> (n: nat)
    requires
        setup.jobs > 0,
        setup.reached(s),
        match s.phase {
            TransferPhase::Flag { .. } => bound >= 1,
            TransferPhase::Round { .. } => bound >= 2,
            TransferPhase::Mark { .. } => bound >= 3,
            TransferPhase::Post { link, .. } => bound >= setup.links - link + 1,
            TransferPhase::Test { link, .. } => bound >= setup.links - link + 4,
            _ => true,
        },
    ensures
        n <= bound,
        !(setup.action(paused(setup, s, n)) is Continue),
    decreases bound,
{
    if setup.action(s) is Continue {
        let t = setup.next(s, TransferEvent::Continue);
        law_transfer_in_order(setup, s, TransferEvent::Continue);
        let n = lemma_settles(setup, t, (bound - 1) as nat);
        assert(paused(setup, s, n + 1) == paused(setup, t, n));
        n + 1
    } else {
        0
    }
}

/// A thread with jobs does not go on for ever without doing anything.
pub proof fn law_transfer_settles<R>(setup: TransferSetup, events: Seq<TransferEvent<R>>)
    requires
        setup.jobs > 0,
    ensures
        exists|n: nat| n <= setup.links + 4 && !(setup.action(
            #[trigger] paused(setup, transfer_after(setup, setup.start::<R>(), events), n),
        ) is Continue),
{
    lemma_transfer_ends(setup, events);
    let n = lemma_settles(setup, transfer_after(setup, setup.start::<R>(), events), (setup.links + 4) as nat);
}

} // verus!
