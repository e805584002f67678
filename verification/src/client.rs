//! The loop of a client: it keeps up to a given number of reduction requests under way until a
//! given number of them has been made and answered.
//!
//! A reduction request sends a buffer and receives one on every connection. The client goes
//! through its request slots in a circle: an idle slot takes up the next request, if there is
//! one left to make, and a busy slot is tested. A slot is idle again once all its sends and
//! receives are complete.

use vstd::prelude::*;
use crate::matrix::vec_of_none;
use crate::transfer::Direction;

verus! {

/// What a client is set up with.
#[derive(Clone, Copy, Debug)]
pub struct ClientSetup {
    /// Number of request slots.
    pub nreq: usize,
    /// Number of requests to make.
    pub try_count: usize,
    /// Number of connections.
    pub comms: usize,
}

/// Where a client stands.
#[derive(Clone, Copy, Debug)]
pub enum ClientPhase {
    /// About to look at a slot.
    Visit { slot: usize },
    /// Taking up a request: the send on connection `comm`.
    PostSend { slot: usize, comm: usize },
    /// Taking up a request: the receive on connection `comm`.
    PostRecv { slot: usize, comm: usize },
    /// Testing the send on connection `comm`; `all_done` until one is found incomplete.
    TestSend { slot: usize, comm: usize, all_done: bool },
    /// Testing the receive on connection `comm`; `all_done` until one is found incomplete.
    TestRecv { slot: usize, comm: usize, all_done: bool },
    /// All requests are answered.
    Done,
}

/// What a client does next.
#[derive(Clone, Copy, Debug)]
pub enum ClientAction {
    /// Nothing but to go on.
    Continue,
    /// Ask the network for a request that sends the slot's buffer on a connection.
    PostSend { slot: usize, comm: usize },
    /// Ask the network for a request that receives the slot's buffer on a connection.
    PostRecv { slot: usize, comm: usize },
    /// Test whether the send of a slot on a connection is complete.
    TestSend { slot: usize, comm: usize },
    /// Test whether the receive of a slot on a connection is complete.
    TestRecv { slot: usize, comm: usize },
    /// End the loop.
    Finish,
}

/// What came of an action.
pub enum ClientEvent<R> {
    /// The action is through; it has no outcome to tell.
    Continue,
    /// The request that the network granted, if it did.
    Posted(Option<R>),
    /// Whether the request is complete.
    Tested(bool),
}

/// The state of a slot: whether it has a request under way, and the open send and receive on
/// each connection.
pub struct SlotState<R> {
    pub busy: bool,
    pub sends: Seq<Option<R>>,
    pub recvs: Seq<Option<R>>,
}

/// The state of a client.
pub struct ClientState<R> {
    pub phase: ClientPhase,
    pub slots: Seq<SlotState<R>>,
    /// How many requests have been made.
    pub reqed: usize,
    /// How many requests have been answered.
    pub finished: usize,
}

/// The number of busy slots.
pub open spec fn busy_slots<R>(slots: Seq<SlotState<R>>) -> nat
    decreases slots.len(),
{
    if slots.len() == 0 {
        0
    } else {
        busy_slots(slots.drop_last()) + if slots.last().busy { 1nat } else { 0 }
    }
}

impl<R> ClientState<R> {
    /// The state with another slot in place of slot number `slot`.
    pub open spec fn with_slot(self, slot: usize, s: SlotState<R>) -> Self {
        ClientState { slots: self.slots.update(slot as int, s), ..self }
    }

    /// The state with another phase.
    pub open spec fn at(self, phase: ClientPhase) -> Self {
        ClientState { phase, ..self }
    }
}

impl ClientSetup {
    /// A slot without a request.
    pub open spec fn idle_slot<R>(self) -> SlotState<R> {
        SlotState {
            busy: false,
            sends: Seq::new(self.comms as nat, |i: int| None::<R>),
            recvs: Seq::new(self.comms as nat, |i: int| None::<R>),
        }
    }

    /// The state in which a client starts.
    pub open spec fn start<R>(self) -> ClientState<R> {
        ClientState {
            phase: ClientPhase::Visit { slot: 0 },
            slots: Seq::new(self.nreq as nat, |i: int| self.idle_slot::<R>()),
            reqed: 0,
            finished: 0,
        }
    }

    /// What a client in state `s` does next.
    pub open spec fn action<R>(self, s: ClientState<R>) -> ClientAction {
        match s.phase {
            ClientPhase::PostSend { slot, comm } if comm < self.comms
                && s.slots[slot as int].sends[comm as int] is None => ClientAction::PostSend { slot, comm },
            ClientPhase::PostRecv { slot, comm } if s.slots[slot as int].recvs[comm as int] is None =>
                ClientAction::PostRecv { slot, comm },
            ClientPhase::TestSend { slot, comm, .. } if comm < self.comms
                && s.slots[slot as int].sends[comm as int] is Some => ClientAction::TestSend { slot, comm },
            ClientPhase::TestRecv { slot, comm, .. } if s.slots[slot as int].recvs[comm as int] is Some =>
                ClientAction::TestRecv { slot, comm },
            ClientPhase::Done => ClientAction::Finish,
            _ => ClientAction::Continue,
        }
    }

    /// The state after the receive on `comm` has been asked for: on to the next connection when
    /// both requests were granted, else both are looked at once more.
    pub open spec fn after_post<R>(self, s: ClientState<R>, slot: usize, comm: usize) -> ClientState<R> {
        let both = s.slots[slot as int].sends[comm as int] is Some
            && s.slots[slot as int].recvs[comm as int] is Some;
        s.at(ClientPhase::PostSend { slot, comm: if both { (comm + 1) as usize } else { comm } })
    }

    /// The state after the receive on `comm` has been tested.
    pub open spec fn after_test<R>(self, s: ClientState<R>, slot: usize, comm: usize, all_done: bool) -> ClientState<R> {
        let open = s.slots[slot as int].sends[comm as int] is Some
            || s.slots[slot as int].recvs[comm as int] is Some;
        s.at(ClientPhase::TestSend { slot, comm: (comm + 1) as usize, all_done: all_done && !open })
    }

    /// The state of a client that goes on from `s` without an outcome.
    pub open spec fn after_continue<R>(self, s: ClientState<R>) -> ClientState<R> {
        match s.phase {
            ClientPhase::Visit { slot } =>
                if slot >= self.nreq {
                    s.at(if s.finished == self.try_count { ClientPhase::Done } else { ClientPhase::Visit { slot: 0 } })
                } else if s.slots[slot as int].busy {
                    s.at(ClientPhase::TestSend { slot, comm: 0, all_done: true })
                } else if s.reqed < self.try_count {
                    s.at(ClientPhase::PostSend { slot, comm: 0 })
                } else {
                    s.at(ClientPhase::Visit { slot: (slot + 1) as usize })
                },
            ClientPhase::PostSend { slot, comm } =>
                if comm >= self.comms {
                    ClientState { reqed: (s.reqed + 1) as usize, ..s }.with_slot(
                        slot,
                        SlotState { busy: true, ..s.slots[slot as int] },
                    ).at(ClientPhase::TestSend { slot, comm: 0, all_done: true })
                } else if s.slots[slot as int].sends[comm as int] is Some {
                    s.at(ClientPhase::PostRecv { slot, comm })
                } else {
                    s
                },
            ClientPhase::PostRecv { slot, comm } =>
                if s.slots[slot as int].recvs[comm as int] is Some { self.after_post(s, slot, comm) } else { s },
            ClientPhase::TestSend { slot, comm, all_done } =>
                if comm >= self.comms {
                    if all_done {
                        ClientState { finished: (s.finished + 1) as usize, ..s }.with_slot(
                            slot,
                            SlotState { busy: false, ..s.slots[slot as int] },
                        ).at(ClientPhase::Visit { slot: (slot + 1) as usize })
                    } else {
                        s.at(ClientPhase::Visit { slot: (slot + 1) as usize })
                    }
                } else if s.slots[slot as int].sends[comm as int] is None {
                    s.at(ClientPhase::TestRecv { slot, comm, all_done })
                } else {
                    s
                },
            ClientPhase::TestRecv { slot, comm, all_done } =>
                if s.slots[slot as int].recvs[comm as int] is None {
                    self.after_test(s, slot, comm, all_done)
                } else {
                    s
                },
            ClientPhase::Done => s,
        }
    }

    /// The state after the network has answered with `req`.
    pub open spec fn after_posted<R>(self, s: ClientState<R>, req: Option<R>) -> ClientState<R> {
        match s.phase {
            ClientPhase::PostSend { slot, comm } if comm < self.comms
                && s.slots[slot as int].sends[comm as int] is None => {
                let old = s.slots[slot as int];
                s.with_slot(slot, SlotState { sends: old.sends.update(comm as int, req), ..old })
                    .at(ClientPhase::PostRecv { slot, comm })
            },
            ClientPhase::PostRecv { slot, comm } if s.slots[slot as int].recvs[comm as int] is None => {
                let old = s.slots[slot as int];
                self.after_post(
                    s.with_slot(slot, SlotState { recvs: old.recvs.update(comm as int, req), ..old }),
                    slot,
                    comm,
                )
            },
            _ => s,
        }
    }

    /// The state after a request was found `complete`, or not.
    pub open spec fn after_tested<R>(self, s: ClientState<R>, complete: bool) -> ClientState<R> {
        match s.phase {
            ClientPhase::TestSend { slot, comm, all_done } if comm < self.comms
                && s.slots[slot as int].sends[comm as int] is Some => {
                let old = s.slots[slot as int];
                let sends = if complete { old.sends.update(comm as int, None) } else { old.sends };
                s.with_slot(slot, SlotState { sends, ..old }).at(ClientPhase::TestRecv { slot, comm, all_done })
            },
            ClientPhase::TestRecv { slot, comm, all_done } if s.slots[slot as int].recvs[comm as int] is Some => {
                let old = s.slots[slot as int];
                let recvs = if complete { old.recvs.update(comm as int, None) } else { old.recvs };
                self.after_test(s.with_slot(slot, SlotState { recvs, ..old }), slot, comm, all_done)
            },
            _ => s,
        }
    }

    /// The state that follows `s` when `e` came of its action. An event that does not answer the
    /// action changes nothing.
    pub open spec fn next<R>(self, s: ClientState<R>, e: ClientEvent<R>) -> ClientState<R> {
        match e {
            ClientEvent::Continue => self.after_continue(s),
            ClientEvent::Posted(req) => self.after_posted(s, req),
            ClientEvent::Tested(complete) => self.after_tested(s, complete),
        }
    }

    /// The slot that is taking up a request in phase `p`, and the connections that are through.
    pub open spec fn posting(self, p: ClientPhase) -> Option<(usize, usize)> {
        match p {
            ClientPhase::PostSend { slot, comm } => Some((slot, comm)),
            ClientPhase::PostRecv { slot, comm } => Some((slot, comm)),
            _ => None,
        }
    }

    /// The slot, the number of connections tested and what was found, in a phase that tests.
    pub open spec fn testing(self, p: ClientPhase) -> Option<(usize, usize, bool)> {
        match p {
            ClientPhase::TestSend { slot, comm, all_done } => Some((slot, comm, all_done)),
            ClientPhase::TestRecv { slot, comm, all_done } => Some((slot, comm, all_done)),
            _ => None,
        }
    }

    /// What holds in every state that a client of this setup reaches: the requests made but not
    /// answered are those of the busy slots, and an idle slot has nothing open, except where it
    /// is just taking up a request.
    pub open spec fn reached<R>(self, s: ClientState<R>) -> bool {
        &&& s.slots.len() == self.nreq
        &&& forall|i: int| 0 <= i < s.slots.len() ==>
            (#[trigger] s.slots[i]).sends.len() == self.comms && s.slots[i].recvs.len() == self.comms
        &&& s.reqed <= self.try_count
        &&& s.finished + busy_slots(s.slots) == s.reqed
        &&& match s.phase {
            ClientPhase::Visit { slot } => slot <= self.nreq,
            ClientPhase::PostSend { slot, comm } => slot < self.nreq && comm <= self.comms,
            ClientPhase::PostRecv { slot, comm } => slot < self.nreq && comm < self.comms,
            ClientPhase::TestSend { slot, comm, .. } => slot < self.nreq && comm <= self.comms,
            ClientPhase::TestRecv { slot, comm, .. } => slot < self.nreq && comm < self.comms,
            ClientPhase::Done => s.finished == self.try_count,
        }
        &&& forall|i: int, k: int| #![trigger s.slots[i].sends[k]] #![trigger s.slots[i].recvs[k]]
            0 <= i < self.nreq && 0 <= k < self.comms && !s.slots[i].busy ==> match self.posting(s.phase) {
                Some((slot, comm)) if slot == i && k <= comm => k < comm ==>
                    s.slots[i].sends[k] is Some && s.slots[i].recvs[k] is Some,
                _ => s.slots[i].sends[k] is None && s.slots[i].recvs[k] is None,
            }
        &&& match self.posting(s.phase) {
            Some((slot, comm)) => !s.slots[slot as int].busy && s.reqed < self.try_count,
            None => true,
        }
        &&& match self.testing(s.phase) {
            Some((slot, comm, all_done)) => {
                &&& s.slots[slot as int].busy
                &&& all_done ==> forall|k: int| 0 <= k < comm ==>
                    (#[trigger] s.slots[slot as int].sends[k]) is None
                        && s.slots[slot as int].recvs[k] is None
            },
            None => true,
        }
    }
}

/// Changing one slot changes the number of busy slots by what it changes in that slot.
proof fn lemma_busy_update<R>(slots: Seq<SlotState<R>>, i: int, s: SlotState<R>)
    requires
        0 <= i < slots.len(),
    ensures
        busy_slots(slots.update(i, s)) + (if slots[i].busy { 1nat } else { 0 })
            == busy_slots(slots) + (if s.busy { 1nat } else { 0 }),
    decreases slots.len(),
{
    let new = slots.update(i, s);
    if i < slots.len() - 1 {
        lemma_busy_update(slots.drop_last(), i, s);
        assert(new.drop_last() =~= slots.drop_last().update(i, s));
    } else {
        assert(new.drop_last() =~= slots.drop_last());
    }
}

/// There are no more busy slots than slots.
proof fn lemma_busy_bound<R>(slots: Seq<SlotState<R>>)
    ensures
        busy_slots(slots) <= slots.len(),
    decreases slots.len(),
{
    if slots.len() > 0 {
        lemma_busy_bound(slots.drop_last());
    }
}

/// A busy slot is counted.
proof fn lemma_busy_counted<R>(slots: Seq<SlotState<R>>, i: int)
    requires
        0 <= i < slots.len(),
        slots[i].busy,
    ensures
        busy_slots(slots) > 0,
    decreases slots.len(),
{
    if i < slots.len() - 1 {
        lemma_busy_counted(slots.drop_last(), i);
    }
}

/// Without busy slots nothing is counted.
proof fn lemma_all_idle<R>(slots: Seq<SlotState<R>>)
    requires
        forall|i: int| 0 <= i < slots.len() ==> !(#[trigger] slots[i]).busy,
    ensures
        busy_slots(slots) == 0,
    decreases slots.len(),
{
    if slots.len() > 0 {
        assert forall|i: int| 0 <= i < slots.drop_last().len() implies !(#[trigger] slots.drop_last()[i]).busy by {
            assert(!slots[i].busy);
        }
        lemma_all_idle(slots.drop_last());
    }
}

/// Every step keeps the client in order.
pub proof fn law_client_in_order<R>(setup: ClientSetup, s: ClientState<R>, e: ClientEvent<R>)
    requires
        setup.reached(s),
    ensures
        setup.reached(setup.next(s, e)),
{
    let t = setup.next(s, e);
    match s.phase {
        ClientPhase::PostSend { slot, .. } => {
            lemma_busy_update(s.slots, slot as int, t.slots[slot as int]);
        },
        ClientPhase::PostRecv { slot, .. } => {
            lemma_busy_update(s.slots, slot as int, t.slots[slot as int]);
        },
        ClientPhase::TestSend { slot, .. } => {
            lemma_busy_update(s.slots, slot as int, t.slots[slot as int]);
        },
        ClientPhase::TestRecv { slot, .. } => {
            lemma_busy_update(s.slots, slot as int, t.slots[slot as int]);
        },
        _ => {},
    }
}

/// The requests made but not answered are never more than there are slots.
pub proof fn law_under_way<R>(setup: ClientSetup, s: ClientState<R>)
    requires
        setup.reached(s),
    ensures
        s.finished <= s.reqed <= setup.try_count,
        s.reqed - s.finished == busy_slots(s.slots),
        s.reqed - s.finished <= setup.nreq,
{
    lemma_busy_bound(s.slots);
}

/// A client that is done has made and seen answered all its requests, and has nothing open.
pub proof fn law_done<R>(setup: ClientSetup, s: ClientState<R>)
    requires
        setup.reached(s),
        s.phase is Done,
    ensures
        s.finished == setup.try_count,
        s.reqed == setup.try_count,
        forall|i: int| 0 <= i < setup.nreq ==> (#[trigger] s.slots[i]) == setup.idle_slot::<R>(),
{
    assert forall|i: int| 0 <= i < setup.nreq implies (#[trigger] s.slots[i]) == setup.idle_slot::<R>() by {
        if s.slots[i].busy {
            lemma_busy_counted(s.slots, i);
        }
        assert(s.slots[i].sends =~= setup.idle_slot::<R>().sends);
        assert(s.slots[i].recvs =~= setup.idle_slot::<R>().recvs);
    }
}

/// The state after `events` have come of the actions of a client, one after the other.
pub open spec fn client_after<R>(setup: ClientSetup, events: Seq<ClientEvent<R>>) -> ClientState<R>
    decreases events.len(),
{
    if events.len() == 0 {
        setup.start()
    } else {
        setup.next(client_after(setup, events.drop_last()), events.last())
    }
}

/// A state that a client reaches is in order.
pub proof fn law_client_always_in_order<R>(setup: ClientSetup, events: Seq<ClientEvent<R>>)
    ensures
        setup.reached(client_after(setup, events)),
    decreases events.len(),
{
    if events.len() == 0 {
        lemma_all_idle(setup.start::<R>().slots);
    } else {
        law_client_always_in_order(setup, events.drop_last());
        law_client_in_order(setup, client_after(setup, events.drop_last()), events.last());
    }
}

/// The requests of a slot in one direction.
pub open spec fn of_direction<R>(slot: SlotState<R>, d: Direction) -> Seq<Option<R>> {
    match d {
        Direction::Send => slot.sends,
        Direction::Recv => slot.recvs,
    }
}

/// The event grants the request that the client has asked for in direction `d`.
pub open spec fn grants<R>(setup: ClientSetup, s: ClientState<R>, e: ClientEvent<R>, d: Direction) -> bool {
    &&& e matches ClientEvent::Posted(req) && req is Some
    &&& match d {
        Direction::Send => setup.action(s) is PostSend,
        Direction::Recv => setup.action(s) is PostRecv,
    }
}

/// The event completes the request that the client has tested in direction `d`.
pub open spec fn completes<R>(setup: ClientSetup, s: ClientState<R>, e: ClientEvent<R>, d: Direction) -> bool {
    &&& e matches ClientEvent::Tested(complete) && complete
    &&& match d {
        Direction::Send => setup.action(s) is TestSend,
        Direction::Recv => setup.action(s) is TestRecv,
    }
}

/// How many requests in direction `d` the network has granted.
pub open spec fn granted<R>(setup: ClientSetup, events: Seq<ClientEvent<R>>, d: Direction) -> nat
    decreases events.len(),
{
    if events.len() == 0 {
        0
    } else {
        granted(setup, events.drop_last(), d) + if grants(
            setup,
            client_after(setup, events.drop_last()),
            events.last(),
            d,
        ) { 1nat } else { 0 }
    }
}

/// How many requests in direction `d` have been found complete.
pub open spec fn completed<R>(setup: ClientSetup, events: Seq<ClientEvent<R>>, d: Direction) -> nat
    decreases events.len(),
{
    if events.len() == 0 {
        0
    } else {
        completed(setup, events.drop_last(), d) + if completes(
            setup,
            client_after(setup, events.drop_last()),
            events.last(),
            d,
        ) { 1nat } else { 0 }
    }
}

/// The number of open requests in a sequence.
pub open spec fn open_count<R>(reqs: Seq<Option<R>>) -> nat
    decreases reqs.len(),
{
    if reqs.len() == 0 {
        0
    } else {
        open_count(reqs.drop_last()) + if reqs.last() is Some { 1nat } else { 0 }
    }
}

/// The number of open requests in direction `d` over all slots.
pub open spec fn open_total<R>(slots: Seq<SlotState<R>>, d: Direction) -> nat
    decreases slots.len(),
{
    if slots.len() == 0 {
        0
    } else {
        open_total(slots.drop_last(), d) + open_count(of_direction(slots.last(), d))
    }
}

proof fn lemma_open_update<R>(reqs: Seq<Option<R>>, i: int, r: Option<R>)
    requires
        0 <= i < reqs.len(),
    ensures
        open_count(reqs.update(i, r)) + (if reqs[i] is Some { 1nat } else { 0 })
            == open_count(reqs) + (if r is Some { 1nat } else { 0 }),
    decreases reqs.len(),
{
    let new = reqs.update(i, r);
    if i < reqs.len() - 1 {
        lemma_open_update(reqs.drop_last(), i, r);
        assert(new.drop_last() =~= reqs.drop_last().update(i, r));
    } else {
        assert(new.drop_last() =~= reqs.drop_last());
    }
}

proof fn lemma_total_update<R>(slots: Seq<SlotState<R>>, i: int, s: SlotState<R>, d: Direction)
    requires
        0 <= i < slots.len(),
    ensures
        open_total(slots.update(i, s), d) + open_count(of_direction(slots[i], d))
            == open_total(slots, d) + open_count(of_direction(s, d)),
    decreases slots.len(),
{
    let new = slots.update(i, s);
    if i < slots.len() - 1 {
        lemma_total_update(slots.drop_last(), i, s, d);
        assert(new.drop_last() =~= slots.drop_last().update(i, s));
    } else {
        assert(new.drop_last() =~= slots.drop_last());
    }
}

proof fn lemma_none_open<R>(reqs: Seq<Option<R>>)
    requires
        forall|k: int| 0 <= k < reqs.len() ==> (#[trigger] reqs[k]) is None,
    ensures
        open_count(reqs) == 0,
    decreases reqs.len(),
{
    if reqs.len() > 0 {
        assert forall|k: int| 0 <= k < reqs.drop_last().len() implies (#[trigger] reqs.drop_last()[k]) is None by {
            assert(reqs[k] is None);
        }
        lemma_none_open(reqs.drop_last());
    }
}

proof fn lemma_no_total<R>(setup: ClientSetup, slots: Seq<SlotState<R>>, d: Direction)
    requires
        forall|i: int| 0 <= i < slots.len() ==> (#[trigger] slots[i]) == setup.idle_slot::<R>(),
    ensures
        open_total(slots, d) == 0,
    decreases slots.len(),
{
    if slots.len() > 0 {
        assert forall|i: int| 0 <= i < slots.drop_last().len() implies
            (#[trigger] slots.drop_last()[i]) == setup.idle_slot::<R>() by {
            assert(slots[i] == setup.idle_slot::<R>());
        }
        lemma_no_total(setup, slots.drop_last(), d);
        lemma_none_open(of_direction(slots.last(), d));
    }
}

/// How many requests in direction `d` the client has been granted, told from its state: one per
/// connection for each request made, and those of the request that it is taking up.
pub open spec fn granted_so_far<R>(setup: ClientSetup, s: ClientState<R>, d: Direction) -> int {
    s.reqed * setup.comms + match setup.posting(s.phase) {
        Some((slot, comm)) => comm + if comm < setup.comms
            && of_direction(s.slots[slot as int], d)[comm as int] is Some { 1int } else { 0 },
        None => 0,
    }
}

/// A grant is counted once; nothing else changes the count.
proof fn lemma_grant_step<R>(setup: ClientSetup, s: ClientState<R>, e: ClientEvent<R>, d: Direction)
    requires
        setup.reached(s),
    ensures
        granted_so_far(setup, setup.next(s, e), d)
            == granted_so_far(setup, s, d) + (if grants(setup, s, e, d) { 1int } else { 0 }),
{
    let t = setup.next(s, e);
    if t.reqed == s.reqed + 1 {
        assert(t.reqed * setup.comms == s.reqed * setup.comms + setup.comms) by (nonlinear_arith)
            requires t.reqed == s.reqed + 1;
    }
    if setup.posting(s.phase) is Some {
        let (slot, comm) = setup.posting(s.phase).unwrap();
        if comm + 1 < setup.comms {
            assert(s.slots[slot as int].sends[comm + 1] is None && s.slots[slot as int].recvs[comm + 1] is None);
        }
    } else if s.phase is Visit && setup.posting(t.phase) is Some {
        let (slot, comm) = setup.posting(t.phase).unwrap();
        if comm < setup.comms {
            assert(s.slots[slot as int].sends[comm as int] is None && s.slots[slot as int].recvs[comm as int] is None);
        }
    }
}

/// A grant opens a request and a completion closes one; nothing else does.
proof fn lemma_open_step<R>(setup: ClientSetup, s: ClientState<R>, e: ClientEvent<R>, d: Direction)
    requires
        setup.reached(s),
    ensures
        open_total(setup.next(s, e).slots, d) + (if completes(setup, s, e, d) { 1nat } else { 0 })
            == open_total(s.slots, d) + (if grants(setup, s, e, d) { 1nat } else { 0 }),
{
    let t = setup.next(s, e);
    let place = match s.phase {
        ClientPhase::PostSend { slot, comm } => Some((slot as int, comm as int)),
        ClientPhase::PostRecv { slot, comm } => Some((slot as int, comm as int)),
        ClientPhase::TestSend { slot, comm, .. } => Some((slot as int, comm as int)),
        ClientPhase::TestRecv { slot, comm, .. } => Some((slot as int, comm as int)),
        _ => None,
    };
    if place is Some {
        let (i, k) = place.unwrap();
        let old = of_direction(s.slots[i], d);
        let new = of_direction(t.slots[i], d);
        if t.slots != s.slots {
            assert(t.slots == s.slots.update(i, t.slots[i]));
            lemma_total_update(s.slots, i, t.slots[i], d);
            if new != old {
                assert(new == old.update(k, new[k]));
                lemma_open_update(old, k, new[k]);
            }
        }
    }
}

/// Every request that was granted is open or complete, and those granted are one per connection
/// for each request made, and those of the request being taken up.
pub proof fn law_accounts<R>(setup: ClientSetup, events: Seq<ClientEvent<R>>, d: Direction)
    ensures
        granted(setup, events, d) == granted_so_far(setup, client_after(setup, events), d),
        granted(setup, events, d)
            == completed(setup, events, d) + open_total(client_after(setup, events).slots, d),
    decreases events.len(),
{
    if events.len() == 0 {
        lemma_no_total(setup, setup.start::<R>().slots, d);
        assert(0 * setup.comms == 0);
    } else {
        let s = client_after(setup, events.drop_last());
        law_client_always_in_order(setup, events.drop_last());
        law_accounts(setup, events.drop_last(), d);
        lemma_grant_step(setup, s, events.last(), d);
        lemma_open_step(setup, s, events.last(), d);
    }
}

/// The event grants the request that the client has asked for in direction `d` on connection
/// `comm`.
pub open spec fn grants_on<R>(setup: ClientSetup, s: ClientState<R>, e: ClientEvent<R>, d: Direction, comm: usize) -> bool {
    &&& grants(setup, s, e, d)
    &&& match setup.action(s) {
        ClientAction::PostSend { comm: c, .. } => c == comm,
        ClientAction::PostRecv { comm: c, .. } => c == comm,
        _ => false,
    }
}

/// The event completes the request that the client has tested in direction `d` on connection
/// `comm`.
pub open spec fn completes_on<R>(setup: ClientSetup, s: ClientState<R>, e: ClientEvent<R>, d: Direction, comm: usize) -> bool {
    &&& completes(setup, s, e, d)
    &&& match setup.action(s) {
        ClientAction::TestSend { comm: c, .. } => c == comm,
        ClientAction::TestRecv { comm: c, .. } => c == comm,
        _ => false,
    }
}

/// How many requests in direction `d` the network has granted on connection `comm`.
pub open spec fn granted_on<R>(setup: ClientSetup, events: Seq<ClientEvent<R>>, d: Direction, comm: usize) -> nat
    decreases events.len(),
{
    if events.len() == 0 {
        0
    } else {
        let s = client_after(setup, events.drop_last());
        granted_on(setup, events.drop_last(), d, comm) + if grants_on(setup, s, events.last(), d, comm) {
            1nat
        } else {
            0
        }
    }
}

/// How many requests in direction `d` on connection `comm` have been found complete.
pub open spec fn completed_on<R>(setup: ClientSetup, events: Seq<ClientEvent<R>>, d: Direction, comm: usize) -> nat
    decreases events.len(),
{
    if events.len() == 0 {
        0
    } else {
        let s = client_after(setup, events.drop_last());
        completed_on(setup, events.drop_last(), d, comm) + if completes_on(setup, s, events.last(), d, comm) {
            1nat
        } else {
            0
        }
    }
}

/// The number of slots with an open request in direction `d` on connection `comm`.
pub open spec fn open_on<R>(slots: Seq<SlotState<R>>, d: Direction, comm: usize) -> nat
    decreases slots.len(),
{
    if slots.len() == 0 {
        0
    } else {
        open_on(slots.drop_last(), d, comm)
            + if of_direction(slots.last(), d)[comm as int] is Some { 1nat } else { 0 }
    }
}

/// Whether the request that the client is taking up has been granted on connection `comm`.
pub open spec fn taken_up_on<R>(setup: ClientSetup, s: ClientState<R>, d: Direction, comm: usize) -> nat {
    match setup.posting(s.phase) {
        Some((slot, c)) => if comm < c || (comm == c && of_direction(s.slots[slot as int], d)[comm as int] is Some) {
            1
        } else {
            0
        },
        None => 0,
    }
}

proof fn lemma_open_on_update<R>(slots: Seq<SlotState<R>>, i: int, s: SlotState<R>, d: Direction, comm: usize)
    requires
        0 <= i < slots.len(),
    ensures
        open_on(slots.update(i, s), d, comm) + (if of_direction(slots[i], d)[comm as int] is Some { 1nat } else { 0 })
            == open_on(slots, d, comm) + (if of_direction(s, d)[comm as int] is Some { 1nat } else { 0 }),
    decreases slots.len(),
{
    let new = slots.update(i, s);
    if i < slots.len() - 1 {
        lemma_open_on_update(slots.drop_last(), i, s, d, comm);
        assert(new.drop_last() =~= slots.drop_last().update(i, s));
    } else {
        assert(new.drop_last() =~= slots.drop_last());
    }
}

proof fn lemma_none_open_on<R>(setup: ClientSetup, slots: Seq<SlotState<R>>, d: Direction, comm: usize)
    requires
        comm < setup.comms,
        forall|i: int| 0 <= i < slots.len() ==> (#[trigger] slots[i]) == setup.idle_slot::<R>(),
    ensures
        open_on(slots, d, comm) == 0,
    decreases slots.len(),
{
    if slots.len() > 0 {
        assert forall|i: int| 0 <= i < slots.drop_last().len() implies
            (#[trigger] slots.drop_last()[i]) == setup.idle_slot::<R>() by {
            assert(slots[i] == setup.idle_slot::<R>());
        }
        lemma_none_open_on(setup, slots.drop_last(), d, comm);
    }
}

/// On a connection, a grant is counted once and opens a request, and a completion closes one;
/// nothing else does.
#[verifier::rlimit(40)]
proof fn lemma_step_on<R>(setup: ClientSetup, s: ClientState<R>, e: ClientEvent<R>, d: Direction, comm: usize)
    requires
        setup.reached(s),
        comm < setup.comms,
    ensures
        ({
            let t = setup.next(s, e);
            &&& t.reqed + taken_up_on(setup, t, d, comm)
                == s.reqed + taken_up_on(setup, s, d, comm) + (if grants_on(setup, s, e, d, comm) { 1nat } else { 0 })
            &&& open_on(t.slots, d, comm) + (if completes_on(setup, s, e, d, comm) { 1nat } else { 0 })
                == open_on(s.slots, d, comm) + (if grants_on(setup, s, e, d, comm) { 1nat } else { 0 })
        }),
{
    let t = setup.next(s, e);
    let place = match s.phase {
        ClientPhase::Visit { slot } => Some(slot as int),
        ClientPhase::PostSend { slot, .. } => Some(slot as int),
        ClientPhase::PostRecv { slot, .. } => Some(slot as int),
        ClientPhase::TestSend { slot, .. } => Some(slot as int),
        ClientPhase::TestRecv { slot, .. } => Some(slot as int),
        _ => None,
    };
    if place is Some && place.unwrap() < setup.nreq {
        let i = place.unwrap();
        assert(s.slots[i].sends[comm as int] is None || s.slots[i].sends[comm as int] is Some);
        if t.slots != s.slots {
            assert(t.slots == s.slots.update(i, t.slots[i]));
            lemma_open_on_update(s.slots, i, t.slots[i], d, comm);
        }
    }
}

/// On every connection the requests granted are one for each request made and the one being taken
/// up, and each of them is open or complete.
pub proof fn law_accounts_on<R>(setup: ClientSetup, events: Seq<ClientEvent<R>>, d: Direction, comm: usize)
    requires
        comm < setup.comms,
    ensures
        ({
            let s = client_after(setup, events);
            &&& granted_on(setup, events, d, comm) == s.reqed + taken_up_on(setup, s, d, comm)
            &&& granted_on(setup, events, d, comm) == completed_on(setup, events, d, comm) + open_on(s.slots, d, comm)
        }),
    decreases events.len(),
{
    if events.len() == 0 {
        lemma_none_open_on(setup, setup.start::<R>().slots, d, comm);
    } else {
        let before = events.drop_last();
        law_client_always_in_order(setup, before);
        law_accounts_on(setup, before, d, comm);
        lemma_step_on(setup, client_after(setup, before), events.last(), d, comm);
    }
}

/// When a client is done, exactly one send and one receive per request has been granted on every
/// connection, and all of them are complete.
pub proof fn law_all_answered<R>(setup: ClientSetup, events: Seq<ClientEvent<R>>, d: Direction)
    requires
        client_after(setup, events).phase is Done,
    ensures
        forall|comm: usize| comm < setup.comms ==> #[trigger] granted_on(setup, events, d, comm) == setup.try_count,
        forall|comm: usize| comm < setup.comms ==> #[trigger] completed_on(setup, events, d, comm) == setup.try_count,
        granted(setup, events, d) == setup.try_count * setup.comms,
        completed(setup, events, d) == setup.try_count * setup.comms,
{
    let s = client_after(setup, events);
    law_client_always_in_order(setup, events);
    law_accounts(setup, events, d);
    law_done(setup, s);
    lemma_no_total(setup, s.slots, d);
    assert forall|comm: usize| comm < setup.comms implies #[trigger] granted_on(setup, events, d, comm)
        == setup.try_count by {
        law_accounts_on(setup, events, d, comm);
    }
    assert forall|comm: usize| comm < setup.comms implies #[trigger] completed_on(setup, events, d, comm)
        == setup.try_count by {
        law_accounts_on(setup, events, d, comm);
        lemma_none_open_on(setup, s.slots, d, comm);
    }
}

/// One request slot of a client.
struct Slot<R> {
    busy: bool,
    sends: Vec<Option<R>>,
    recvs: Vec<Option<R>>,
}

impl<R> Slot<R> {
    spec fn state(self) -> SlotState<R> {
        SlotState { busy: self.busy, sends: self.sends@, recvs: self.recvs@ }
    }
}

/// A client, holding the open requests of each slot.
pub struct Client<R> {
    setup: ClientSetup,
    phase: ClientPhase,
    slots: Vec<Slot<R>>,
    reqed: usize,
    finished: usize,
}

impl<R> View for Client<R> {
    type V = ClientState<R>;

    closed spec fn view(&self) -> ClientState<R> {
        ClientState {
            phase: self.phase,
            slots: Seq::new(self.slots@.len(), |i: int| self.slots@[i].state()),
            reqed: self.reqed,
            finished: self.finished,
        }
    }
}

impl<R> Client<R> {
    /// What the client is set up with.
    pub closed spec fn setup(&self) -> ClientSetup {
        self.setup
    }

    /// The state is one that the client reaches.
    pub open spec fn wf(&self) -> bool {
        self.setup().reached(self@)
    }

    /// A client at its start.
    pub fn new(setup: ClientSetup) -> (this: Self)
        ensures
            this.wf(),
            this.setup() == setup,
            this@ == setup.start::<R>(),
            this@ == client_after(setup, Seq::<ClientEvent<R>>::empty()),
    {
        let mut slots: Vec<Slot<R>> = Vec::new();
        for i in 0..setup.nreq
            invariant
                slots@.len() == i,
                forall|k: int| 0 <= k < i ==> (#[trigger] slots@[k]).state() == setup.idle_slot::<R>(),
        {
            slots.push(Slot { busy: false, sends: vec_of_none(setup.comms), recvs: vec_of_none(setup.comms) });
        }
        let this = Client { setup, phase: ClientPhase::Visit { slot: 0 }, slots, reqed: 0, finished: 0 };
        proof {
            assert(this@.slots =~= setup.start::<R>().slots);
            law_client_always_in_order::<R>(setup, Seq::empty());
        }
        this
    }

    /// What the client does next.
    pub fn action(&self) -> (a: ClientAction)
        requires
            self.wf(),
        ensures
            a == self.setup().action(self@),
    {
        match self.phase {
            ClientPhase::PostSend { slot, comm } => {
                if comm < self.setup.comms && self.slot(slot).sends[comm].is_none() {
                    ClientAction::PostSend { slot, comm }
                } else {
                    ClientAction::Continue
                }
            },
            ClientPhase::PostRecv { slot, comm } => {
                if self.slot(slot).recvs[comm].is_none() {
                    ClientAction::PostRecv { slot, comm }
                } else {
                    ClientAction::Continue
                }
            },
            ClientPhase::TestSend { slot, comm, .. } => {
                if comm < self.setup.comms && self.slot(slot).sends[comm].is_some() {
                    ClientAction::TestSend { slot, comm }
                } else {
                    ClientAction::Continue
                }
            },
            ClientPhase::TestRecv { slot, comm, .. } => {
                if self.slot(slot).recvs[comm].is_some() {
                    ClientAction::TestRecv { slot, comm }
                } else {
                    ClientAction::Continue
                }
            },
            ClientPhase::Done => ClientAction::Finish,
            ClientPhase::Visit { .. } => ClientAction::Continue,
        }
    }

    fn slot(&self, slot: usize) -> (s: &Slot<R>)
        requires
            self.wf(),
            slot < self.setup().nreq,
        ensures
            s.state() == self@.slots[slot as int],
            s.sends@.len() == self.setup().comms,
            s.recvs@.len() == self.setup().comms,
    {
        assert(self@.slots[slot as int].sends.len() == self.setup().comms);
        &self.slots[slot]
    }

    /// The open request of a slot on a connection in direction `d`, if there is one.
    pub fn request(&self, slot: usize, comm: usize, d: Direction) -> (req: Option<&R>)
        requires
            self.wf(),
        ensures
            match req {
                Some(r) => {
                    &&& slot < self.setup().nreq
                    &&& comm < self.setup().comms
                    &&& of_direction(self@.slots[slot as int], d)[comm as int] == Some(*r)
                },
                None => {
                    ||| slot >= self.setup().nreq
                    ||| comm >= self.setup().comms
                    ||| of_direction(self@.slots[slot as int], d)[comm as int] is None
                },
            },
    {
        if slot < self.setup.nreq && comm < self.setup.comms {
            let s = self.slot(slot);
            match d {
                Direction::Send => s.sends[comm].as_ref(),
                Direction::Recv => s.recvs[comm].as_ref(),
            }
        } else {
            None
        }
    }

    /// Looks again at the slot that is taking up a request, once both sides were asked.
    fn look_again(&mut self, slot: usize, comm: usize)
        requires
            slot < old(self)@.slots.len(),
            comm < usize::MAX,
            comm < old(self)@.slots[slot as int].sends.len(),
            comm < old(self)@.slots[slot as int].recvs.len(),
        ensures
            final(self).setup() == old(self).setup(),
            final(self)@ == old(self).setup().after_post(old(self)@, slot, comm),
    {
        let both = self.slots[slot].sends[comm].is_some() && self.slots[slot].recvs[comm].is_some();
        self.phase = ClientPhase::PostSend { slot, comm: if both { comm + 1 } else { comm } };
    }

    /// Goes on to the next connection of a slot that is tested.
    fn test_next(&mut self, slot: usize, comm: usize, all_done: bool)
        requires
            slot < old(self)@.slots.len(),
            comm < usize::MAX,
            comm < old(self)@.slots[slot as int].sends.len(),
            comm < old(self)@.slots[slot as int].recvs.len(),
        ensures
            final(self).setup() == old(self).setup(),
            final(self)@ == old(self).setup().after_test(old(self)@, slot, comm, all_done),
    {
        let open = self.slots[slot].sends[comm].is_some() || self.slots[slot].recvs[comm].is_some();
        self.phase = ClientPhase::TestSend { slot, comm: comm + 1, all_done: all_done && !open };
    }

    /// Goes on after an action without an outcome.
    fn go_on(&mut self)
        requires
            old(self).wf(),
        ensures
            final(self).setup() == old(self).setup(),
            final(self)@ == old(self).setup().after_continue(old(self)@),
    {
        let setup = self.setup;
        match self.phase {
            ClientPhase::Visit { slot } => {
                if slot >= setup.nreq {
                    self.phase = if self.finished == setup.try_count {
                        ClientPhase::Done
                    } else {
                        ClientPhase::Visit { slot: 0 }
                    };
                } else if self.slots[slot].busy {
                    self.phase = ClientPhase::TestSend { slot, comm: 0, all_done: true };
                } else if self.reqed < setup.try_count {
                    self.phase = ClientPhase::PostSend { slot, comm: 0 };
                } else {
                    self.phase = ClientPhase::Visit { slot: slot + 1 };
                }
            },
            ClientPhase::PostSend { slot, comm } => {
                if comm >= setup.comms {
                    self.slots[slot].busy = true;
                    self.reqed = self.reqed + 1;
                    self.phase = ClientPhase::TestSend { slot, comm: 0, all_done: true };
                } else if self.slot(slot).sends[comm].is_some() {
                    self.phase = ClientPhase::PostRecv { slot, comm };
                }
            },
            ClientPhase::PostRecv { slot, comm } => {
                if self.slot(slot).recvs[comm].is_some() {
                    self.look_again(slot, comm);
                }
            },
            ClientPhase::TestSend { slot, comm, all_done } => {
                if comm >= setup.comms {
                    if all_done {
                        proof {
                            lemma_busy_counted(self@.slots, slot as int);
                        }
                        self.slots[slot].busy = false;
                        self.finished = self.finished + 1;
                    }
                    self.phase = ClientPhase::Visit { slot: slot + 1 };
                } else if self.slot(slot).sends[comm].is_none() {
                    self.phase = ClientPhase::TestRecv { slot, comm, all_done };
                }
            },
            ClientPhase::TestRecv { slot, comm, all_done } => {
                if self.slot(slot).recvs[comm].is_none() {
                    self.test_next(slot, comm, all_done);
                }
            },
            ClientPhase::Done => {},
        }
        assert(self@.slots =~= self.setup().after_continue(old(self)@).slots);
    }

    /// Takes note of the network's answer to a request.
    fn posted(&mut self, req: Option<R>)
        requires
            old(self).wf(),
        ensures
            final(self).setup() == old(self).setup(),
            final(self)@ == old(self).setup().after_posted(old(self)@, req),
    {
        match self.phase {
            ClientPhase::PostSend { slot, comm } => {
                if comm < self.setup.comms && self.slot(slot).sends[comm].is_none() {
                    self.slots[slot].sends[comm] = req;
                    self.phase = ClientPhase::PostRecv { slot, comm };
                }
            },
            ClientPhase::PostRecv { slot, comm } => {
                if self.slot(slot).recvs[comm].is_none() {
                    self.slots[slot].recvs[comm] = req;
                    self.look_again(slot, comm);
                }
            },
            _ => {},
        }
        assert(self@.slots =~= self.setup().after_posted(old(self)@, req).slots);
    }

    /// Takes note of whether a request was found complete.
    fn tested(&mut self, complete: bool)
        requires
            old(self).wf(),
        ensures
            final(self).setup() == old(self).setup(),
            final(self)@ == old(self).setup().after_tested(old(self)@, complete),
    {
        match self.phase {
            ClientPhase::TestSend { slot, comm, all_done } => {
                if comm < self.setup.comms && self.slot(slot).sends[comm].is_some() {
                    if complete {
                        self.slots[slot].sends[comm] = None;
                    }
                    self.phase = ClientPhase::TestRecv { slot, comm, all_done };
                }
            },
            ClientPhase::TestRecv { slot, comm, all_done } => {
                if self.slot(slot).recvs[comm].is_some() {
                    if complete {
                        self.slots[slot].recvs[comm] = None;
                    }
                    self.test_next(slot, comm, all_done);
                }
            },
            _ => {},
        }
        assert(self@.slots =~= self.setup().after_tested(old(self)@, complete).slots);
    }
}

/// Takes note of what came of the client's action, and says what it does next.
pub fn do_client<R>(client: &mut Client<R>, event: ClientEvent<R>) -> (a: ClientAction)
    requires
        old(client).wf(),
    ensures
        final(client).wf(),
        final(client).setup() == old(client).setup(),
        final(client)@ == old(client).setup().next(old(client)@, event),
        a == final(client).setup().action(final(client)@),
{
    proof {
        law_client_in_order(client.setup(), client@, event);
    }
    match event {
        ClientEvent::Continue => client.go_on(),
        ClientEvent::Posted(req) => client.posted(req),
        ClientEvent::Tested(complete) => client.tested(complete),
    }
    client.action()
}

/// The event is of the kind that comes of the action.
pub open spec fn answers<R>(a: ClientAction, e: ClientEvent<R>) -> bool {
    match a {
        ClientAction::Continue => e is Continue,
        ClientAction::PostSend { .. } => e is Posted,
        ClientAction::PostRecv { .. } => e is Posted,
        ClientAction::TestSend { .. } => e is Tested,
        ClientAction::TestRecv { .. } => e is Tested,
        ClientAction::Finish => false,
    }
}

/// An event that is not of the kind that comes of the action changes nothing.
pub proof fn law_client_unanswered<R>(setup: ClientSetup, s: ClientState<R>, e: ClientEvent<R>)
    requires
        !answers(setup.action(s), e),
    ensures
        setup.next(s, e) == s,
{
}

/// The requests of all slots are the same.
pub open spec fn same_requests<R>(a: Seq<SlotState<R>>, b: Seq<SlotState<R>>) -> bool {
    &&& a.len() == b.len()
    &&& forall|i: int| 0 <= i < a.len() ==> (#[trigger] a[i]).sends == b[i].sends && a[i].recvs == b[i].recvs
}

/// The slot that an action names is the one that its outcome changes: a request that is asked for
/// on a slot and a connection is one that this slot does not have, and when it is granted the slot
/// has it; a request that is tested is one that the slot has, and when it is complete the slot has
/// it no more. All else stays, and going on without an outcome changes no request at all.
pub proof fn law_client_slots<R>(setup: ClientSetup, s: ClientState<R>, e: ClientEvent<R>)
    requires
        setup.reached(s),
        answers(setup.action(s), e),
    ensures
        ({
            let t = setup.next(s, e);
            match setup.action(s) {
                ClientAction::PostSend { slot, comm } => {
                    let old = s.slots[slot as int];
                    &&& slot < setup.nreq && comm < setup.comms && !old.busy
                    &&& old.sends[comm as int] is None
                    &&& t.slots == s.slots.update(
                        slot as int,
                        SlotState { sends: old.sends.update(comm as int, e->Posted_0), ..old },
                    )
                    &&& t.reqed == s.reqed && t.finished == s.finished
                },
                ClientAction::PostRecv { slot, comm } => {
                    let old = s.slots[slot as int];
                    &&& slot < setup.nreq && comm < setup.comms && !old.busy
                    &&& old.recvs[comm as int] is None
                    &&& t.slots == s.slots.update(
                        slot as int,
                        SlotState { recvs: old.recvs.update(comm as int, e->Posted_0), ..old },
                    )
                    &&& t.reqed == s.reqed && t.finished == s.finished
                },
                ClientAction::TestSend { slot, comm } => {
                    let old = s.slots[slot as int];
                    &&& slot < setup.nreq && comm < setup.comms && old.busy
                    &&& old.sends[comm as int] is Some
                    &&& t.slots == if e->Tested_0 {
                        s.slots.update(slot as int, SlotState { sends: old.sends.update(comm as int, None), ..old })
                    } else {
                        s.slots
                    }
                    &&& t.reqed == s.reqed && t.finished == s.finished
                },
                ClientAction::TestRecv { slot, comm } => {
                    let old = s.slots[slot as int];
                    &&& slot < setup.nreq && comm < setup.comms && old.busy
                    &&& old.recvs[comm as int] is Some
                    &&& t.slots == if e->Tested_0 {
                        s.slots.update(slot as int, SlotState { recvs: old.recvs.update(comm as int, None), ..old })
                    } else {
                        s.slots
                    }
                    &&& t.reqed == s.reqed && t.finished == s.finished
                },
                ClientAction::Continue => same_requests(t.slots, s.slots),
                ClientAction::Finish => true,
            }
        }),
{
    let t = setup.next(s, e);
    match setup.action(s) {
        ClientAction::TestSend { slot, .. } => {
            assert(t.slots =~= s.slots.update(slot as int, t.slots[slot as int]));
            if !e->Tested_0 {
                assert(t.slots =~= s.slots);
            }
        },
        ClientAction::TestRecv { slot, .. } => {
            assert(t.slots =~= s.slots.update(slot as int, t.slots[slot as int]));
            if !e->Tested_0 {
                assert(t.slots =~= s.slots);
            }
        },
        _ => {},
    }
}

/// The requests of a slot in the order in which they are tested: the send of the first connection,
/// its receive, the send of the second connection and so on.
pub open spec fn open_at<R>(slot: SlotState<R>, q: int) -> bool {
    if q % 2 == 0 { slot.sends[q / 2] is Some } else { slot.recvs[q / 2] is Some }
}

/// No request from place `from` up to place `to` is open.
pub open spec fn shut<R>(slot: SlotState<R>, from: int, to: int) -> bool {
    forall|q: int| from <= q < to ==> !#[trigger] open_at(slot, q)
}

/// The test of the request at a place.
pub open spec fn test_at(slot: int, q: int) -> ClientAction {
    if q % 2 == 0 {
        ClientAction::TestSend { slot: slot as usize, comm: (q / 2) as usize }
    } else {
        ClientAction::TestRecv { slot: slot as usize, comm: (q / 2) as usize }
    }
}

/// What a client is at, as can be seen from outside.
pub enum ClientStage {
    /// Going through the slots, from slot `slot` on.
    Visiting { slot: int },
    /// Asking for the requests of a slot on connection `comm`; the receive is next if `recv`.
    Posting { slot: int, comm: int, recv: bool },
    /// Testing the requests of a slot, from place `from` on.
    Testing { slot: int, from: int },
}

/// What can be seen of a client from outside: what it is at, and how many requests it has made.
pub struct ClientHistory {
    pub stage: ClientStage,
    pub made: nat,
}

impl ClientHistory {
    /// The history after a request was asked for on a connection of a slot which is then `now`: on
    /// to the next connection when both its requests are granted, and to the tests when all are.
    pub open spec fn asked<R>(self, setup: ClientSetup, slot: int, comm: int, send: bool, now: SlotState<R>) -> ClientHistory {
        if now.sends[comm] is Some && now.recvs[comm] is Some {
            if comm + 1 < setup.comms {
                ClientHistory { stage: ClientStage::Posting { slot, comm: comm + 1, recv: false }, ..self }
            } else {
                ClientHistory { stage: ClientStage::Testing { slot, from: 0 }, made: self.made + 1 }
            }
        } else {
            ClientHistory { stage: ClientStage::Posting { slot, comm, recv: send }, ..self }
        }
    }

    /// The history in which an event came of action `a` next, after which the slots are `now`.
    pub open spec fn with<R>(self, setup: ClientSetup, a: ClientAction, now: Seq<SlotState<R>>) -> ClientHistory {
        match a {
            ClientAction::PostSend { slot, comm } =>
                self.asked(setup, slot as int, comm as int, true, now[slot as int]),
            ClientAction::PostRecv { slot, comm } =>
                self.asked(setup, slot as int, comm as int, false, now[slot as int]),
            ClientAction::TestSend { slot, comm } =>
                ClientHistory { stage: ClientStage::Testing { slot: slot as int, from: 2 * comm + 1 }, ..self },
            ClientAction::TestRecv { slot, comm } =>
                ClientHistory { stage: ClientStage::Testing { slot: slot as int, from: 2 * comm + 2 }, ..self },
            _ => self,
        }
    }
}

/// What was seen of a client while `events` came of its actions.
pub open spec fn client_history<R>(setup: ClientSetup, events: Seq<ClientEvent<R>>) -> ClientHistory
    decreases events.len(),
{
    if events.len() == 0 {
        ClientHistory { stage: ClientStage::Visiting { slot: 0 }, made: 0 }
    } else {
        let before = events.drop_last();
        let a = setup.action(client_after(setup, before));
        if answers(a, events.last()) {
            client_history(setup, before).with(setup, a, client_after(setup, events).slots)
        } else {
            client_history(setup, before)
        }
    }
}

/// A slot has something open.
pub open spec fn has_open<R>(setup: ClientSetup, slot: SlotState<R>) -> bool {
    exists|q: int| 0 <= q < 2 * setup.comms && #[trigger] open_at(slot, q)
}

/// There is something to do for a slot: it has something open, or there is a request left to make.
pub open spec fn eligible<R>(setup: ClientSetup, slots: Seq<SlotState<R>>, made: nat, i: int) -> bool {
    made < setup.try_count || has_open(setup, slots[i])
}

/// There is nothing to do for the slots from `from` up to `to`.
pub open spec fn none_eligible<R>(setup: ClientSetup, slots: Seq<SlotState<R>>, made: nat, from: int, to: int) -> bool {
    forall|i: int| from <= i < to ==> !#[trigger] eligible(setup, slots, made, i)
}

/// All requests are made and answered.
pub open spec fn over<R>(setup: ClientSetup, slots: Seq<SlotState<R>>, made: nat) -> bool {
    made == setup.try_count && forall|i: int| 0 <= i < setup.nreq ==> !has_open(setup, #[trigger] slots[i])
}

/// Slot `i` is the one that a client which goes on with slot `from` comes to: the first for which
/// there is something to do, starting over with the first slot when there is none.
pub open spec fn comes_to<R>(setup: ClientSetup, slots: Seq<SlotState<R>>, made: nat, from: int, i: int) -> bool {
    &&& 0 <= i < setup.nreq
    &&& eligible(setup, slots, made, i)
    &&& {
        ||| from <= i && none_eligible(setup, slots, made, from, i)
        ||| none_eligible(setup, slots, made, from, setup.nreq as int) && none_eligible(setup, slots, made, 0, i)
    }
}

/// `a` tests the first open request of slot `i` from place `from` on.
pub open spec fn tests_first<R>(setup: ClientSetup, slots: Seq<SlotState<R>>, i: int, from: int, a: ClientAction) -> bool {
    exists|q: int| {
        &&& from <= q < 2 * setup.comms
        &&& #[trigger] open_at(slots[i], q)
        &&& shut(slots[i], from, q)
        &&& a == test_at(i, q)
    }
}

/// `a` is due for a client that goes on with slot `from`: the tests of the slot that it comes to,
/// or a new request on that slot if it has nothing open; or the end, when there is nothing to do
/// for any slot that is left and all requests are answered.
pub open spec fn due_from<R>(setup: ClientSetup, slots: Seq<SlotState<R>>, made: nat, from: int, a: ClientAction) -> bool {
    if none_eligible(setup, slots, made, from, setup.nreq as int) && over(setup, slots, made) {
        a is Finish
    } else {
        exists|i: int| {
            &&& #[trigger] comes_to(setup, slots, made, from, i)
            &&& if has_open(setup, slots[i]) {
                tests_first(setup, slots, i, 0, a)
            } else {
                a == (ClientAction::PostSend { slot: i as usize, comm: 0 })
            }
        }
    }
}

/// `a` is what a client does next, told from what was seen of it and the requests that are open.
pub open spec fn due<R>(setup: ClientSetup, slots: Seq<SlotState<R>>, h: ClientHistory, a: ClientAction) -> bool {
    match h.stage {
        ClientStage::Visiting { slot } => due_from(setup, slots, h.made, slot, a),
        ClientStage::Posting { slot, comm, recv } => {
            let now = slots[slot];
            let send = if recv { now.recvs[comm] is Some } else { now.sends[comm] is None };
            a == if send {
                ClientAction::PostSend { slot: slot as usize, comm: comm as usize }
            } else {
                ClientAction::PostRecv { slot: slot as usize, comm: comm as usize }
            }
        },
        ClientStage::Testing { slot, from } => if shut(slots[slot], from, 2 * setup.comms) {
            due_from(setup, slots, h.made, slot + 1, a)
        } else {
            tests_first(setup, slots, slot, from, a)
        },
    }
}

/// The slot with which a client goes on that is through with another.
spec fn base<R>(setup: ClientSetup, slots: Seq<SlotState<R>>, h: ClientHistory) -> Option<int> {
    match h.stage {
        ClientStage::Visiting { slot } => Some(slot),
        ClientStage::Posting { .. } => None,
        ClientStage::Testing { slot, from } => if shut(slots[slot], from, 2 * setup.comms) { Some(slot + 1) } else { None },
    }
}

/// The client has gone through the slots up to slot `k` without finding anything to do.
spec fn gone_to<R>(setup: ClientSetup, slots: Seq<SlotState<R>>, h: ClientHistory, k: int) -> bool {
    base(setup, slots, h) matches Some(from) && {
        ||| from <= k && none_eligible(setup, slots, h.made, from, k)
        ||| none_eligible(setup, slots, h.made, from, setup.nreq as int) && none_eligible(setup, slots, h.made, 0, k)
            && !over(setup, slots, h.made)
    }
}

/// The client tests a slot and has come to place `p`.
spec fn tested_to<R>(setup: ClientSetup, slots: Seq<SlotState<R>>, h: ClientHistory, slot: int, p: int) -> bool {
    ||| h.stage matches ClientStage::Testing { slot: i, from } && i == slot && from <= p && shut(slots[slot], from, p)
    ||| gone_to(setup, slots, h, slot) && has_open(setup, slots[slot]) && shut(slots[slot], 0, p)
}

/// A busy slot is one that has something open.
spec fn busy_is_open<R>(setup: ClientSetup, slots: Seq<SlotState<R>>, except: int) -> bool {
    forall|i: int| 0 <= i < setup.nreq && i != except ==> ((#[trigger] slots[i]).busy <==> has_open(setup, slots[i]))
}

/// How the state of a client and its history belong together.
spec fn client_tied<R>(setup: ClientSetup, s: ClientState<R>, h: ClientHistory) -> bool {
    match s.phase {
        ClientPhase::Visit { slot } => {
            &&& h.made == s.reqed
            &&& busy_is_open(setup, s.slots, -1)
            &&& gone_to(setup, s.slots, h, slot as int)
        },
        ClientPhase::PostSend { slot, comm } => {
            &&& busy_is_open(setup, s.slots, slot as int)
            &&& if comm >= setup.comms {
                h.made == s.reqed + 1 && h.stage == (ClientStage::Testing { slot: slot as int, from: 0 })
            } else {
                &&& h.made == s.reqed
                &&& {
                    ||| h.stage matches ClientStage::Posting { slot: i, comm: c, recv } && i == slot && c == comm
                        && !(s.slots[slot as int].sends[comm as int] is Some && s.slots[slot as int].recvs[comm as int] is Some)
                        && (recv ==> s.slots[slot as int].recvs[comm as int] is Some)
                    ||| comm == 0 && gone_to(setup, s.slots, h, slot as int) && !has_open(setup, s.slots[slot as int])
                }
            }
        },
        ClientPhase::PostRecv { slot, comm } => {
            let now = s.slots[slot as int];
            &&& busy_is_open(setup, s.slots, slot as int)
            &&& if now.sends[comm as int] is Some && now.recvs[comm as int] is Some {
                if comm + 1 < setup.comms {
                    h.made == s.reqed
                        && h.stage == (ClientStage::Posting { slot: slot as int, comm: comm + 1, recv: false })
                } else {
                    h.made == s.reqed + 1 && h.stage == (ClientStage::Testing { slot: slot as int, from: 0 })
                }
            } else {
                &&& h.made == s.reqed
                &&& h.stage matches ClientStage::Posting { slot: i, comm: c, recv } && i == slot && c == comm
                    && (!recv ==> now.sends[comm as int] is Some)
            }
        },
        ClientPhase::TestSend { slot, comm, all_done } => {
            &&& h.made == s.reqed
            &&& busy_is_open(setup, s.slots, slot as int)
            &&& tested_to(setup, s.slots, h, slot as int, 2 * comm)
            &&& all_done <==> shut(s.slots[slot as int], 0, 2 * comm)
        },
        ClientPhase::TestRecv { slot, comm, all_done } => {
            &&& h.made == s.reqed
            &&& busy_is_open(setup, s.slots, slot as int)
            &&& tested_to(setup, s.slots, h, slot as int, 2 * comm + 1)
            &&& all_done <==> shut(s.slots[slot as int], 0, 2 * comm)
        },
        ClientPhase::Done => {
            &&& h.made == s.reqed
            &&& over(setup, s.slots, h.made)
            &&& gone_to(setup, s.slots, h, setup.nreq as int)
        },
    }
}

/// What is open depends on the requests alone.
proof fn lemma_same_open<R>(setup: ClientSetup, a: Seq<SlotState<R>>, b: Seq<SlotState<R>>, made: nat)
    requires
        same_requests(a, b),
        a.len() == setup.nreq,
    ensures
        forall|i: int, q: int| 0 <= i < setup.nreq ==> #[trigger] open_at(a[i], q) == open_at(b[i], q),
        forall|i: int| 0 <= i < setup.nreq ==> #[trigger] has_open(setup, a[i]) == has_open(setup, b[i]),
        forall|i: int| 0 <= i < setup.nreq ==> #[trigger] eligible(setup, a, made, i) == eligible(setup, b, made, i),
        over(setup, a, made) == over(setup, b, made),
        forall|i: int, p: int, q: int| 0 <= i < setup.nreq ==> #[trigger] shut(a[i], p, q) == shut(b[i], p, q),
{
    assert forall|i: int, q: int| 0 <= i < setup.nreq implies #[trigger] open_at(a[i], q) == open_at(b[i], q) by {
        assert(a[i].sends == b[i].sends && a[i].recvs == b[i].recvs);
    }
    assert forall|i: int| 0 <= i < setup.nreq implies #[trigger] has_open(setup, a[i]) == has_open(setup, b[i]) by {
        if has_open(setup, a[i]) {
            let q = choose|q: int| 0 <= q < 2 * setup.comms && #[trigger] open_at(a[i], q);
            assert(open_at(b[i], q));
        }
        if has_open(setup, b[i]) {
            let q = choose|q: int| 0 <= q < 2 * setup.comms && #[trigger] open_at(b[i], q);
            assert(open_at(a[i], q));
        }
    }
    assert forall|i: int, p: int, q: int| 0 <= i < setup.nreq implies #[trigger] shut(a[i], p, q) == shut(b[i], p, q) by {
        if shut(a[i], p, q) {
            assert forall|k: int| p <= k < q implies !#[trigger] open_at(b[i], k) by {
                assert(!open_at(a[i], k));
            }
        }
        if shut(b[i], p, q) {
            assert forall|k: int| p <= k < q implies !#[trigger] open_at(a[i], k) by {
                assert(open_at(a[i], k) == open_at(b[i], k));
            }
        }
    }
    if over(setup, a, made) {
        assert forall|i: int| 0 <= i < setup.nreq implies !has_open(setup, #[trigger] b[i]) by {
            assert(!has_open(setup, a[i]));
        }
    }
    if over(setup, b, made) {
        assert forall|i: int| 0 <= i < setup.nreq implies !has_open(setup, #[trigger] a[i]) by {
            assert(!has_open(setup, b[i]));
        }
    }
}

/// Where the requests are the same, a client has gone as far through the slots.
proof fn lemma_same_gone<R>(setup: ClientSetup, a: Seq<SlotState<R>>, b: Seq<SlotState<R>>, h: ClientHistory, k: int)
    requires
        same_requests(a, b),
        a.len() == setup.nreq,
        0 <= k <= setup.nreq,
        gone_to(setup, a, h, k),
        stage_in::<R>(setup, h),
    ensures
        gone_to(setup, b, h, k),
{
    lemma_same_open(setup, a, b, h.made);
    match h.stage {
        ClientStage::Testing { slot, from } => {
            assert(shut(a[slot], from, 2 * setup.comms) == shut(b[slot], from, 2 * setup.comms));
        },
        _ => {},
    }
    let from = base(setup, a, h).unwrap();
    assert(from >= 0);
    if from <= k && none_eligible(setup, a, h.made, from, k) {
        assert forall|i: int| from <= i < k implies !#[trigger] eligible(setup, b, h.made, i) by {
            assert(!eligible(setup, a, h.made, i));
        }
    } else {
        assert forall|i: int| from <= i < setup.nreq implies !#[trigger] eligible(setup, b, h.made, i) by {
            assert(!eligible(setup, a, h.made, i));
        }
        assert forall|i: int| 0 <= i < k implies !#[trigger] eligible(setup, b, h.made, i) by {
            assert(!eligible(setup, a, h.made, i));
        }
    }
}

/// All requests are answered exactly when as many are finished as are to be made.
proof fn lemma_over<R>(setup: ClientSetup, s: ClientState<R>)
    requires
        setup.reached(s),
        busy_is_open(setup, s.slots, -1),
    ensures
        over(setup, s.slots, s.reqed as nat) <==> s.finished == setup.try_count,
{
    if over(setup, s.slots, s.reqed as nat) {
        assert forall|i: int| 0 <= i < s.slots.len() implies !(#[trigger] s.slots[i]).busy by {
            assert(!has_open(setup, s.slots[i]));
        }
        lemma_all_idle(s.slots);
    }
    if s.finished == setup.try_count {
        assert forall|i: int| 0 <= i < setup.nreq implies !has_open(setup, #[trigger] s.slots[i]) by {
            if s.slots[i].busy {
                lemma_busy_counted(s.slots, i);
            }
        }
    }
}

/// The slot that is tested is one of the slots.
spec fn stage_in<R>(setup: ClientSetup, h: ClientHistory) -> bool {
    match h.stage {
        ClientStage::Visiting { slot } => slot == 0,
        ClientStage::Posting { slot, .. } => 0 <= slot < setup.nreq,
        ClientStage::Testing { slot, .. } => 0 <= slot < setup.nreq,
    }
}

/// Going on without an outcome keeps state and history together.
#[verifier::rlimit(80)]
proof fn lemma_client_tied_continue<R>(setup: ClientSetup, s: ClientState<R>, h: ClientHistory)
    requires
        setup.comms > 0,
        setup.reached(s),
        stage_in::<R>(setup, h),
        client_tied(setup, s, h),
        setup.action(s) is Continue,
    ensures
        client_tied(setup, setup.next(s, ClientEvent::Continue), h),
{
    let t = setup.next(s, ClientEvent::Continue);
    law_client_slots(setup, s, ClientEvent::Continue);
    lemma_same_open(setup, s.slots, t.slots, h.made);
    match s.phase {
        ClientPhase::Visit { slot } => {
            if slot >= setup.nreq {
                lemma_over(setup, s);
            } else if !s.slots[slot as int].busy && s.reqed >= setup.try_count {
                assert(!eligible(setup, s.slots, h.made, slot as int));
            }
        },
        ClientPhase::PostSend { slot, comm } => {
            let i = slot as int;
            if comm < setup.comms {
                if comm == 0 && !has_open(setup, s.slots[i]) {
                    assert(!open_at(s.slots[i], 0));
                }
            } else {
                assert forall|k: int| 0 <= k < setup.nreq && k != i implies ((#[trigger] t.slots[k]).busy <==> has_open(
                    setup,
                    t.slots[k],
                )) by {
                    assert(s.slots[k].busy <==> has_open(setup, s.slots[k]));
                }
            }
        },
        ClientPhase::PostRecv { slot, comm } => {
            let i = slot as int;
            if comm + 1 < setup.comms {
                assert(s.slots[i].sends[comm + 1] is None);
            }
        },
        ClientPhase::TestSend { slot, comm, all_done } => {
            let i = slot as int;
            if comm < setup.comms {
                assert(!open_at(s.slots[i], 2 * comm));
            } else {
                assert forall|k: int| 0 <= k < setup.nreq implies ((#[trigger] t.slots[k]).busy <==> has_open(
                    setup,
                    t.slots[k],
                )) by {
                    if k == i {
                        if all_done {
                            if has_open(setup, s.slots[i]) {
                                let q = choose|q: int| 0 <= q < 2 * setup.comms && #[trigger] open_at(s.slots[i], q);
                                assert(!open_at(s.slots[i], q));
                            }
                        } else {
                            let q = choose|q: int| 0 <= q < 2 * comm && #[trigger] open_at(s.slots[i], q);
                            assert(open_at(s.slots[i], q));
                        }
                    } else {
                        assert(s.slots[k].busy <==> has_open(setup, s.slots[k]));
                    }
                }
                if has_open(setup, s.slots[i]) && shut(s.slots[i], 0, 2 * comm) {
                    let q = choose|q: int| 0 <= q < 2 * setup.comms && #[trigger] open_at(s.slots[i], q);
                    assert(!open_at(s.slots[i], q));
                }
                assert(base(setup, s.slots, h) == Some(slot + 1));
                assert(gone_to(setup, s.slots, h, slot + 1));
                lemma_same_gone(setup, s.slots, t.slots, h, slot + 1);
            }
        },
        ClientPhase::TestRecv { slot, comm, all_done } => {
            let i = slot as int;
            assert(open_at(s.slots[i], 2 * comm) == (s.slots[i].sends[comm as int] is Some));
            assert(!open_at(s.slots[i], 2 * comm + 1));
            if shut(s.slots[i], 0, 2 * comm + 2) {
                assert(!open_at(s.slots[i], 2 * comm));
                assert(shut(s.slots[i], 0, 2 * comm));
            }
        },
        _ => {},
    }
}

/// The outcome of a request that was asked for or tested keeps state and history together.
#[verifier::rlimit(80)]
proof fn lemma_client_tied_outcome<R>(setup: ClientSetup, s: ClientState<R>, h: ClientHistory, e: ClientEvent<R>)
    requires
        setup.comms > 0,
        setup.reached(s),
        stage_in::<R>(setup, h),
        client_tied(setup, s, h),
        answers(setup.action(s), e),
        !(setup.action(s) is Continue),
    ensures
        client_tied(setup, setup.next(s, e), h.with(setup, setup.action(s), setup.next(s, e).slots)),
{
    let t = setup.next(s, e);
    let g = h.with(setup, setup.action(s), t.slots);
    law_client_slots(setup, s, e);
    let i = match s.phase {
        ClientPhase::PostSend { slot, .. } => slot as int,
        ClientPhase::PostRecv { slot, .. } => slot as int,
        ClientPhase::TestSend { slot, .. } => slot as int,
        ClientPhase::TestRecv { slot, .. } => slot as int,
        _ => -1,
    };
    assert(0 <= i < setup.nreq);
    assert forall|k: int| 0 <= k < setup.nreq && k != i implies ((#[trigger] t.slots[k]).busy <==> has_open(
        setup,
        t.slots[k],
    )) by {
        assert(t.slots[k] == s.slots[k]);
    }
    match s.phase {
        ClientPhase::PostRecv { slot, comm } => {
            if comm + 1 < setup.comms {
                assert(s.slots[i].sends[comm + 1] is None);
            }
        },
        ClientPhase::TestSend { slot, comm, all_done } => {
            assert forall|q: int| 0 <= q < 2 * comm implies #[trigger] open_at(t.slots[i], q) == open_at(
                s.slots[i],
                q,
            ) by {
                assert(q / 2 < comm);
            }
            assert(shut(t.slots[i], 0, 2 * comm) <==> shut(s.slots[i], 0, 2 * comm)) by {
                if shut(s.slots[i], 0, 2 * comm) {
                    assert forall|q: int| 0 <= q < 2 * comm implies !#[trigger] open_at(t.slots[i], q) by {
                        assert(!open_at(s.slots[i], q));
                    }
                }
                if shut(t.slots[i], 0, 2 * comm) {
                    assert forall|q: int| 0 <= q < 2 * comm implies !#[trigger] open_at(s.slots[i], q) by {
                        assert(open_at(t.slots[i], q) == open_at(s.slots[i], q));
                    }
                }
            }
        },
        ClientPhase::TestRecv { slot, comm, all_done } => {
            assert forall|q: int| 0 <= q < 2 * comm implies #[trigger] open_at(t.slots[i], q) == open_at(
                s.slots[i],
                q,
            ) by {
                assert(q / 2 < comm);
            }
            assert(open_at(t.slots[i], 2 * comm) == (t.slots[i].sends[comm as int] is Some));
            assert(open_at(t.slots[i], 2 * comm + 1) == (t.slots[i].recvs[comm as int] is Some));
            let done = all_done && !(t.slots[i].sends[comm as int] is Some || t.slots[i].recvs[comm as int] is Some);
            if done {
                assert forall|q: int| 0 <= q < 2 * comm + 2 implies !#[trigger] open_at(t.slots[i], q) by {
                    if q < 2 * comm {
                        assert(!open_at(s.slots[i], q));
                    }
                }
            }
            if shut(t.slots[i], 0, 2 * comm + 2) {
                assert(!open_at(t.slots[i], 2 * comm));
                assert(!open_at(t.slots[i], 2 * comm + 1));
                assert forall|q: int| 0 <= q < 2 * comm implies !#[trigger] open_at(s.slots[i], q) by {
                    assert(open_at(t.slots[i], q) == open_at(s.slots[i], q));
                }
            }
            assert(done <==> shut(t.slots[i], 0, 2 * comm + 2));
        },
        _ => {},
    }
}

proof fn lemma_client_tied<R>(setup: ClientSetup, events: Seq<ClientEvent<R>>)
    requires
        setup.comms > 0,
    ensures
        setup.reached(client_after(setup, events)),
        stage_in::<R>(setup, client_history(setup, events)),
        client_tied(setup, client_after(setup, events), client_history(setup, events)),
    decreases events.len(),
{
    law_client_always_in_order(setup, events);
    if events.len() == 0 {
        let s = setup.start::<R>();
        assert forall|i: int| 0 <= i < setup.nreq implies !has_open(setup, #[trigger] s.slots[i]) by {
            assert forall|q: int| 0 <= q < 2 * setup.comms implies !#[trigger] open_at(s.slots[i], q) by {}
        }
    } else {
        let before = events.drop_last();
        let s = client_after(setup, before);
        let e = events.last();
        lemma_client_tied(setup, before);
        if !answers(setup.action(s), e) {
            law_client_unanswered(setup, s, e);
        } else if setup.action(s) is Continue {
            lemma_client_tied_continue(setup, s, client_history(setup, before));
        } else {
            law_client_slots(setup, s, e);
            lemma_client_tied_outcome(setup, s, client_history(setup, before), e);
        }
    }
}

/// Where a client has gone through the slots up to one for which there is something to do, that is
/// the slot that it comes to.
proof fn lemma_comes_to<R>(setup: ClientSetup, slots: Seq<SlotState<R>>, h: ClientHistory, i: int)
    requires
        gone_to(setup, slots, h, i),
        0 <= i < setup.nreq,
        eligible(setup, slots, h.made, i),
    ensures
        comes_to(setup, slots, h.made, base(setup, slots, h)->0, i),
        has_open(setup, slots[i]) ==> !over(setup, slots, h.made),
{
}

/// The first open request that a client has come to is due to be tested.
proof fn lemma_due_test<R>(setup: ClientSetup, slots: Seq<SlotState<R>>, h: ClientHistory, i: int, q: int)
    requires
        0 <= i < setup.nreq,
        0 <= q < 2 * setup.comms,
        tested_to(setup, slots, h, i, q),
        open_at(slots[i], q),
    ensures
        due(setup, slots, h, test_at(i, q)),
{
    let a = test_at(i, q);
    if h.stage matches ClientStage::Testing { slot: k, from } && k == i && from <= q && shut(slots[i], from, q) {
        assert(!shut(slots[i], h.stage->from, 2 * setup.comms));
        assert(tests_first(setup, slots, i, h.stage->from, a));
    } else {
        assert(eligible(setup, slots, h.made, i));
        lemma_comes_to(setup, slots, h, i);
        assert(tests_first(setup, slots, i, 0, a));
        let from = base(setup, slots, h)->0;
        assert(due_from(setup, slots, h.made, from, a));
    }
}

/// A new request is due on a slot without an open one that a client has come to.
proof fn lemma_due_post<R>(setup: ClientSetup, slots: Seq<SlotState<R>>, h: ClientHistory, i: int)
    requires
        0 <= i < setup.nreq,
        gone_to(setup, slots, h, i),
        !has_open(setup, slots[i]),
        h.made < setup.try_count,
    ensures
        due(setup, slots, h, ClientAction::PostSend { slot: i as usize, comm: 0 }),
{
    assert(eligible(setup, slots, h.made, i));
    lemma_comes_to(setup, slots, h, i);
    let from = base(setup, slots, h)->0;
    assert(due_from(setup, slots, h.made, from, ClientAction::PostSend { slot: i as usize, comm: 0 }));
}

/// What a client does next can be told from what was seen of it: it asks for the send and the
/// receive of a new request on one connection of the slot after the other, in turn until both are
/// granted; then, and whenever it comes to the slot again, it tests all open requests of the slot
/// once, in their order. The slots take their turns in a circle, and a slot without an open
/// request makes a new one as long as there are requests left to make. It ends after the last slot
/// when all requests are made and answered.
#[verifier::rlimit(60)]
pub proof fn law_client_next<R>(setup: ClientSetup, events: Seq<ClientEvent<R>>)
    requires
        setup.comms > 0,
        !(setup.action(client_after(setup, events)) is Continue),
    ensures
        due(
            setup,
            client_after(setup, events).slots,
            client_history(setup, events),
            setup.action(client_after(setup, events)),
        ),
{
    let s = client_after(setup, events);
    let h = client_history(setup, events);
    lemma_client_tied(setup, events);
    match s.phase {
        ClientPhase::PostSend { slot, comm } => {
            if !(h.stage is Posting) {
                lemma_due_post(setup, s.slots, h, slot as int);
            }
        },
        ClientPhase::TestSend { slot, comm, .. } => {
            assert(open_at(s.slots[slot as int], 2 * comm));
            lemma_due_test(setup, s.slots, h, slot as int, 2 * comm);
        },
        ClientPhase::TestRecv { slot, comm, .. } => {
            assert(open_at(s.slots[slot as int], 2 * comm + 1));
            lemma_due_test(setup, s.slots, h, slot as int, 2 * comm + 1);
        },
        ClientPhase::Done => {
            let from = base(setup, s.slots, h)->0;
            assert(due_from(setup, s.slots, h.made, from, ClientAction::Finish));
        },
        _ => {},
    }
}

/// There is one action only that is due.
pub proof fn law_client_one_due<R>(setup: ClientSetup, slots: Seq<SlotState<R>>, h: ClientHistory, a: ClientAction, b: ClientAction)
    requires
        due(setup, slots, h, a),
        due(setup, slots, h, b),
    ensures
        a == b,
{
    let from = match h.stage {
        ClientStage::Visiting { slot } => slot,
        ClientStage::Posting { .. } => 0,
        ClientStage::Testing { slot, .. } => slot + 1,
    };
    if due_from(setup, slots, h.made, from, a) && due_from(setup, slots, h.made, from, b) {
        lemma_one_due_from(setup, slots, h.made, from, a, b);
    }
    match h.stage {
        ClientStage::Testing { slot, from } => {
            if !shut(slots[slot], from, 2 * setup.comms) {
                lemma_one_test(setup, slots, slot, from, a, b);
            }
        },
        _ => {},
    }
}

proof fn lemma_one_test<R>(setup: ClientSetup, slots: Seq<SlotState<R>>, i: int, from: int, a: ClientAction, b: ClientAction)
    requires
        tests_first(setup, slots, i, from, a),
        tests_first(setup, slots, i, from, b),
    ensures
        a == b,
{
    let p = choose|q: int| {
        &&& from <= q < 2 * setup.comms
        &&& #[trigger] open_at(slots[i], q)
        &&& shut(slots[i], from, q)
        &&& a == test_at(i, q)
    };
    let q = choose|q: int| {
        &&& from <= q < 2 * setup.comms
        &&& #[trigger] open_at(slots[i], q)
        &&& shut(slots[i], from, q)
        &&& b == test_at(i, q)
    };
    if p < q {
        assert(!open_at(slots[i], p));
    }
    if q < p {
        assert(!open_at(slots[i], q));
    }
}

proof fn lemma_one_due_from<R>(setup: ClientSetup, slots: Seq<SlotState<R>>, made: nat, from: int, a: ClientAction, b: ClientAction)
    requires
        due_from(setup, slots, made, from, a),
        due_from(setup, slots, made, from, b),
    ensures
        a == b,
{
    if !(none_eligible(setup, slots, made, from, setup.nreq as int) && over(setup, slots, made)) {
        let i = choose|i: int| {
            &&& #[trigger] comes_to(setup, slots, made, from, i)
            &&& if has_open(setup, slots[i]) {
                tests_first(setup, slots, i, 0, a)
            } else {
                a == (ClientAction::PostSend { slot: i as usize, comm: 0 })
            }
        };
        let j = choose|i: int| {
            &&& #[trigger] comes_to(setup, slots, made, from, i)
            &&& if has_open(setup, slots[i]) {
                tests_first(setup, slots, i, 0, b)
            } else {
                b == (ClientAction::PostSend { slot: i as usize, comm: 0 })
            }
        };
        if i < j {
            assert(eligible(setup, slots, made, i));
            assert(eligible(setup, slots, made, j));
        }
        if j < i {
            assert(eligible(setup, slots, made, i));
            assert(eligible(setup, slots, made, j));
        }
        assert(i == j);
        if has_open(setup, slots[i]) {
            lemma_one_test(setup, slots, i, 0, a, b);
        }
    }
}

/// The state after a client has gone on `n` times without an outcome.
pub open spec fn client_paused<R>(setup: ClientSetup, s: ClientState<R>, n: nat) -> ClientState<R>
    decreases n,
{
    if n == 0 {
        s
    } else {
        client_paused(setup, setup.next(s, ClientEvent::Continue), (n - 1) as nat)
    }
}

/// How far a client is from having gone through all slots, and through all requests of a slot.
spec fn slots_left<R>(setup: ClientSetup, s: ClientState<R>) -> int {
    match s.phase {
        ClientPhase::Visit { slot } => 2 * (setup.nreq - slot) + 1,
        ClientPhase::PostSend { slot, .. } => 2 * (setup.nreq - slot) + 1,
        ClientPhase::PostRecv { slot, .. } => 2 * (setup.nreq - slot) + 1,
        ClientPhase::TestSend { slot, .. } => 2 * (setup.nreq - slot),
        ClientPhase::TestRecv { slot, .. } => 2 * (setup.nreq - slot),
        ClientPhase::Done => 0,
    }
}

spec fn places_left<R>(setup: ClientSetup, s: ClientState<R>) -> int {
    match s.phase {
        ClientPhase::PostSend { slot, comm } => if comm < setup.comms { 3 } else { 1 },
        ClientPhase::PostRecv { .. } => 2,
        ClientPhase::TestSend { comm, .. } => 2 * (setup.comms - comm) + 1,
        ClientPhase::TestRecv { comm, .. } => 2 * (setup.comms - comm),
        _ => 0,
    }
}

/// There is something to do before the client starts over with the first slot.
spec fn ahead<R>(setup: ClientSetup, s: ClientState<R>, made: nat) -> bool {
    match s.phase {
        ClientPhase::Visit { slot } => exists|i: int| slot <= i < setup.nreq && #[trigger] eligible(setup, s.slots, made, i),
        ClientPhase::TestSend { slot, comm, .. } => !shut(s.slots[slot as int], 2 * comm, 2 * setup.comms),
        ClientPhase::TestRecv { slot, comm, .. } => !shut(s.slots[slot as int], 2 * comm + 1, 2 * setup.comms),
        _ => true,
    }
}

#[verifier::rlimit(80)]
proof fn lemma_client_settles<R>(setup: ClientSetup, s: ClientState<R>, h: ClientHistory, over_once: nat) -> (n: nat)
    requires
        setup.comms > 0,
        setup.nreq > 0,
        setup.reached(s),
        stage_in::<R>(setup, h),
        client_tied(setup, s, h),
        over_once == 0 ==> ahead(setup, s, h.made),
    ensures
        !(setup.action(client_paused(setup, s, n)) is Continue),
    decreases over_once, slots_left(setup, s), places_left(setup, s),
{
    if setup.action(s) is Continue {
        let t = setup.next(s, ClientEvent::Continue);
        law_client_in_order(setup, s, ClientEvent::Continue);
        law_client_slots(setup, s, ClientEvent::Continue);
        lemma_client_tied_continue(setup, s, h);
        lemma_same_open(setup, s.slots, t.slots, h.made);
        if setup.action(t) is Continue {
            let left: nat = if s.phase matches ClientPhase::Visit { slot } && slot >= setup.nreq { 0 } else { over_once };
            match s.phase {
                ClientPhase::Visit { slot } => {
                    let k = slot as int;
                    if k >= setup.nreq {
                        lemma_over(setup, s);
                        if h.made < setup.try_count {
                            assert(eligible(setup, t.slots, h.made, 0));
                        } else {
                            let i = choose|i: int| 0 <= i < setup.nreq && has_open(setup, #[trigger] s.slots[i]);
                            assert(eligible(setup, t.slots, h.made, i));
                        }
                        if over_once == 0 {
                            let i = choose|i: int| slot <= i < setup.nreq && #[trigger] eligible(setup, s.slots, h.made, i);
                        }
                    } else if s.slots[k].busy {
                        let q = choose|q: int| 0 <= q < 2 * setup.comms && #[trigger] open_at(s.slots[k], q);
                        assert(open_at(t.slots[k], q));
                    } else if over_once == 0 {
                        let i = choose|i: int| slot <= i < setup.nreq && #[trigger] eligible(setup, s.slots, h.made, i);
                        assert(eligible(setup, t.slots, h.made, i));
                        assert(!eligible(setup, s.slots, h.made, k));
                    }
                },
                ClientPhase::TestSend { slot, comm, .. } => {
                    let k = slot as int;
                    if over_once == 0 {
                        let q = choose|q: int| 2 * comm <= q < 2 * setup.comms && #[trigger] open_at(s.slots[k], q);
                        assert(open_at(t.slots[k], q));
                        assert(comm < setup.comms);
                        assert(!open_at(s.slots[k], 2 * comm));
                    }
                },
                ClientPhase::TestRecv { slot, comm, .. } => {
                    let k = slot as int;
                    if over_once == 0 {
                        let q = choose|q: int| 2 * comm + 1 <= q < 2 * setup.comms && #[trigger] open_at(s.slots[k], q);
                        assert(open_at(t.slots[k], q));
                        assert(!open_at(s.slots[k], 2 * comm + 1));
                    }
                },
                ClientPhase::PostSend { slot, comm } => {
                    let k = slot as int;
                    if comm >= setup.comms {
                        assert(s.slots[k].sends[0] is Some);
                    }
                },
                _ => {},
            }
            let n = lemma_client_settles(setup, t, h, left);
            assert(client_paused(setup, s, n + 1) == client_paused(setup, t, n));
            n + 1
        } else {
            assert(client_paused(setup, s, 1) == client_paused(setup, t, 0));
            1
        }
    } else {
        0
    }
}

/// A client with slots and connections does not go on for ever without doing anything.
pub proof fn law_client_settles<R>(setup: ClientSetup, events: Seq<ClientEvent<R>>)
    requires
        setup.comms > 0,
        setup.nreq > 0,
    ensures
        exists|n: nat| !(setup.action(#[trigger] client_paused(setup, client_after(setup, events), n)) is Continue),
{
    lemma_client_tied(setup, events);
    let n = lemma_client_settles(setup, client_after(setup, events), client_history(setup, events), 1);
}

/// No slot is busy but one that has just made a request.
spec fn quiet<R>(setup: ClientSetup, s: ClientState<R>) -> bool {
    &&& forall|i: int| 0 <= i < setup.nreq && (#[trigger] s.slots[i]).busy ==> s.phase is TestSend
        && s.phase->TestSend_slot == i
    &&& s.phase matches ClientPhase::TestSend { all_done, .. } ==> all_done
    &&& setup.nreq == 0 ==> s.reqed == 0 && (s.phase is Visit || s.phase is Done)
}

proof fn lemma_quiet<R>(setup: ClientSetup, events: Seq<ClientEvent<R>>)
    requires
        setup.comms == 0 || setup.nreq == 0,
    ensures
        setup.reached(client_after(setup, events)),
        quiet(setup, client_after(setup, events)),
    decreases events.len(),
{
    law_client_always_in_order(setup, events);
    if events.len() > 0 {
        lemma_quiet(setup, events.drop_last());
    }
}

/// A client without slots or connections asks for nothing and tests nothing. Without slots it does
/// not end when there are requests to make.
pub proof fn law_client_without<R>(setup: ClientSetup, events: Seq<ClientEvent<R>>)
    requires
        setup.comms == 0 || setup.nreq == 0,
    ensures
        ({
            let a = setup.action(client_after(setup, events));
            &&& a is Continue || a is Finish
            &&& setup.nreq == 0 && setup.try_count > 0 ==> a is Continue
        }),
{
    lemma_quiet(setup, events);
}

/// How far such a client is from having gone through all slots.
spec fn turns_left<R>(setup: ClientSetup, s: ClientState<R>) -> int {
    match s.phase {
        ClientPhase::Visit { slot } => 3 * (setup.nreq - slot) + 3,
        ClientPhase::PostSend { slot, .. } => 3 * (setup.nreq - slot) + 2,
        ClientPhase::TestSend { slot, .. } => 3 * (setup.nreq - slot) + 1,
        _ => 0,
    }
}

proof fn lemma_client_without_ends<R>(setup: ClientSetup, s: ClientState<R>, over_once: nat) -> (n: nat)
    requires
        setup.comms == 0 || setup.nreq == 0,
        setup.nreq > 0 || setup.try_count == 0,
        setup.reached(s),
        quiet(setup, s),
        over_once == 0 ==> s.phase is Done || (s.reqed < setup.try_count && (s.phase == (ClientPhase::Visit { slot: 0 })
            || s.phase is PostSend)),
    ensures
        setup.action(client_paused(setup, s, n)) is Finish,
    decreases setup.try_count - s.reqed, over_once, turns_left(setup, s),
{
    if s.phase is Done {
        0
    } else {
        let t = setup.next(s, ClientEvent::Continue);
        law_client_in_order(setup, s, ClientEvent::Continue);
        if !(s.phase is TestSend) {
            lemma_all_idle(s.slots);
        }
        let left: nat = match s.phase {
            ClientPhase::Visit { slot } if slot >= setup.nreq => 0,
            ClientPhase::PostSend { .. } => 1,
            _ => over_once,
        };
        let n = lemma_client_without_ends(setup, t, left);
        assert(client_paused(setup, s, n + 1) == client_paused(setup, t, n));
        n + 1
    }
}

/// A client without connections ends, and so does one without slots when there are no requests to
/// make.
pub proof fn law_client_without_ends<R>(setup: ClientSetup, events: Seq<ClientEvent<R>>)
    requires
        setup.comms == 0 || setup.nreq == 0,
        setup.nreq > 0 || setup.try_count == 0,
    ensures
        exists|n: nat| setup.action(#[trigger] client_paused(setup, client_after(setup, events), n)) is Finish,
{
    lemma_quiet(setup, events);
    let n = lemma_client_without_ends(setup, client_after(setup, events), 1);
}

} // verus!
