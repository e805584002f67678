//! How two peers that share a byte stream exchange the handles of their network endpoints and
//! then connect these in both directions.
//!
//! A handle travels behind its length, which is written as four bytes, lowest first. The side
//! that listens speaks first; the side that dials reads the handle of the listener before it
//! sends its own.

use vstd::prelude::*;

verus! {

/// The number that four bytes stand for, lowest first.
pub open spec fn number_of(b: Seq<u8>) -> int {
    b[0] + 0x100 * b[1] + 0x1_0000 * b[2] + 0x100_0000 * b[3]
}

/// The four lowest bytes of a number, lowest first.
pub open spec fn four_bytes(n: int) -> Seq<u8> {
    seq![
        (n % 0x100) as u8,
        (n / 0x100 % 0x100) as u8,
        (n / 0x1_0000 % 0x100) as u8,
        (n / 0x100_0000 % 0x100) as u8,
    ]
}

/// A handle behind its length.
pub open spec fn framed(handle: Seq<u8>) -> Seq<u8> {
    four_bytes(handle.len() as int) + handle
}

/// The length prefix of a handle of `len` bytes. Of a length that needs more than 32 bits, the
/// lowest 32 are written.
pub fn size_bytes(len: usize) -> (b: [u8; 4])
    ensures
        b@ == four_bytes(len as int),
        number_of(b@) == len as int % 0x1_0000_0000,
{
    let n: u64 = len as u64;
    let b: [u8; 4] = [
        (n % 0x100) as u8,
        (n / 0x100 % 0x100) as u8,
        (n / 0x1_0000 % 0x100) as u8,
        (n / 0x100_0000 % 0x100) as u8,
    ];
    proof {
        assert(b@ =~= four_bytes(len as int));
        lemma_number_of_four_bytes(len as int);
    }
    b
}

/// The length that a prefix announces.
pub fn size_of_bytes(b: [u8; 4]) -> (size: u32)
    ensures
        size == number_of(b@),
{
    let b0: u32 = b[0] as u32;
    let b1: u32 = b[1] as u32;
    let b2: u32 = b[2] as u32;
    let b3: u32 = b[3] as u32;
    b0 + 0x100 * b1 + 0x1_0000 * b2 + 0x100_0000 * b3
}

/// The bytes to send for a handle.
pub fn frame(handle: &Vec<u8>) -> (bytes: Vec<u8>)
    ensures
        bytes@ == framed(handle@),
{
    let size: [u8; 4] = size_bytes(handle.len());
    let mut bytes: Vec<u8> = Vec::new();
    bytes.push(size[0]);
    bytes.push(size[1]);
    bytes.push(size[2]);
    bytes.push(size[3]);
    for i in 0..handle.len()
        invariant
            bytes@ == four_bytes(handle@.len() as int) + handle@.take(i as int),
    {
        bytes.push(handle[i]);
        assert(handle@.take(i + 1) =~= handle@.take(i as int).push(handle@[i as int]));
    }
    assert(handle@.take(handle@.len() as int) =~= handle@);
    bytes
}

proof fn lemma_number_of_four_bytes(n: int)
    requires
        n >= 0,
    ensures
        number_of(four_bytes(n)) == n % 0x1_0000_0000,
{
    let q1 = n / 0x100;
    let q2 = n / 0x1_0000;
    let q3 = n / 0x100_0000;
    let q4 = n / 0x1_0000_0000;
    assert(q2 == q1 / 0x100);
    assert(q3 == q2 / 0x100);
    assert(q4 == q3 / 0x100);
}

/// What is read of a frame, its length first and then as many bytes, is the handle that was
/// sent, and nothing of the frame is left.
pub proof fn law_frame_read_back(handle: Seq<u8>)
    requires
        handle.len() < 0x1_0000_0000,
    ensures
        number_of(framed(handle).take(4)) == handle.len(),
        framed(handle).skip(4) == handle,
{
    lemma_number_of_four_bytes(handle.len() as int);
    assert(framed(handle).take(4) =~= four_bytes(handle.len() as int));
    assert(framed(handle).skip(4) =~= handle);
}

/// Which part a peer plays.
#[derive(Clone, Copy, Debug, PartialEq, Eq, Structural)]
pub enum Role {
    /// Has accepted the stream, and speaks first.
    Listener,
    /// Has opened the stream, and reads first.
    Dialer,
}

/// Where a handshake stands.
#[derive(Clone, Copy, Debug)]
pub enum HandshakePhase {
    /// Opening an endpoint of its own.
    Listen,
    /// Sending the handle of its endpoint.
    SendFrame,
    /// Reading how long the peer's handle is.
    ReadSize,
    /// Reading the peer's handle.
    ReadHandle { size: u32 },
    /// Connecting to the peer's endpoint.
    Connect,
    /// Accepting the peer's connection.
    Accept,
    /// Connected in both directions.
    Done,
}

/// What a peer does next.
#[derive(Clone, Copy, Debug)]
pub enum HandshakeAction {
    /// Nothing but to go on.
    Continue,
    /// Open an endpoint.
    Listen,
    /// Send the frame of the endpoint's handle.
    SendFrame,
    /// Read the four bytes of a length.
    ReadSize,
    /// Read a handle of `size` bytes.
    ReadHandle { size: u32 },
    /// Try to connect to the peer's endpoint.
    Connect,
    /// Try to accept the peer's connection.
    Accept,
    /// End the handshake.
    Finish,
}

/// What came of an action.
pub enum HandshakeEvent<C> {
    /// The action is through; it has no outcome to tell.
    Continue,
    /// The handle of the new endpoint.
    Listened(Vec<u8>),
    /// The bytes of a length.
    Size([u8; 4]),
    /// The peer's handle.
    Handle(Vec<u8>),
    /// The connection to the peer, if it stands.
    Connected(Option<C>),
    /// The connection from the peer, if it stands.
    Accepted(Option<C>),
}

/// The state of a handshake.
pub struct HandshakeState<C> {
    pub phase: HandshakePhase,
    /// The handle of the peer's own endpoint.
    pub own: Seq<u8>,
    /// The handle of the other peer's endpoint.
    pub peer: Seq<u8>,
    /// The connection on which it sends.
    pub send: Option<C>,
    /// The connection on which it receives.
    pub recv: Option<C>,
}

impl<C> HandshakeState<C> {
    /// The connections on which the peer sends and receives, once the handshake is done.
    pub open spec fn comms(self) -> Option<(C, C)> {
        match self.phase {
            HandshakePhase::Done => Some((self.send->0, self.recv->0)),
            _ => None,
        }
    }
}

impl Role {
    /// The state in which a handshake starts.
    pub open spec fn start<C>(self) -> HandshakeState<C> {
        HandshakeState {
            phase: match self {
                Role::Listener => HandshakePhase::Listen,
                Role::Dialer => HandshakePhase::ReadSize,
            },
            own: Seq::empty(),
            peer: Seq::empty(),
            send: None,
            recv: None,
        }
    }

    /// What a peer in state `s` does next.
    pub open spec fn action<C>(self, s: HandshakeState<C>) -> HandshakeAction {
        match s.phase {
            HandshakePhase::Listen => HandshakeAction::Listen,
            HandshakePhase::SendFrame => HandshakeAction::SendFrame,
            HandshakePhase::ReadSize => HandshakeAction::ReadSize,
            HandshakePhase::ReadHandle { size } => HandshakeAction::ReadHandle { size },
            HandshakePhase::Connect =>
                if s.send is None { HandshakeAction::Connect } else { HandshakeAction::Continue },
            HandshakePhase::Accept =>
                if s.recv is None { HandshakeAction::Accept } else { HandshakeAction::Continue },
            HandshakePhase::Done => HandshakeAction::Finish,
        }
    }

    /// The state after both directions have been tried: done when both stand.
    pub open spec fn after_tries<C>(self, s: HandshakeState<C>) -> HandshakeState<C> {
        HandshakeState {
            phase: if s.send is Some && s.recv is Some { HandshakePhase::Done } else { HandshakePhase::Connect },
            ..s
        }
    }

    /// The state that follows `s` when `e` came of its action. An event that does not answer the
    /// action changes nothing.
    pub open spec fn next<C>(self, s: HandshakeState<C>, e: HandshakeEvent<C>) -> HandshakeState<C> {
        match (s.phase, e) {
            (HandshakePhase::Listen, HandshakeEvent::Listened(handle)) =>
                HandshakeState { phase: HandshakePhase::SendFrame, own: handle@, ..s },
            (HandshakePhase::SendFrame, HandshakeEvent::Continue) => HandshakeState {
                phase: match self {
                    Role::Listener => HandshakePhase::ReadSize,
                    Role::Dialer => HandshakePhase::Connect,
                },
                ..s
            },
            (HandshakePhase::ReadSize, HandshakeEvent::Size(bytes)) =>
                HandshakeState { phase: HandshakePhase::ReadHandle { size: number_of(bytes@) as u32 }, ..s },
            (HandshakePhase::ReadHandle { size }, HandshakeEvent::Handle(handle)) => HandshakeState {
                phase: match self {
                    Role::Listener => HandshakePhase::Connect,
                    Role::Dialer => HandshakePhase::Listen,
                },
                peer: handle@,
                ..s
            },
            (HandshakePhase::Connect, HandshakeEvent::Connected(c)) if s.send is None =>
                HandshakeState { phase: HandshakePhase::Accept, send: c, ..s },
            (HandshakePhase::Connect, HandshakeEvent::Continue) if s.send is Some =>
                HandshakeState { phase: HandshakePhase::Accept, ..s },
            (HandshakePhase::Accept, HandshakeEvent::Accepted(c)) if s.recv is None =>
                self.after_tries(HandshakeState { recv: c, ..s }),
            (HandshakePhase::Accept, HandshakeEvent::Continue) if s.recv is Some => self.after_tries(s),
            _ => s,
        }
    }
}

/// A handshake, holding the connections that stand.
pub struct Handshake<C> {
    role: Role,
    phase: HandshakePhase,
    own: Vec<u8>,
    peer: Vec<u8>,
    send: Option<C>,
    recv: Option<C>,
}

impl<C> View for Handshake<C> {
    type V = HandshakeState<C>;

    closed spec fn view(&self) -> HandshakeState<C> {
        HandshakeState {
            phase: self.phase,
            own: self.own@,
            peer: self.peer@,
            send: self.send,
            recv: self.recv,
        }
    }
}

impl<C> Handshake<C> {
    /// Which part the peer plays.
    pub closed spec fn role(&self) -> Role {
        self.role
    }

    /// A handshake is done only once both connections stand.
    pub open spec fn wf(&self) -> bool {
        self@.phase is Done ==> self@.send is Some && self@.recv is Some
    }

    /// A handshake at its start.
    pub fn new(role: Role) -> (this: Self)
        ensures
            this.wf(),
            this.role() == role,
            this@ == role.start::<C>(),
            this@ == handshake_after(role, Seq::<HandshakeEvent<C>>::empty()),
    {
        let phase = match role {
            Role::Listener => HandshakePhase::Listen,
            Role::Dialer => HandshakePhase::ReadSize,
        };
        Handshake { role, phase, own: Vec::new(), peer: Vec::new(), send: None, recv: None }
    }

    /// What the peer does next.
    pub fn action(&self) -> (a: HandshakeAction)
        ensures
            a == self.role().action(self@),
    {
        match self.phase {
            HandshakePhase::Listen => HandshakeAction::Listen,
            HandshakePhase::SendFrame => HandshakeAction::SendFrame,
            HandshakePhase::ReadSize => HandshakeAction::ReadSize,
            HandshakePhase::ReadHandle { size } => HandshakeAction::ReadHandle { size },
            HandshakePhase::Connect => {
                if self.send.is_none() { HandshakeAction::Connect } else { HandshakeAction::Continue }
            },
            HandshakePhase::Accept => {
                if self.recv.is_none() { HandshakeAction::Accept } else { HandshakeAction::Continue }
            },
            HandshakePhase::Done => HandshakeAction::Finish,
        }
    }

    /// The bytes that announce the peer's own endpoint.
    pub fn own_frame(&self) -> (bytes: Vec<u8>)
        ensures
            bytes@ == framed(self@.own),
    {
        frame(&self.own)
    }

    /// The handle of the other peer's endpoint.
    pub fn peer_handle(&self) -> (handle: &Vec<u8>)
        ensures
            handle@ == self@.peer,
    {
        &self.peer
    }

    /// Takes note of what came of the action.
    pub fn step(&mut self, event: HandshakeEvent<C>)
        requires
            old(self).wf(),
        ensures
            final(self).wf(),
            final(self).role() == old(self).role(),
            final(self)@ == old(self).role().next(old(self)@, event),
    {
        match event {
            HandshakeEvent::Continue => match self.phase {
                HandshakePhase::SendFrame => {
                    self.phase = match self.role {
                        Role::Listener => HandshakePhase::ReadSize,
                        Role::Dialer => HandshakePhase::Connect,
                    };
                },
                HandshakePhase::Connect => {
                    if self.send.is_some() {
                        self.phase = HandshakePhase::Accept;
                    }
                },
                HandshakePhase::Accept => {
                    if self.recv.is_some() {
                        self.look_again();
                    }
                },
                _ => {},
            },
            HandshakeEvent::Listened(handle) => {
                if let HandshakePhase::Listen = self.phase {
                    self.own = handle;
                    self.phase = HandshakePhase::SendFrame;
                }
            },
            HandshakeEvent::Size(bytes) => {
                if let HandshakePhase::ReadSize = self.phase {
                    self.phase = HandshakePhase::ReadHandle { size: size_of_bytes(bytes) };
                }
            },
            HandshakeEvent::Handle(handle) => {
                if let HandshakePhase::ReadHandle { .. } = self.phase {
                    self.peer = handle;
                    self.phase = match self.role {
                        Role::Listener => HandshakePhase::Connect,
                        Role::Dialer => HandshakePhase::Listen,
                    };
                }
            },
            HandshakeEvent::Connected(c) => {
                if let HandshakePhase::Connect = self.phase {
                    if self.send.is_none() {
                        self.send = c;
                        self.phase = HandshakePhase::Accept;
                    }
                }
            },
            HandshakeEvent::Accepted(c) => {
                if let HandshakePhase::Accept = self.phase {
                    if self.recv.is_none() {
                        self.recv = c;
                        self.look_again();
                    }
                }
            },
        }
    }

    /// Looks whether both connections stand, once both were tried.
    fn look_again(&mut self)
        ensures
            final(self).role() == old(self).role(),
            final(self)@ == old(self).role().after_tries(old(self)@),
    {
        self.phase = if self.send.is_some() && self.recv.is_some() {
            HandshakePhase::Done
        } else {
            HandshakePhase::Connect
        };
    }

    /// The connections on which the peer sends and receives, once the handshake is done.
    pub fn into_comms(self) -> (comms: Option<(C, C)>)
        requires
            self.wf(),
        ensures
            comms == match self@.phase {
                HandshakePhase::Done => Some((self@.send->0, self@.recv->0)),
                _ => None,
            },
            comms == self@.comms(),
    {
        match self.phase {
            HandshakePhase::Done => match (self.send, self.recv) {
                (Some(s), Some(r)) => Some((s, r)),
                _ => None,
            },
            _ => None,
        }
    }
}

/// When a listener and a dialer each read what the other sends, each ends up with the other's
/// handle and goes on to connect: the listener sends while the dialer reads, then the dialer
/// sends while the listener reads.
pub proof fn law_handles_exchanged<C>(
    of_listener: Vec<u8>,
    of_dialer: Vec<u8>,
    size_from_listener: [u8; 4],
    read_from_listener: Vec<u8>,
    size_from_dialer: [u8; 4],
    read_from_dialer: Vec<u8>,
)
    requires
        of_listener@.len() < 0x1_0000_0000,
        of_dialer@.len() < 0x1_0000_0000,
        size_from_listener@ == framed(of_listener@).take(4),
        read_from_listener@ == framed(of_listener@).skip(4).take(number_of(size_from_listener@)),
        size_from_dialer@ == framed(of_dialer@).take(4),
        read_from_dialer@ == framed(of_dialer@).skip(4).take(number_of(size_from_dialer@)),
    ensures
        ({
            let l0 = Role::Listener.start::<C>();
            let l1 = Role::Listener.next(l0, HandshakeEvent::Listened(of_listener));
            let l2 = Role::Listener.next(l1, HandshakeEvent::Continue);
            let l3 = Role::Listener.next(l2, HandshakeEvent::Size(size_from_dialer));
            let l4 = Role::Listener.next(l3, HandshakeEvent::Handle(read_from_dialer));
            let d0 = Role::Dialer.start::<C>();
            let d1 = Role::Dialer.next(d0, HandshakeEvent::Size(size_from_listener));
            let d2 = Role::Dialer.next(d1, HandshakeEvent::Handle(read_from_listener));
            let d3 = Role::Dialer.next(d2, HandshakeEvent::Listened(of_dialer));
            let d4 = Role::Dialer.next(d3, HandshakeEvent::Continue);
            &&& Role::Listener.action(l0) == HandshakeAction::Listen
            &&& Role::Listener.action(l1) == HandshakeAction::SendFrame && l1.own == of_listener@
            &&& Role::Dialer.action(d0) == HandshakeAction::ReadSize
            &&& Role::Dialer.action(d1) == (HandshakeAction::ReadHandle { size: of_listener@.len() as u32 })
            &&& Role::Dialer.action(d2) == HandshakeAction::Listen
            &&& Role::Dialer.action(d3) == HandshakeAction::SendFrame && d3.own == of_dialer@
            &&& Role::Listener.action(l2) == HandshakeAction::ReadSize
            &&& Role::Listener.action(l3) == (HandshakeAction::ReadHandle { size: of_dialer@.len() as u32 })
            &&& Role::Listener.action(l4) == HandshakeAction::Connect && l4.peer == of_dialer@
            &&& Role::Dialer.action(d4) == HandshakeAction::Connect && d4.peer == of_listener@
        }),
{
    law_frame_read_back(of_listener@);
    law_frame_read_back(of_dialer@);
    assert(read_from_listener@ =~= of_listener@);
    assert(read_from_dialer@ =~= of_dialer@);
}

/// The state after `events` have come of the actions of a peer, one after the other.
pub open spec fn handshake_after<C>(role: Role, events: Seq<HandshakeEvent<C>>) -> HandshakeState<C>
    decreases events.len(),
{
    if events.len() == 0 {
        role.start()
    } else {
        role.next(handshake_after(role, events.drop_last()), events.last())
    }
}

/// The event is of the kind that comes of the action.
pub open spec fn answers<C>(a: HandshakeAction, e: HandshakeEvent<C>) -> bool {
    match a {
        HandshakeAction::Listen => e is Listened,
        HandshakeAction::ReadSize => e is Size,
        HandshakeAction::ReadHandle { .. } => e is Handle,
        HandshakeAction::Connect => e is Connected,
        HandshakeAction::Accept => e is Accepted,
        HandshakeAction::Finish => false,
        _ => e is Continue,
    }
}

/// An event that is not of the kind that comes of the action changes nothing.
pub proof fn law_handshake_unanswered<C>(role: Role, s: HandshakeState<C>, e: HandshakeEvent<C>)
    requires
        !answers(role.action(s), e),
    ensures
        role.next(s, e) == s,
{
}

/// What can be seen of a peer from outside: what it was answered.
pub struct HandshakeHistory<C> {
    /// The handle of its own endpoint.
    pub own: Option<Seq<u8>>,
    /// That handle was sent.
    pub sent: bool,
    /// The bytes of the length of the other handle.
    pub size: Option<Seq<u8>>,
    /// The other handle.
    pub peer: Option<Seq<u8>>,
    /// The first connection that came of trying to connect.
    pub connected: Option<C>,
    /// The first connection that came of trying to accept.
    pub accepted: Option<C>,
    /// The last try was to connect.
    pub connecting: bool,
}

impl<C> HandshakeHistory<C> {
    /// The history in which event `e` came of action `a` next.
    pub open spec fn with(self, a: HandshakeAction, e: HandshakeEvent<C>) -> HandshakeHistory<C> {
        match (a, e) {
            (HandshakeAction::Listen, HandshakeEvent::Listened(handle)) =>
                HandshakeHistory { own: Some(handle@), ..self },
            (HandshakeAction::SendFrame, HandshakeEvent::Continue) => HandshakeHistory { sent: true, ..self },
            (HandshakeAction::ReadSize, HandshakeEvent::Size(bytes)) =>
                HandshakeHistory { size: Some(bytes@), ..self },
            (HandshakeAction::ReadHandle { .. }, HandshakeEvent::Handle(handle)) =>
                HandshakeHistory { peer: Some(handle@), ..self },
            (HandshakeAction::Connect, HandshakeEvent::Connected(c)) => HandshakeHistory {
                connected: if self.connected is Some { self.connected } else { c },
                connecting: true,
                ..self
            },
            (HandshakeAction::Accept, HandshakeEvent::Accepted(c)) => HandshakeHistory {
                accepted: if self.accepted is Some { self.accepted } else { c },
                connecting: false,
                ..self
            },
            _ => self,
        }
    }
}

/// What was seen of a peer while `events` came of its actions.
pub open spec fn handshake_history<C>(role: Role, events: Seq<HandshakeEvent<C>>) -> HandshakeHistory<C>
    decreases events.len(),
{
    if events.len() == 0 {
        HandshakeHistory {
            own: None,
            sent: false,
            size: None,
            peer: None,
            connected: None,
            accepted: None,
            connecting: false,
        }
    } else {
        let before = events.drop_last();
        handshake_history(role, before).with(role.action(handshake_after(role, before)), events.last())
    }
}

/// How the state of a peer and its history belong together.
spec fn handshake_tied<C>(role: Role, s: HandshakeState<C>, h: HandshakeHistory<C>) -> bool {
    let told = role == Role::Listener;
    let handles = h.own is Some && h.sent && h.size is Some && h.peer is Some;
    &&& s.own == (if h.own is Some { h.own->0 } else { Seq::empty() })
    &&& s.peer == (if h.peer is Some { h.peer->0 } else { Seq::empty() })
    &&& s.send == h.connected
    &&& s.recv == h.accepted
    &&& !handles ==> h.connected is None && h.accepted is None && !h.connecting
    &&& match s.phase {
        HandshakePhase::Listen => h.own is None && !h.sent
            && if told { h.size is None && h.peer is None } else { h.size is Some && h.peer is Some },
        HandshakePhase::SendFrame => h.own is Some && !h.sent
            && if told { h.size is None && h.peer is None } else { h.size is Some && h.peer is Some },
        HandshakePhase::ReadSize => h.size is None && h.peer is None
            && if told { h.own is Some && h.sent } else { h.own is None && !h.sent },
        HandshakePhase::ReadHandle { size } => h.size is Some && size == number_of(h.size->0) && h.peer is None
            && if told { h.own is Some && h.sent } else { h.own is None && !h.sent },
        HandshakePhase::Connect => handles && !(h.connected is Some && h.accepted is Some)
            && (h.connecting ==> h.accepted is Some),
        HandshakePhase::Accept => handles && (!h.connecting ==> h.connected is Some),
        HandshakePhase::Done => handles && h.connected is Some && h.accepted is Some,
    }
}

proof fn lemma_handshake_tied<C>(role: Role, events: Seq<HandshakeEvent<C>>)
    ensures
        handshake_tied(role, handshake_after(role, events), handshake_history(role, events)),
    decreases events.len(),
{
    if events.len() > 0 {
        let before = events.drop_last();
        lemma_handshake_tied(role, before);
        if let HandshakeEvent::Size(bytes) = events.last() {
            let b = bytes@;
            assert(0 <= number_of(b) <= u32::MAX);
        }
    }
}

/// What a peer does next can be told from what it was answered. A listener opens its endpoint and
/// sends its handle before it reads that of the dialer, and a dialer the other way round. Of a
/// handle it reads as many bytes as the length before it says, the lowest byte of which comes
/// first. Then it tries to connect and to accept in turn, each until it has succeeded.
pub proof fn law_handshake_next<C>(role: Role, events: Seq<HandshakeEvent<C>>)
    ensures
        ({
            let h = handshake_history(role, events);
            let a = role.action(handshake_after(role, events));
            let reads = h.peer is None && (role == Role::Dialer || h.sent);
            if reads {
                match h.size {
                    None => a == HandshakeAction::ReadSize,
                    Some(b) => a matches HandshakeAction::ReadHandle { size }
                        && size == b[0] + 256 * (b[1] + 256 * (b[2] + 256 * b[3])),
                }
            } else if h.own is None {
                a == HandshakeAction::Listen
            } else if !h.sent {
                a == HandshakeAction::SendFrame
            } else if h.connected is Some && h.accepted is Some {
                a == HandshakeAction::Finish || a == HandshakeAction::Continue
            } else if h.accepted is Some || (h.connected is None && !h.connecting) {
                a == HandshakeAction::Connect || (a == HandshakeAction::Continue && h.accepted is Some)
            } else {
                a == HandshakeAction::Accept || (a == HandshakeAction::Continue && h.connected is Some)
            }
        }),
{
    lemma_handshake_tied(role, events);
}

/// A peer that goes on without doing anything does something next.
pub proof fn law_handshake_settles<C>(role: Role, events: Seq<HandshakeEvent<C>>)
    ensures
        ({
            let s = handshake_after(role, events);
            let t = role.next(s, HandshakeEvent::Continue);
            role.action(s) == HandshakeAction::Continue ==> role.action(t) != HandshakeAction::Continue
        }),
{
    lemma_handshake_tied(role, events);
}

/// In either role, the handle that a peer sends is that of its own endpoint and the handle that it
/// connects to is the one that it has read; and when it is done, it sends on the first connection
/// that came of connecting and receives on the first that came of accepting.
pub proof fn law_handshake_outcome<C>(role: Role, events: Seq<HandshakeEvent<C>>)
    ensures
        ({
            let h = handshake_history(role, events);
            let s = handshake_after(role, events);
            &&& h.own is Some ==> s.own == h.own->0
            &&& h.peer is Some ==> s.peer == h.peer->0
            &&& s.comms() == if role.action(s) == HandshakeAction::Finish {
                Some((h.connected->0, h.accepted->0))
            } else {
                None
            }
            &&& role.action(s) == HandshakeAction::Finish ==> h.connected is Some && h.accepted is Some
        }),
{
    lemma_handshake_tied(role, events);
}

/// The bytes of a length are its digits to the base 256, lowest first, and no other four bytes
/// stand for it.
pub proof fn law_lowest_first(n: int, b: Seq<u8>)
    requires
        0 <= n < 0x1_0000_0000,
        b.len() == 4,
    ensures
        four_bytes(n).len() == 4,
        four_bytes(n) == b <==> n == b[0] + 256 * (b[1] + 256 * (b[2] + 256 * b[3])),
        number_of(b) == n <==> four_bytes(n) == b,
{
    lemma_number_of_four_bytes(n);
    let f = four_bytes(n);
    assert(n == f[0] + 256 * (f[1] + 256 * (f[2] + 256 * f[3])));
    if n == b[0] + 256 * (b[1] + 256 * (b[2] + 256 * b[3])) {
        assert(f[0] == b[0]);
        assert(f[1] == b[1]);
        assert(f[2] == b[2]);
        assert(f[3] == b[3]);
        assert(f =~= b);
    }
}

} // verus!
