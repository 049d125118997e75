//! The challenge behaviour: the process-wide commit-reveal state machine.
//!
//! Per peer there are two independent slots: the outbound challenge (this
//! side is the challenger; the slot holds the preimage behind the sent
//! commitment) and the inbound challenge (the peer is the challenger; the
//! slot holds the peer's commitment and, once accepted, this side's random
//! bytes). Local commands and decoded inbound frames drive the slots and
//! append actions to a queue that the overlay runtime drains through
//! [`Ipchess::poll`].
//!
//! Every mutation is specified against a pure step function over
//! [`IpchessView`]; the step functions are in turn what the protocol laws
//! at the end of this file are proved from.

use vstd::prelude::*;

use crate::crypto::SECRET_LEN;
use crate::crypto::bytes_eq;
use crate::crypto::random_bytes;
use crate::crypto::sha256;
use crate::crypto::sha256_digest;
use crate::codec::clone_bytes;
use crate::handler::HandlerInView;
use crate::handler::HandlerOutView;
use crate::handler::IpchessHandler;
use crate::handler::IpchessHandlerEventIn;
use crate::handler::IpchessHandlerEventOut;
use crate::peer_table::PeerTable;
use crate::peer_table::table_view;
use crate::peer_table::lemma_table_view_remove;

verus! {

/// Default time an outbound challenge waits for the peer's acceptance:
/// five minutes.
pub const DEFAULT_CHALLENGE_ACCEPT_TIMEOUT_MS: u64 = 300000;

/// Default time an accepted inbound challenge waits for the peer's
/// preimage: fifteen seconds.
pub const DEFAULT_CHALLENGE_PREIMAGE_TIMEOUT_MS: u64 = 15000;

// ---------------------------------------------------------------------
// State, events and actions
// ---------------------------------------------------------------------

/// Challenge sent to a peer: the preimage behind the sent commitment.
pub struct OutboundChallenge {
    preimage: Vec<u8>,
    commitment: Vec<u8>,
    sent_at_ms: u64,
}

/// States a challenge received from a peer can be in.
pub enum InboundChallenge {
    /// Received and awaiting a local accept or decline.
    Received { commitment: Vec<u8> },
    /// Accepted locally; awaiting the peer's preimage.
    PendingReveal { commitment: Vec<u8>, random: Vec<u8>, accepted_at_ms: u64 },
}

/// The output of a successful negotiation: the challenger's preimage and
/// the challenged side's random bytes.
#[derive(Debug, Clone, PartialEq, Eq)]
pub struct AcceptedChallenge {
    pub preimage: Vec<u8>,
    pub random: Vec<u8>,
}

/// Which of the two per-peer slots a timeout concerns.
#[derive(Debug, Clone, Copy, PartialEq, Eq, Structural)]
pub enum ChallengeDirection {
    Outbound,
    Inbound,
}

/// Protocol errors surfaced as domain events.
#[derive(Debug, Clone, Copy, PartialEq, Eq, Structural)]
pub enum IpchessError {
    /// The preimage revealed by the peer does not match its commitment.
    ChallengeCommitmentPreimageMismatch,
    /// The peer did not follow the protocol.
    ChallengePoisoned,
    /// A slot went unattended past its configured timeout.
    Timeout { peer_id: u64, direction: ChallengeDirection },
}

/// Domain events for the control surface.
#[derive(Debug, Clone, PartialEq, Eq)]
pub enum IpchessEvent {
    PeerChallenge { peer_id: u64 },
    ChallengeAccepted { peer_id: u64, challenge: AcceptedChallenge },
    ChallengeDeclined { peer_id: u64 },
    ChallengeCanceled { peer_id: u64 },
    Error(IpchessError),
}

/// Which handler of a peer an action is addressed to: any open
/// connection, or the one a frame arrived on.
#[derive(Debug, Clone, Copy, PartialEq, Eq, Structural)]
pub enum NotifyTarget {
    Any,
    One { connection_id: u64 },
}

/// Actions the behaviour hands to the overlay runtime, in order.
#[derive(Debug, Clone, PartialEq, Eq)]
pub enum BehaviourAction {
    /// Deliver a command to the peer's connection handler.
    NotifyHandler { peer_id: u64, target: NotifyTarget, event: IpchessHandlerEventIn },
    /// Dial the peer if it is disconnected.
    Dial { peer_id: u64 },
    /// Surface a domain event.
    GenerateEvent(IpchessEvent),
}

/// Mathematical value of an outbound challenge slot.
pub struct OutboundView {
    pub preimage: Seq<u8>,
    pub commitment: Seq<u8>,
    pub sent_at_ms: u64,
}

/// Mathematical value of an inbound challenge slot.
pub enum InboundView {
    Received { commitment: Seq<u8> },
    PendingReveal { commitment: Seq<u8>, random: Seq<u8>, accepted_at_ms: u64 },
}

/// Mathematical value of a domain event.
pub enum EventView {
    PeerChallenge { peer_id: u64 },
    ChallengeAccepted { peer_id: u64, preimage: Seq<u8>, random: Seq<u8> },
    ChallengeDeclined { peer_id: u64 },
    ChallengeCanceled { peer_id: u64 },
    Error(IpchessError),
}

/// Mathematical value of a behaviour action.
pub enum ActionView {
    NotifyHandler { peer_id: u64, target: NotifyTarget, event: HandlerInView },
    Dial { peer_id: u64 },
    GenerateEvent(EventView),
}

impl View for OutboundChallenge {
    type V = OutboundView;

    closed spec fn view(&self) -> OutboundView {
        OutboundView {
            preimage: self.preimage@,
            commitment: self.commitment@,
            sent_at_ms: self.sent_at_ms,
        }
    }
}

impl View for InboundChallenge {
    type V = InboundView;

    closed spec fn view(&self) -> InboundView {
        match self {
            InboundChallenge::Received { commitment } => InboundView::Received {
                commitment: commitment@,
            },
            InboundChallenge::PendingReveal { commitment, random, accepted_at_ms } =>
                InboundView::PendingReveal {
                    commitment: commitment@,
                    random: random@,
                    accepted_at_ms: *accepted_at_ms,
                },
        }
    }
}

impl View for IpchessEvent {
    type V = EventView;

    open spec fn view(&self) -> EventView {
        match self {
            IpchessEvent::PeerChallenge { peer_id } => EventView::PeerChallenge {
                peer_id: *peer_id,
            },
            IpchessEvent::ChallengeAccepted { peer_id, challenge } => EventView::ChallengeAccepted {
                peer_id: *peer_id,
                preimage: challenge.preimage@,
                random: challenge.random@,
            },
            IpchessEvent::ChallengeDeclined { peer_id } => EventView::ChallengeDeclined {
                peer_id: *peer_id,
            },
            IpchessEvent::ChallengeCanceled { peer_id } => EventView::ChallengeCanceled {
                peer_id: *peer_id,
            },
            IpchessEvent::Error(e) => EventView::Error(*e),
        }
    }
}

impl View for BehaviourAction {
    type V = ActionView;

    open spec fn view(&self) -> ActionView {
        match self {
            BehaviourAction::NotifyHandler { peer_id, target, event } => ActionView::NotifyHandler {
                peer_id: *peer_id,
                target: *target,
                event: event@,
            },
            BehaviourAction::Dial { peer_id } => ActionView::Dial { peer_id: *peer_id },
            BehaviourAction::GenerateEvent(e) => ActionView::GenerateEvent(e@),
        }
    }
}

/// Mathematical value of the whole behaviour.
#[verifier::ext_equal]
pub struct IpchessView {
    /// Outbound challenge slot per peer: at most one, the map's key.
    pub outbound: Map<u64, OutboundView>,
    /// Inbound challenge slot per peer: at most one, the map's key.
    pub inbound: Map<u64, InboundView>,
    /// Peers with at least one open connection.
    pub connected: Set<u64>,
    /// Commands waiting for a connection, per peer, in order.
    pub pending: Map<u64, Seq<HandlerInView>>,
    /// The queued actions, front first.
    pub actions: Seq<ActionView>,
    pub accept_timeout_ms: u64,
    pub preimage_timeout_ms: u64,
}

/// The views of a sequence of queued handler commands.
pub open spec fn cmds_view(s: Seq<IpchessHandlerEventIn>) -> Seq<HandlerInView> {
    s.map_values(|e: IpchessHandlerEventIn| e@)
}

/// The views of the queued actions.
pub open spec fn actions_view(s: Seq<BehaviourAction>) -> Seq<ActionView> {
    s.map_values(|a: BehaviourAction| a@)
}

/// Constraints every reachable behaviour satisfies: each stored outbound
/// preimage is a fresh 32-byte secret whose digest is the stored
/// commitment, and each stored inbound random is 32 bytes.
pub open spec fn view_wf(s: IpchessView) -> bool {
    &&& forall|p: u64| #[trigger] s.outbound.contains_key(p) ==> {
        &&& s.outbound[p].preimage.len() == SECRET_LEN
        &&& s.outbound[p].commitment == sha256(s.outbound[p].preimage)
    }
    &&& forall|p: u64| #[trigger] s.inbound.contains_key(p)
        ==> (s.inbound[p] matches InboundView::PendingReveal { random, .. }
            ==> random.len() == SECRET_LEN)
}

// ---------------------------------------------------------------------
// Step functions: the specification of every transition
// ---------------------------------------------------------------------

/// Emits a command towards a peer's handler: directly when the peer is
/// connected; otherwise a dial is requested and the command is queued
/// until the connection is established.
pub open spec fn notify_checked(s: IpchessView, peer: u64, cmd: HandlerInView) -> IpchessView {
    if s.connected.contains(peer) {
        IpchessView {
            actions: s.actions.push(
                ActionView::NotifyHandler { peer_id: peer, target: NotifyTarget::Any, event: cmd },
            ),
            ..s
        }
    } else {
        let q = if s.pending.contains_key(peer) {
            s.pending[peer]
        } else {
            Seq::empty()
        };
        IpchessView {
            actions: s.actions.push(ActionView::Dial { peer_id: peer }),
            pending: s.pending.insert(peer, q.push(cmd)),
            ..s
        }
    }
}

/// A local `challenge(peer)`: ignored while an outbound challenge is
/// pending; otherwise the drawn preimage is stored and its digest is sent
/// as the commitment.
pub open spec fn step_challenge(s: IpchessView, peer: u64, preimage: Seq<u8>, now_ms: u64)
    -> IpchessView {
    if s.outbound.contains_key(peer) {
        s
    } else {
        let slot = OutboundView { preimage, commitment: sha256(preimage), sent_at_ms: now_ms };
        let s1 = IpchessView { outbound: s.outbound.insert(peer, slot), ..s };
        notify_checked(s1, peer, HandlerInView::Challenge { commitment: sha256(preimage) })
    }
}

/// A local `accept(peer)`: only a slot in the `Received` state moves to
/// `PendingReveal`, keeping the peer's commitment and storing the drawn
/// random, which is also sent.
pub open spec fn step_accept(s: IpchessView, peer: u64, random: Seq<u8>, now_ms: u64)
    -> IpchessView {
    if s.inbound.contains_key(peer) && s.inbound[peer] is Received {
        let commitment = s.inbound[peer]->Received_commitment;
        let slot = InboundView::PendingReveal { commitment, random, accepted_at_ms: now_ms };
        let s1 = IpchessView { inbound: s.inbound.insert(peer, slot), ..s };
        notify_checked(s1, peer, HandlerInView::ChallengeAccept { random })
    } else {
        s
    }
}

/// A local `cancel(peer)`: an occupied outbound slot is cleared and the
/// withdrawal is sent; otherwise ignored.
pub open spec fn step_cancel(s: IpchessView, peer: u64) -> IpchessView {
    if s.outbound.contains_key(peer) {
        let s1 = IpchessView { outbound: s.outbound.remove(peer), ..s };
        notify_checked(s1, peer, HandlerInView::ChallengeCancel)
    } else {
        s
    }
}

/// A local `decline(peer)`: an occupied inbound slot, in either state, is
/// cleared and the refusal is sent; otherwise ignored.
pub open spec fn step_decline(s: IpchessView, peer: u64) -> IpchessView {
    if s.inbound.contains_key(peer) {
        let s1 = IpchessView { inbound: s.inbound.remove(peer), ..s };
        notify_checked(s1, peer, HandlerInView::ChallengeDecline)
    } else {
        s
    }
}

/// An inbound `Challenge{commitment}` frame: the inbound slot is written,
/// the last writer winning, and the challenge is surfaced.
pub open spec fn step_recv_challenge(s: IpchessView, peer: u64, commitment: Seq<u8>)
    -> IpchessView {
    IpchessView {
        inbound: s.inbound.insert(peer, InboundView::Received { commitment }),
        actions: s.actions.push(
            ActionView::GenerateEvent(EventView::PeerChallenge { peer_id: peer }),
        ),
        ..s
    }
}

/// An inbound `ChallengeAccept{random}` frame: with an outbound challenge
/// pending, the slot is cleared, the stored preimage is revealed on the
/// same connection, and the negotiated pair is surfaced; otherwise the
/// frame is stale and ignored.
pub open spec fn step_recv_accept(s: IpchessView, peer: u64, connection_id: u64, random: Seq<u8>)
    -> IpchessView {
    if s.outbound.contains_key(peer) {
        let slot = s.outbound[peer];
        IpchessView {
            outbound: s.outbound.remove(peer),
            actions: s.actions.push(
                ActionView::NotifyHandler {
                    peer_id: peer,
                    target: NotifyTarget::One { connection_id },
                    event: HandlerInView::ChallengeReveal { preimage: slot.preimage },
                },
            ).push(
                ActionView::GenerateEvent(
                    EventView::ChallengeAccepted { peer_id: peer, preimage: slot.preimage, random },
                ),
            ),
            ..s
        }
    } else {
        s
    }
}

/// An inbound `ChallengeReveal{preimage}` frame.
///
/// In `PendingReveal`, the revealed preimage's digest is compared to the
/// stored commitment: on a match the negotiated pair is surfaced; on a
/// mismatch the handler on that connection is poisoned and the mismatch
/// is surfaced. In `Received` the reveal came before a local accept: the
/// handler is poisoned. An empty slot ignores the frame. Any occupied
/// slot is cleared.
pub open spec fn step_recv_reveal(s: IpchessView, peer: u64, connection_id: u64, preimage: Seq<u8>)
    -> IpchessView {
    if !s.inbound.contains_key(peer) {
        s
    } else {
        match s.inbound[peer] {
            InboundView::PendingReveal { commitment, random, .. } => {
                if sha256(preimage) == commitment {
                    IpchessView {
                        inbound: s.inbound.remove(peer),
                        actions: s.actions.push(
                            ActionView::GenerateEvent(
                                EventView::ChallengeAccepted { peer_id: peer, preimage, random },
                            ),
                        ),
                        ..s
                    }
                } else {
                    IpchessView {
                        inbound: s.inbound.remove(peer),
                        actions: s.actions.push(
                            ActionView::NotifyHandler {
                                peer_id: peer,
                                target: NotifyTarget::One { connection_id },
                                event: HandlerInView::ChallengePoisoned,
                            },
                        ).push(
                            ActionView::GenerateEvent(
                                EventView::Error(IpchessError::ChallengeCommitmentPreimageMismatch),
                            ),
                        ),
                        ..s
                    }
                }
            },
            InboundView::Received { .. } => {
                IpchessView {
                    inbound: s.inbound.remove(peer),
                    actions: s.actions.push(
                        ActionView::NotifyHandler {
                            peer_id: peer,
                            target: NotifyTarget::One { connection_id },
                            event: HandlerInView::ChallengePoisoned,
                        },
                    ).push(
                        ActionView::GenerateEvent(
                            EventView::Error(IpchessError::ChallengePoisoned),
                        ),
                    ),
                    ..s
                }
            },
        }
    }
}

/// An inbound `ChallengeCancel` frame: an occupied inbound slot is
/// cleared and the cancellation is surfaced; otherwise ignored.
pub open spec fn step_recv_cancel(s: IpchessView, peer: u64) -> IpchessView {
    if s.inbound.contains_key(peer) {
        IpchessView {
            inbound: s.inbound.remove(peer),
            actions: s.actions.push(
                ActionView::GenerateEvent(EventView::ChallengeCanceled { peer_id: peer }),
            ),
            ..s
        }
    } else {
        s
    }
}

/// An inbound `ChallengeDecline` frame: an occupied outbound slot is
/// cleared and the refusal is surfaced; otherwise ignored.
pub open spec fn step_recv_decline(s: IpchessView, peer: u64) -> IpchessView {
    if s.outbound.contains_key(peer) {
        IpchessView {
            outbound: s.outbound.remove(peer),
            actions: s.actions.push(
                ActionView::GenerateEvent(EventView::ChallengeDeclined { peer_id: peer }),
            ),
            ..s
        }
    } else {
        s
    }
}

/// A connection to a peer was established: the peer joins the connected
/// set and its queued commands are replayed in order.
pub open spec fn step_connect(s: IpchessView, peer: u64) -> IpchessView {
    let drained = if s.pending.contains_key(peer) {
        s.pending[peer]
    } else {
        Seq::empty()
    };
    IpchessView {
        connected: s.connected.insert(peer),
        pending: s.pending.remove(peer),
        actions: s.actions + drained.map_values(
            |c: HandlerInView| ActionView::NotifyHandler {
                peer_id: peer,
                target: NotifyTarget::Any,
                event: c,
            },
        ),
        ..s
    }
}

/// The last connection to a peer closed: the peer leaves the connected
/// set; its challenge slots and queued commands stay.
pub open spec fn step_disconnect(s: IpchessView, peer: u64) -> IpchessView {
    IpchessView { connected: s.connected.remove(peer), ..s }
}

/// The outbound challenge to `p` has waited at least the accept timeout.
pub open spec fn outbound_expired(s: IpchessView, p: u64, now_ms: u64) -> bool {
    &&& s.outbound.contains_key(p)
    &&& now_ms >= s.outbound[p].sent_at_ms
    &&& now_ms - s.outbound[p].sent_at_ms >= s.accept_timeout_ms
}

/// The accepted inbound challenge from `p` has waited at least the
/// preimage timeout. A slot still in `Received` never expires.
pub open spec fn inbound_expired(s: IpchessView, p: u64, now_ms: u64) -> bool {
    &&& s.inbound.contains_key(p)
    &&& (s.inbound[p] matches InboundView::PendingReveal { accepted_at_ms, .. }
        && now_ms >= accepted_at_ms && now_ms - accepted_at_ms >= s.preimage_timeout_ms)
}

/// The action that reports an expired outbound slot.
pub open spec fn outbound_timeout_action(p: u64) -> ActionView {
    ActionView::GenerateEvent(
        EventView::Error(
            IpchessError::Timeout { peer_id: p, direction: ChallengeDirection::Outbound },
        ),
    )
}

/// The action that reports an expired inbound slot.
pub open spec fn inbound_timeout_action(p: u64) -> ActionView {
    ActionView::GenerateEvent(
        EventView::Error(
            IpchessError::Timeout { peer_id: p, direction: ChallengeDirection::Inbound },
        ),
    )
}

/// `ap` holds exactly one outbound timeout report for each expired
/// outbound slot of `s`, and nothing else.
pub open spec fn outbound_timeout_events_ok(s: IpchessView, now_ms: u64, ap: Seq<ActionView>)
    -> bool {
    &&& forall|j: int| 0 <= j < ap.len() ==> exists|p: u64|
        #[trigger] ap[j] == outbound_timeout_action(p) && outbound_expired(s, p, now_ms)
    &&& forall|p: u64| outbound_expired(s, p, now_ms) ==> ap.contains(outbound_timeout_action(p))
    &&& forall|j1: int, j2: int| 0 <= j1 < j2 < ap.len() ==> ap[j1] != ap[j2]
}

/// `ap` holds exactly one inbound timeout report for each expired inbound
/// slot of `s`, and nothing else.
pub open spec fn inbound_timeout_events_ok(s: IpchessView, now_ms: u64, ap: Seq<ActionView>)
    -> bool {
    &&& forall|j: int| 0 <= j < ap.len() ==> exists|p: u64|
        #[trigger] ap[j] == inbound_timeout_action(p) && inbound_expired(s, p, now_ms)
    &&& forall|p: u64| inbound_expired(s, p, now_ms) ==> ap.contains(inbound_timeout_action(p))
    &&& forall|j1: int, j2: int| 0 <= j1 < j2 < ap.len() ==> ap[j1] != ap[j2]
}

/// `ap` holds exactly one timeout report for each expired slot of `s`,
/// outbound reports first, and nothing else.
pub open spec fn timeout_events_ok(s: IpchessView, now_ms: u64, ap: Seq<ActionView>) -> bool {
    exists|ap1: Seq<ActionView>, ap2: Seq<ActionView>| {
        &&& ap == #[trigger] (ap1 + ap2)
        &&& outbound_timeout_events_ok(s, now_ms, ap1)
        &&& inbound_timeout_events_ok(s, now_ms, ap2)
    }
}

/// The empty behaviour with the given timeouts.
pub open spec fn initial_view(accept_timeout_ms: u64, preimage_timeout_ms: u64) -> IpchessView {
    IpchessView {
        outbound: Map::empty(),
        inbound: Map::empty(),
        connected: Set::empty(),
        pending: Map::empty(),
        actions: Seq::empty(),
        accept_timeout_ms,
        preimage_timeout_ms,
    }
}

// ---------------------------------------------------------------------
// The behaviour
// ---------------------------------------------------------------------

/// The process-wide challenge behaviour.
pub struct Ipchess {
    actions_queue: Vec<BehaviourAction>,
    pending_handler_in: PeerTable<Vec<IpchessHandlerEventIn>>,
    outbound_challenges: PeerTable<OutboundChallenge>,
    inbound_challenges: PeerTable<InboundChallenge>,
    connected_peers: PeerTable<()>,
    challenge_accept_timeout_ms: u64,
    challenge_preimage_timeout_ms: u64,
}

impl View for Ipchess {
    type V = IpchessView;

    closed spec fn view(&self) -> IpchessView {
        IpchessView {
            outbound: table_view(self.outbound_challenges@),
            inbound: table_view(self.inbound_challenges@),
            connected: self.connected_peers@.dom(),
            pending: Map::new(
                |k: u64| self.pending_handler_in@.contains_key(k),
                |k: u64| cmds_view(self.pending_handler_in@[k]@),
            ),
            actions: actions_view(self.actions_queue@),
            accept_timeout_ms: self.challenge_accept_timeout_ms,
            preimage_timeout_ms: self.challenge_preimage_timeout_ms,
        }
    }
}

impl Ipchess {
    /// The representation keeps one entry per peer in each table, and the
    /// mathematical constraints of `view_wf` hold.
    pub closed spec fn wf(&self) -> bool {
        &&& self.pending_handler_in.wf()
        &&& self.outbound_challenges.wf()
        &&& self.inbound_challenges.wf()
        &&& self.connected_peers.wf()
        &&& view_wf(self@)
    }

    /// An empty behaviour with the default timeouts.
    pub fn new() -> (r: Self)
        ensures
            r.wf(),
            r@ == initial_view(
                DEFAULT_CHALLENGE_ACCEPT_TIMEOUT_MS,
                DEFAULT_CHALLENGE_PREIMAGE_TIMEOUT_MS,
            ),
    {
        Self::with_timeouts(DEFAULT_CHALLENGE_ACCEPT_TIMEOUT_MS, DEFAULT_CHALLENGE_PREIMAGE_TIMEOUT_MS)
    }

    /// An empty behaviour with the given timeouts, in milliseconds.
    pub fn with_timeouts(accept_timeout_ms: u64, preimage_timeout_ms: u64) -> (r: Self)
        ensures
            r.wf(),
            r@ == initial_view(accept_timeout_ms, preimage_timeout_ms),
    {
        let r = Ipchess {
            actions_queue: Vec::new(),
            pending_handler_in: PeerTable::new(),
            outbound_challenges: PeerTable::new(),
            inbound_challenges: PeerTable::new(),
            connected_peers: PeerTable::new(),
            challenge_accept_timeout_ms: accept_timeout_ms,
            challenge_preimage_timeout_ms: preimage_timeout_ms,
        };
        proof {
            assert(r@ =~~= initial_view(accept_timeout_ms, preimage_timeout_ms));
        }
        r
    }

    /// A handler for a new connection.
    pub fn new_handler(&mut self) -> (r: IpchessHandler)
        ensures
            *final(self) == *old(self),
            !r.is_poisoned(),
            r.records() == Seq::<crate::handler::SubstreamView>::empty(),
    {
        IpchessHandler::new()
    }

    fn notify_handler_checked(&mut self, peer_id: u64, handler_in: IpchessHandlerEventIn)
        requires
            old(self).wf(),
        ensures
            final(self).wf(),
            final(self)@ == notify_checked(old(self)@, peer_id, handler_in@),
    {
        let ghost pre = self@;
        let ghost cmd = handler_in@;
        if self.connected_peers.contains_key(peer_id) {
            self.actions_queue.push(
                BehaviourAction::NotifyHandler {
                    peer_id,
                    target: NotifyTarget::Any,
                    event: handler_in,
                },
            );
            proof {
                assert(actions_view(self.actions_queue@) =~= pre.actions.push(
                    ActionView::NotifyHandler {
                        peer_id,
                        target: NotifyTarget::Any,
                        event: cmd,
                    },
                ));
                assert(self@ =~~= notify_checked(pre, peer_id, cmd));
            }
        } else {
            self.actions_queue.push(BehaviourAction::Dial { peer_id });
            let mut q = match self.pending_handler_in.remove(peer_id) {
                Some(q) => q,
                None => Vec::new(),
            };
            let ghost q0 = cmds_view(q@);
            proof {
                if pre.pending.contains_key(peer_id) {
                    assert(q0 == pre.pending[peer_id]);
                } else {
                    assert(q0 =~= Seq::<HandlerInView>::empty());
                }
            }
            q.push(handler_in);
            proof {
                assert(cmds_view(q@) =~= q0.push(cmd));
            }
            self.pending_handler_in.insert(peer_id, q);
            proof {
                assert(actions_view(self.actions_queue@) =~= pre.actions.push(
                    ActionView::Dial { peer_id },
                ));
                assert(self@.pending =~= pre.pending.insert(peer_id, q0.push(cmd)));
                assert(self@ =~~= notify_checked(pre, peer_id, cmd));
            }
        }
    }

    /// Challenges a peer: draws a fresh 32-byte preimage, stores it in the
    /// outbound slot and sends its SHA-256 digest as the commitment. A
    /// second challenge while one is pending changes nothing.
    pub fn challenge_peer(&mut self, peer_id: u64, now_ms: u64)
        requires
            old(self).wf(),
        ensures
            final(self).wf(),
            old(self)@.outbound.contains_key(peer_id) ==> final(self)@ == old(self)@,
            !old(self)@.outbound.contains_key(peer_id) ==> exists|preimage: Seq<u8>|
                preimage.len() == SECRET_LEN
                && final(self)@ == step_challenge(old(self)@, peer_id, preimage, now_ms),
    {
        let ghost pre = self@;
        if self.outbound_challenges.contains_key(peer_id) {
            return;
        }
        let preimage = random_bytes();
        let ghost p = preimage@;
        let commitment = sha256_digest(&preimage);
        let commitment_to_send = clone_bytes(&commitment);
        self.outbound_challenges.insert(
            peer_id,
            OutboundChallenge { preimage, commitment, sent_at_ms: now_ms },
        );
        let ghost mid = IpchessView {
            outbound: pre.outbound.insert(
                peer_id,
                OutboundView { preimage: p, commitment: sha256(p), sent_at_ms: now_ms },
            ),
            ..pre
        };
        proof {
            assert(self@ =~~= mid);
        }
        self.notify_handler_checked(
            peer_id,
            IpchessHandlerEventIn::Challenge { commitment: commitment_to_send },
        );
        proof {
            assert(p.len() == SECRET_LEN && self@ == step_challenge(pre, peer_id, p, now_ms));
        }
    }

    /// Accepts a peer's challenge: only a slot awaiting the decision moves
    /// to `PendingReveal`, keeping the peer's commitment, storing a fresh
    /// 32-byte random and sending it. Anything else is ignored.
    pub fn accept_peer_challenge(&mut self, peer_id: u64, now_ms: u64)
        requires
            old(self).wf(),
        ensures
            final(self).wf(),
            (old(self)@.inbound.contains_key(peer_id) && old(self)@.inbound[peer_id] is Received)
                ==> exists|random: Seq<u8>|
                random.len() == SECRET_LEN
                && final(self)@ == step_accept(old(self)@, peer_id, random, now_ms),
            !(old(self)@.inbound.contains_key(peer_id) && old(self)@.inbound[peer_id] is Received)
                ==> final(self)@ == old(self)@,
    {
        let ghost pre = self@;
        let commitment: Vec<u8> = match self.inbound_challenges.get(peer_id) {
            Some(InboundChallenge::Received { commitment }) => clone_bytes(commitment),
            _ => {
                return;
            },
        };
        let random = random_bytes();
        let ghost rnd = random@;
        let random_to_send = clone_bytes(&random);
        self.inbound_challenges.insert(
            peer_id,
            InboundChallenge::PendingReveal { commitment, random, accepted_at_ms: now_ms },
        );
        let ghost mid = IpchessView {
            inbound: pre.inbound.insert(
                peer_id,
                InboundView::PendingReveal {
                    commitment: pre.inbound[peer_id]->Received_commitment,
                    random: rnd,
                    accepted_at_ms: now_ms,
                },
            ),
            ..pre
        };
        proof {
            assert(self@ =~~= mid);
        }
        self.notify_handler_checked(
            peer_id,
            IpchessHandlerEventIn::ChallengeAccept { random: random_to_send },
        );
        proof {
            assert(rnd.len() == SECRET_LEN && self@ == step_accept(pre, peer_id, rnd, now_ms));
        }
    }

    /// Cancels this side's pending challenge to a peer, if any, and sends
    /// the withdrawal.
    pub fn cancel_challenge(&mut self, peer_id: u64)
        requires
            old(self).wf(),
        ensures
            final(self).wf(),
            final(self)@ == step_cancel(old(self)@, peer_id),
    {
        let ghost pre = self@;
        match self.outbound_challenges.remove(peer_id) {
            Some(_) => {
                proof {
                    lemma_table_view_remove(old(self).outbound_challenges@, peer_id);
                    assert(self@ =~~= IpchessView { outbound: pre.outbound.remove(peer_id), ..pre });
                }
                self.notify_handler_checked(peer_id, IpchessHandlerEventIn::ChallengeCancel);
            },
            None => {
                proof {
                    assert(self@ =~~= pre);
                }
            },
        }
    }

    /// Declines a peer's pending challenge, if any, in either state, and
    /// sends the refusal.
    pub fn decline_peer_challenge(&mut self, peer_id: u64)
        requires
            old(self).wf(),
        ensures
            final(self).wf(),
            final(self)@ == step_decline(old(self)@, peer_id),
    {
        let ghost pre = self@;
        match self.inbound_challenges.remove(peer_id) {
            Some(_) => {
                proof {
                    lemma_table_view_remove(old(self).inbound_challenges@, peer_id);
                    assert(self@ =~~= IpchessView { inbound: pre.inbound.remove(peer_id), ..pre });
                }
                self.notify_handler_checked(peer_id, IpchessHandlerEventIn::ChallengeDecline);
            },
            None => {
                proof {
                    assert(self@ =~~= pre);
                }
            },
        }
    }

    /// A decoded inbound frame from `peer_id`, surfaced by the handler of
    /// connection `connection_id`. Replies that answer this frame are
    /// routed back to that connection.
    pub fn inject_event(&mut self, peer_id: u64, connection_id: u64, event: IpchessHandlerEventOut)
        requires
            old(self).wf(),
        ensures
            final(self).wf(),
            match event@ {
                HandlerOutView::ChallengeReceived { commitment } => final(self)@
                    == step_recv_challenge(old(self)@, peer_id, commitment),
                HandlerOutView::ChallengeAccepted { random } => final(self)@ == step_recv_accept(
                    old(self)@,
                    peer_id,
                    connection_id,
                    random,
                ),
                HandlerOutView::ChallengeRevealReceived { preimage } => final(self)@
                    == step_recv_reveal(old(self)@, peer_id, connection_id, preimage),
                HandlerOutView::ChallengeCanceled => final(self)@ == step_recv_cancel(
                    old(self)@,
                    peer_id,
                ),
                HandlerOutView::ChallengeDeclined => final(self)@ == step_recv_decline(
                    old(self)@,
                    peer_id,
                ),
            },
    {
        let ghost pre = self@;
        match event {
            IpchessHandlerEventOut::ChallengeReceived { commitment } => {
                let ghost c = commitment@;
                self.inbound_challenges.insert(
                    peer_id,
                    InboundChallenge::Received { commitment },
                );
                self.actions_queue.push(
                    BehaviourAction::GenerateEvent(IpchessEvent::PeerChallenge { peer_id }),
                );
                proof {
                    assert(self@ =~~= step_recv_challenge(pre, peer_id, c));
                }
            },
            IpchessHandlerEventOut::ChallengeAccepted { random } => {
                let ghost rnd = random@;
                match self.outbound_challenges.remove(peer_id) {
                    None => {
                        proof {
                            assert(self@ =~~= pre);
                        }
                    },
                    Some(OutboundChallenge { preimage, .. }) => {
                        let preimage_for_event = clone_bytes(&preimage);
                        self.actions_queue.push(
                            BehaviourAction::NotifyHandler {
                                peer_id,
                                target: NotifyTarget::One { connection_id },
                                event: IpchessHandlerEventIn::ChallengeReveal { preimage },
                            },
                        );
                        self.actions_queue.push(
                            BehaviourAction::GenerateEvent(
                                IpchessEvent::ChallengeAccepted {
                                    peer_id,
                                    challenge: AcceptedChallenge {
                                        preimage: preimage_for_event,
                                        random,
                                    },
                                },
                            ),
                        );
                        proof {
                            assert(self@ =~~= step_recv_accept(pre, peer_id, connection_id, rnd));
                        }
                    },
                }
            },
            IpchessHandlerEventOut::ChallengeRevealReceived { preimage } => {
                let ghost pim = preimage@;
                match self.inbound_challenges.remove(peer_id) {
                    None => {
                        proof {
                            assert(self@ =~~= pre);
                        }
                    },
                    Some(InboundChallenge::PendingReveal { commitment, random, .. }) => {
                        let digest = sha256_digest(&preimage);
                        if bytes_eq(&digest, &commitment) {
                            self.actions_queue.push(
                                BehaviourAction::GenerateEvent(
                                    IpchessEvent::ChallengeAccepted {
                                        peer_id,
                                        challenge: AcceptedChallenge { preimage, random },
                                    },
                                ),
                            );
                        } else {
                            self.actions_queue.push(
                                BehaviourAction::NotifyHandler {
                                    peer_id,
                                    target: NotifyTarget::One { connection_id },
                                    event: IpchessHandlerEventIn::ChallengePoisoned,
                                },
                            );
                            self.actions_queue.push(
                                BehaviourAction::GenerateEvent(
                                    IpchessEvent::Error(
                                        IpchessError::ChallengeCommitmentPreimageMismatch,
                                    ),
                                ),
                            );
                        }
                        proof {
                            assert(self@ =~~= step_recv_reveal(pre, peer_id, connection_id, pim));
                        }
                    },
                    Some(InboundChallenge::Received { .. }) => {
                        self.actions_queue.push(
                            BehaviourAction::NotifyHandler {
                                peer_id,
                                target: NotifyTarget::One { connection_id },
                                event: IpchessHandlerEventIn::ChallengePoisoned,
                            },
                        );
                        self.actions_queue.push(
                            BehaviourAction::GenerateEvent(
                                IpchessEvent::Error(IpchessError::ChallengePoisoned),
                            ),
                        );
                        proof {
                            assert(self@ =~~= step_recv_reveal(pre, peer_id, connection_id, pim));
                        }
                    },
                }
            },
            IpchessHandlerEventOut::ChallengeCanceled => {
                match self.inbound_challenges.remove(peer_id) {
                    None => {
                        proof {
                            assert(self@ =~~= pre);
                        }
                    },
                    Some(_) => {
                        self.actions_queue.push(
                            BehaviourAction::GenerateEvent(
                                IpchessEvent::ChallengeCanceled { peer_id },
                            ),
                        );
                        proof {
                            assert(self@ =~~= step_recv_cancel(pre, peer_id));
                        }
                    },
                }
            },
            IpchessHandlerEventOut::ChallengeDeclined => {
                match self.outbound_challenges.remove(peer_id) {
                    None => {
                        proof {
                            assert(self@ =~~= pre);
                        }
                    },
                    Some(_) => {
                        self.actions_queue.push(
                            BehaviourAction::GenerateEvent(
                                IpchessEvent::ChallengeDeclined { peer_id },
                            ),
                        );
                        proof {
                            assert(self@ =~~= step_recv_decline(pre, peer_id));
                        }
                    },
                }
            },
        }
    }

    /// A connection to `peer_id` was established: replay the commands that
    /// waited for it, in the order they were queued.
    pub fn inject_connection_established(&mut self, peer_id: u64)
        requires
            old(self).wf(),
        ensures
            final(self).wf(),
            final(self)@ == step_connect(old(self)@, peer_id),
    {
        let ghost pre = self@;
        self.connected_peers.insert(peer_id, ());
        match self.pending_handler_in.remove(peer_id) {
            None => {
                proof {
                    let drained = Seq::<HandlerInView>::empty();
                    assert(drained.map_values(
                        |c: HandlerInView| ActionView::NotifyHandler {
                            peer_id,
                            target: NotifyTarget::Any,
                            event: c,
                        },
                    ) =~= Seq::<ActionView>::empty());
                    assert(pre.actions + Seq::<ActionView>::empty() =~= pre.actions);
                    assert(self@ =~~= step_connect(pre, peer_id));
                }
            },
            Some(mut cmds) => {
                let ghost full = cmds_view(cmds@);
                let ghost drained_map = full.map_values(
                    |c: HandlerInView| ActionView::NotifyHandler {
                        peer_id,
                        target: NotifyTarget::Any,
                        event: c,
                    },
                );
                let ghost total = full.len() as int;
                let ghost mid = self@;
                let ghost mut done: int = 0;
                proof {
                    assert(cmds_view(cmds@) =~= full.skip(0));
                    assert(mid.actions + drained_map.take(0) =~= mid.actions);
                    assert(self@.outbound =~= pre.outbound);
                    assert(self@.inbound =~= pre.inbound);
                    assert(view_wf(self@));
                }
                while cmds.len() > 0
                    invariant
                        self.wf(),
                        0 <= done <= total,
                        cmds@.len() == total - done,
                        cmds_view(cmds@) == full.skip(done),
                        drained_map == full.map_values(
                            |c: HandlerInView| ActionView::NotifyHandler {
                                peer_id,
                                target: NotifyTarget::Any,
                                event: c,
                            },
                        ),
                        total == full.len(),
                        self@.outbound == mid.outbound,
                        self@.inbound == mid.inbound,
                        self@.connected == mid.connected,
                        self@.pending == mid.pending,
                        self@.accept_timeout_ms == mid.accept_timeout_ms,
                        self@.preimage_timeout_ms == mid.preimage_timeout_ms,
                        self@.actions == mid.actions + drained_map.take(done),
                    decreases cmds@.len(),
                {
                    proof {
                        assert(cmds_view(cmds@)[0] == cmds@[0]@);
                        assert(full.skip(done)[0] == full[done]);
                    }
                    let ghost cmds_before = cmds@;
                    let ghost actions_before = self@.actions;
                    let c = cmds.remove(0);
                    let ghost cv = c@;
                    proof {
                        assert(cv == full[done]);
                    }
                    self.actions_queue.push(
                        BehaviourAction::NotifyHandler {
                            peer_id,
                            target: NotifyTarget::Any,
                            event: c,
                        },
                    );
                    proof {
                        done = done + 1;
                        assert forall|j: int|
                            0 <= j < cmds@.len() implies cmds_view(cmds@)[j] == full.skip(done)[j]
                        by {
                            assert(cmds@[j] == cmds_before[j + 1]);
                            assert(cmds_view(cmds_before)[j + 1] == cmds_before[j + 1]@);
                            assert(full.skip(done - 1)[j + 1] == full[done + j]);
                            assert(full.skip(done)[j] == full[done + j]);
                            assert(cmds_view(cmds@)[j] == cmds@[j]@);
                        }
                        assert(cmds_view(cmds@) =~= full.skip(done));
                        assert(drained_map[done - 1] == ActionView::NotifyHandler {
                            peer_id,
                            target: NotifyTarget::Any,
                            event: cv,
                        });
                        assert(drained_map.take(done) =~= drained_map.take(done - 1).push(
                            drained_map[done - 1],
                        ));
                        assert(self@.actions =~= actions_before.push(drained_map[done - 1]));
                        assert(self@.actions =~= mid.actions + drained_map.take(done));
                    }
                }
                proof {
                    assert(done == total);
                    assert(drained_map.take(total) =~= drained_map);
                    assert(self@.actions == mid.actions + drained_map);
                    assert(self@ =~~= step_connect(pre, peer_id));
                }
            },
        }
    }

    /// The last connection to `peer_id` closed. Pending challenges stay:
    /// they time out or resume on reconnection.
    pub fn inject_disconnected(&mut self, peer_id: u64)
        requires
            old(self).wf(),
        ensures
            final(self).wf(),
            final(self)@ == step_disconnect(old(self)@, peer_id),
    {
        let ghost pre = self@;
        self.connected_peers.remove(peer_id);
        proof {
            assert(self@ =~~= step_disconnect(pre, peer_id));
        }
    }

    fn expire_outbound(&mut self, now_ms: u64)
        requires
            old(self).wf(),
        ensures
            final(self).wf(),
            final(self)@.outbound == old(self)@.outbound.remove_keys(
                Set::new(|p: u64| outbound_expired(old(self)@, p, now_ms)),
            ),
            final(self)@.inbound == old(self)@.inbound,
            final(self)@.connected == old(self)@.connected,
            final(self)@.pending == old(self)@.pending,
            final(self)@.accept_timeout_ms == old(self)@.accept_timeout_ms,
            final(self)@.preimage_timeout_ms == old(self)@.preimage_timeout_ms,
            exists|ap: Seq<ActionView>|
                #[trigger] outbound_timeout_events_ok(old(self)@, now_ms, ap)
                && final(self)@.actions == old(self)@.actions + ap,
    {
        let ghost pre = self@;
        let keys = self.outbound_challenges.keys();
        let ghost mut swept: Seq<u64> = Seq::empty();
        let ghost mut ap: Seq<ActionView> = Seq::empty();
        let mut i: usize = 0;
        proof {
            assert(self@.outbound =~= pre.outbound.remove_keys(swept.to_set()));
            assert(self@.actions =~= pre.actions + ap);
            assert(ap =~= swept.map_values(|p: u64| outbound_timeout_action(p)));
        }
        while i < keys.len()
            invariant
                self.wf(),
                i <= keys@.len(),
                keys@.no_duplicates(),
                forall|j: int| 0 <= j < keys@.len()
                    ==> pre.outbound.contains_key(#[trigger] keys@[j]),
                forall|p: u64| pre.outbound.contains_key(p) ==> keys@.contains(p),
                swept.no_duplicates(),
                forall|j: int| 0 <= j < swept.len()
                    ==> outbound_expired(pre, #[trigger] swept[j], now_ms)
                    && keys@.take(i as int).contains(swept[j]),
                forall|p: u64| outbound_expired(pre, p, now_ms)
                    && keys@.take(i as int).contains(p) ==> swept.contains(p),
                ap == swept.map_values(|p: u64| outbound_timeout_action(p)),
                self@.outbound == pre.outbound.remove_keys(swept.to_set()),
                self@.inbound == pre.inbound,
                self@.connected == pre.connected,
                self@.pending == pre.pending,
                self@.accept_timeout_ms == pre.accept_timeout_ms,
                self@.preimage_timeout_ms == pre.preimage_timeout_ms,
                self@.actions == pre.actions + ap,
            decreases keys@.len() - i,
        {
            let k = keys[i];
            proof {
                if keys@.take(i as int).contains(k) {
                    let j = choose|j: int| 0 <= j < i && keys@.take(i as int)[j] == k;
                    assert(keys@[j] == k);
                    assert(false);
                }
                if swept.contains(k) {
                    let j = choose|j: int| 0 <= j < swept.len() && swept[j] == k;
                    assert(false);
                }
                assert(self@.outbound.contains_key(k));
                assert(self@.outbound[k] == pre.outbound[k]);
            }
            let expired: bool = match self.outbound_challenges.get(k) {
                Some(slot) => now_ms >= slot.sent_at_ms
                    && now_ms - slot.sent_at_ms >= self.challenge_accept_timeout_ms,
                None => false,
            };
            proof {
                assert(expired == outbound_expired(pre, k, now_ms));
            }
            if expired {
                proof {
                    lemma_table_view_remove(self.outbound_challenges@, k);
                }
                let ghost actions_head = self@.actions;
                self.outbound_challenges.remove(k);
                self.actions_queue.push(
                    BehaviourAction::GenerateEvent(
                        IpchessEvent::Error(
                            IpchessError::Timeout {
                                peer_id: k,
                                direction: ChallengeDirection::Outbound,
                            },
                        ),
                    ),
                );
                proof {
                    let swept_old = swept;
                    let ap_old = ap;
                    swept = swept.push(k);
                    ap = ap.push(outbound_timeout_action(k));
                    assert forall|x: u64| #[trigger] swept.contains(x)
                        implies swept_old.contains(x) || x == k
                    by {
                        let j = choose|j: int| 0 <= j < swept.len() && swept[j] == x;
                        if j < swept_old.len() {
                            assert(swept_old[j] == x);
                        }
                    }
                    assert forall|x: u64| swept_old.contains(x) || x == k
                        implies #[trigger] swept.contains(x)
                    by {
                        if swept_old.contains(x) {
                            let j = choose|j: int| 0 <= j < swept_old.len() && swept_old[j] == x;
                            assert(swept[j] == x);
                        } else {
                            assert(swept[swept.len() - 1] == x);
                        }
                    }
                    assert(swept.to_set() =~= swept_old.to_set().insert(k));
                    assert forall|a: int, b: int| 0 <= a < b < swept.len()
                        implies swept[a] != swept[b]
                    by {
                        if b == swept.len() - 1 {
                            assert(swept[a] == swept_old[a]);
                            if swept[a] == k {
                                assert(swept_old.contains(k));
                            }
                        }
                    }
                    assert(swept.no_duplicates());
                    assert forall|j: int| 0 <= j < swept.len()
                        implies outbound_expired(pre, #[trigger] swept[j], now_ms)
                        && keys@.take(i + 1 as int).contains(swept[j])
                    by {
                        if j < swept_old.len() {
                            assert(keys@.take(i as int).contains(swept_old[j]));
                            let jj = choose|jj: int|
                                0 <= jj < i && keys@.take(i as int)[jj] == swept_old[j];
                            assert(keys@.take(i + 1 as int)[jj] == swept_old[j]);
                        } else {
                            assert(swept[j] == k);
                            assert(keys@.take(i + 1 as int)[i as int] == k);
                        }
                    }
                    assert forall|p: u64| outbound_expired(pre, p, now_ms)
                        && keys@.take(i + 1 as int).contains(p) implies swept.contains(p)
                    by {
                        if p == k {
                            assert(swept[swept.len() - 1] == k);
                        } else {
                            let j = choose|j: int|
                                0 <= j < i + 1 && #[trigger] keys@.take(i + 1 as int)[j] == p;
                            assert(keys@.take(i as int)[j] == p);
                            assert(swept_old.contains(p));
                            let jj = choose|jj: int|
                                0 <= jj < swept_old.len() && swept_old[jj] == p;
                            assert(swept[jj] == p);
                        }
                    }
                    assert(ap =~= swept.map_values(|p: u64| outbound_timeout_action(p)));
                    assert(self@.outbound == table_view(self.outbound_challenges@));
                    assert(self@.outbound =~= pre.outbound.remove_keys(swept_old.to_set()).remove(
                        k,
                    ));
                    assert(self@.outbound =~= pre.outbound.remove_keys(swept.to_set()));
                    assert((BehaviourAction::GenerateEvent(
                        IpchessEvent::Error(
                            IpchessError::Timeout {
                                peer_id: k,
                                direction: ChallengeDirection::Outbound,
                            },
                        ),
                    ))@ == outbound_timeout_action(k));
                    assert(self@.actions =~= actions_head.push(outbound_timeout_action(k)));
                    assert(pre.actions + ap =~= (pre.actions + ap_old).push(
                        outbound_timeout_action(k),
                    ));
                    assert(self@.actions =~= pre.actions + ap);
                }
            } else {
                proof {
                    assert forall|p: u64| outbound_expired(pre, p, now_ms)
                        && keys@.take(i + 1 as int).contains(p) implies swept.contains(p)
                    by {
                        let j = choose|j: int|
                            0 <= j < i + 1 && #[trigger] keys@.take(i + 1 as int)[j] == p;
                        if j == i {
                            assert(p == k);
                            assert(false);
                        } else {
                            assert(keys@.take(i as int)[j] == p);
                        }
                    }
                }
            }
            i += 1;
        }
        proof {
            assert(keys@.take(keys@.len() as int) =~= keys@);
            assert forall|p: u64| outbound_expired(pre, p, now_ms) implies swept.contains(p) by {
                assert(pre.outbound.contains_key(p));
                assert(keys@.contains(p));
            }
            assert forall|x: u64| #[trigger] swept.to_set().contains(x)
                implies outbound_expired(pre, x, now_ms)
            by {
                let j = choose|j: int| 0 <= j < swept.len() && swept[j] == x;
            }
            assert(swept.to_set() =~= Set::new(|p: u64| outbound_expired(pre, p, now_ms)));
            assert(outbound_timeout_events_ok(pre, now_ms, ap)) by {
                assert forall|j: int| 0 <= j < ap.len() implies exists|p: u64|
                    #[trigger] ap[j] == outbound_timeout_action(p) && outbound_expired(pre, p, now_ms)
                by {
                    assert(ap[j] == outbound_timeout_action(swept[j]));
                    assert(outbound_expired(pre, swept[j], now_ms));
                }
                assert forall|p: u64| outbound_expired(pre, p, now_ms)
                    implies ap.contains(outbound_timeout_action(p))
                by {
                    assert(swept.contains(p));
                    let j = choose|j: int| 0 <= j < swept.len() && swept[j] == p;
                    assert(ap[j] == outbound_timeout_action(p));
                }
                assert forall|j1: int, j2: int| 0 <= j1 < j2 < ap.len()
                    implies ap[j1] != ap[j2]
                by {
                    assert(ap[j1] == outbound_timeout_action(swept[j1]));
                    assert(ap[j2] == outbound_timeout_action(swept[j2]));
                }
            }
        }
    }
    fn expire_inbound(&mut self, now_ms: u64)
        requires
            old(self).wf(),
        ensures
            final(self).wf(),
            final(self)@.inbound == old(self)@.inbound.remove_keys(
                Set::new(|p: u64| inbound_expired(old(self)@, p, now_ms)),
            ),
            final(self)@.outbound == old(self)@.outbound,
            final(self)@.connected == old(self)@.connected,
            final(self)@.pending == old(self)@.pending,
            final(self)@.accept_timeout_ms == old(self)@.accept_timeout_ms,
            final(self)@.preimage_timeout_ms == old(self)@.preimage_timeout_ms,
            exists|ap: Seq<ActionView>|
                #[trigger] inbound_timeout_events_ok(old(self)@, now_ms, ap)
                && final(self)@.actions == old(self)@.actions + ap,
    {
        let ghost pre = self@;
        let keys = self.inbound_challenges.keys();
        let ghost mut swept: Seq<u64> = Seq::empty();
        let ghost mut ap: Seq<ActionView> = Seq::empty();
        let mut i: usize = 0;
        proof {
            assert(self@.inbound =~= pre.inbound.remove_keys(swept.to_set()));
            assert(self@.actions =~= pre.actions + ap);
            assert(ap =~= swept.map_values(|p: u64| inbound_timeout_action(p)));
        }
        while i < keys.len()
            invariant
                self.wf(),
                i <= keys@.len(),
                keys@.no_duplicates(),
                forall|j: int| 0 <= j < keys@.len()
                    ==> pre.inbound.contains_key(#[trigger] keys@[j]),
                forall|p: u64| pre.inbound.contains_key(p) ==> keys@.contains(p),
                swept.no_duplicates(),
                forall|j: int| 0 <= j < swept.len()
                    ==> inbound_expired(pre, #[trigger] swept[j], now_ms)
                    && keys@.take(i as int).contains(swept[j]),
                forall|p: u64| inbound_expired(pre, p, now_ms)
                    && keys@.take(i as int).contains(p) ==> swept.contains(p),
                ap == swept.map_values(|p: u64| inbound_timeout_action(p)),
                self@.inbound == pre.inbound.remove_keys(swept.to_set()),
                self@.outbound == pre.outbound,
                self@.connected == pre.connected,
                self@.pending == pre.pending,
                self@.accept_timeout_ms == pre.accept_timeout_ms,
                self@.preimage_timeout_ms == pre.preimage_timeout_ms,
                self@.actions == pre.actions + ap,
            decreases keys@.len() - i,
        {
            let k = keys[i];
            proof {
                if keys@.take(i as int).contains(k) {
                    let j = choose|j: int| 0 <= j < i && keys@.take(i as int)[j] == k;
                    assert(keys@[j] == k);
                    assert(false);
                }
                if swept.contains(k) {
                    let j = choose|j: int| 0 <= j < swept.len() && swept[j] == k;
                    assert(false);
                }
                assert(self@.inbound.contains_key(k));
                assert(self@.inbound[k] == pre.inbound[k]);
            }
            let expired: bool = match self.inbound_challenges.get(k) {
                Some(InboundChallenge::PendingReveal { accepted_at_ms, .. }) => now_ms
                    >= *accepted_at_ms
                    && now_ms - *accepted_at_ms >= self.challenge_preimage_timeout_ms,
                _ => false,
            };
            proof {
                assert(expired == inbound_expired(pre, k, now_ms));
            }
            if expired {
                proof {
                    lemma_table_view_remove(self.inbound_challenges@, k);
                }
                let ghost actions_head = self@.actions;
                self.inbound_challenges.remove(k);
                self.actions_queue.push(
                    BehaviourAction::GenerateEvent(
                        IpchessEvent::Error(
                            IpchessError::Timeout {
                                peer_id: k,
                                direction: ChallengeDirection::Inbound,
                            },
                        ),
                    ),
                );
                proof {
                    let swept_old = swept;
                    let ap_old = ap;
                    swept = swept.push(k);
                    ap = ap.push(inbound_timeout_action(k));
                    assert forall|x: u64| #[trigger] swept.contains(x)
                        implies swept_old.contains(x) || x == k
                    by {
                        let j = choose|j: int| 0 <= j < swept.len() && swept[j] == x;
                        if j < swept_old.len() {
                            assert(swept_old[j] == x);
                        }
                    }
                    assert forall|x: u64| swept_old.contains(x) || x == k
                        implies #[trigger] swept.contains(x)
                    by {
                        if swept_old.contains(x) {
                            let j = choose|j: int| 0 <= j < swept_old.len() && swept_old[j] == x;
                            assert(swept[j] == x);
                        } else {
                            assert(swept[swept.len() - 1] == x);
                        }
                    }
                    assert(swept.to_set() =~= swept_old.to_set().insert(k));
                    assert forall|a: int, b: int| 0 <= a < b < swept.len()
                        implies swept[a] != swept[b]
                    by {
                        if b == swept.len() - 1 {
                            assert(swept[a] == swept_old[a]);
                            if swept[a] == k {
                                assert(swept_old.contains(k));
                            }
                        }
                    }
                    assert(swept.no_duplicates());
                    assert forall|j: int| 0 <= j < swept.len()
                        implies inbound_expired(pre, #[trigger] swept[j], now_ms)
                        && keys@.take(i + 1 as int).contains(swept[j])
                    by {
                        if j < swept_old.len() {
                            assert(keys@.take(i as int).contains(swept_old[j]));
                            let jj = choose|jj: int|
                                0 <= jj < i && keys@.take(i as int)[jj] == swept_old[j];
                            assert(keys@.take(i + 1 as int)[jj] == swept_old[j]);
                        } else {
                            assert(swept[j] == k);
                            assert(keys@.take(i + 1 as int)[i as int] == k);
                        }
                    }
                    assert forall|p: u64| inbound_expired(pre, p, now_ms)
                        && keys@.take(i + 1 as int).contains(p) implies swept.contains(p)
                    by {
                        if p == k {
                            assert(swept[swept.len() - 1] == k);
                        } else {
                            let j = choose|j: int|
                                0 <= j < i + 1 && #[trigger] keys@.take(i + 1 as int)[j] == p;
                            assert(keys@.take(i as int)[j] == p);
                            assert(swept_old.contains(p));
                            let jj = choose|jj: int|
                                0 <= jj < swept_old.len() && swept_old[jj] == p;
                            assert(swept[jj] == p);
                        }
                    }
                    assert(ap =~= swept.map_values(|p: u64| inbound_timeout_action(p)));
                    assert(self@.inbound == table_view(self.inbound_challenges@));
                    assert(self@.inbound =~= pre.inbound.remove_keys(swept_old.to_set()).remove(
                        k,
                    ));
                    assert(self@.inbound =~= pre.inbound.remove_keys(swept.to_set()));
                    assert((BehaviourAction::GenerateEvent(
                        IpchessEvent::Error(
                            IpchessError::Timeout {
                                peer_id: k,
                                direction: ChallengeDirection::Inbound,
                            },
                        ),
                    ))@ == inbound_timeout_action(k));
                    assert(self@.actions =~= actions_head.push(inbound_timeout_action(k)));
                    assert(pre.actions + ap =~= (pre.actions + ap_old).push(
                        inbound_timeout_action(k),
                    ));
                    assert(self@.actions =~= pre.actions + ap);
                }
            } else {
                proof {
                    assert forall|p: u64| inbound_expired(pre, p, now_ms)
                        && keys@.take(i + 1 as int).contains(p) implies swept.contains(p)
                    by {
                        let j = choose|j: int|
                            0 <= j < i + 1 && #[trigger] keys@.take(i + 1 as int)[j] == p;
                        if j == i {
                            assert(p == k);
                            assert(false);
                        } else {
                            assert(keys@.take(i as int)[j] == p);
                        }
                    }
                }
            }
            i += 1;
        }
        proof {
            assert(keys@.take(keys@.len() as int) =~= keys@);
            assert forall|p: u64| inbound_expired(pre, p, now_ms) implies swept.contains(p) by {
                assert(pre.inbound.contains_key(p));
                assert(keys@.contains(p));
            }
            assert forall|x: u64| #[trigger] swept.to_set().contains(x)
                implies inbound_expired(pre, x, now_ms)
            by {
                let j = choose|j: int| 0 <= j < swept.len() && swept[j] == x;
            }
            assert(swept.to_set() =~= Set::new(|p: u64| inbound_expired(pre, p, now_ms)));
            assert(inbound_timeout_events_ok(pre, now_ms, ap)) by {
                assert forall|j: int| 0 <= j < ap.len() implies exists|p: u64|
                    #[trigger] ap[j] == inbound_timeout_action(p) && inbound_expired(pre, p, now_ms)
                by {
                    assert(ap[j] == inbound_timeout_action(swept[j]));
                    assert(inbound_expired(pre, swept[j], now_ms));
                }
                assert forall|p: u64| inbound_expired(pre, p, now_ms)
                    implies ap.contains(inbound_timeout_action(p))
                by {
                    assert(swept.contains(p));
                    let j = choose|j: int| 0 <= j < swept.len() && swept[j] == p;
                    assert(ap[j] == inbound_timeout_action(p));
                }
                assert forall|j1: int, j2: int| 0 <= j1 < j2 < ap.len()
                    implies ap[j1] != ap[j2]
                by {
                    assert(ap[j1] == inbound_timeout_action(swept[j1]));
                    assert(ap[j2] == inbound_timeout_action(swept[j2]));
                }
            }
        }
    }


    proof fn lemma_inbound_ok_same(
        s1: IpchessView,
        s2: IpchessView,
        now_ms: u64,
        ap: Seq<ActionView>,
    )
        requires
            s1.inbound == s2.inbound,
            s1.preimage_timeout_ms == s2.preimage_timeout_ms,
            inbound_timeout_events_ok(s1, now_ms, ap),
        ensures
            inbound_timeout_events_ok(s2, now_ms, ap),
    {
        assert forall|j: int| 0 <= j < ap.len() implies exists|p: u64|
            #[trigger] ap[j] == inbound_timeout_action(p) && inbound_expired(s2, p, now_ms)
        by {
            let p = choose|p: u64|
                #[trigger] ap[j] == inbound_timeout_action(p) && inbound_expired(s1, p, now_ms);
            assert(inbound_expired(s2, p, now_ms));
            assert(ap[j] == inbound_timeout_action(p) && inbound_expired(s2, p, now_ms));
        }
        assert forall|p: u64| inbound_expired(s2, p, now_ms)
            implies ap.contains(inbound_timeout_action(p))
        by {
            assert(inbound_expired(s1, p, now_ms));
        }
    }

    /// Scheduling point of the behaviour: slots past their timeout are
    /// cleared and reported first; then the front of the action queue, if
    /// any, is handed to the overlay runtime.
    pub fn poll(&mut self, now_ms: u64) -> (r: Option<BehaviourAction>)
        requires
            old(self).wf(),
        ensures
            final(self).wf(),
            final(self)@.outbound == old(self)@.outbound.remove_keys(
                Set::new(|p: u64| outbound_expired(old(self)@, p, now_ms)),
            ),
            final(self)@.inbound == old(self)@.inbound.remove_keys(
                Set::new(|p: u64| inbound_expired(old(self)@, p, now_ms)),
            ),
            final(self)@.connected == old(self)@.connected,
            final(self)@.pending == old(self)@.pending,
            final(self)@.accept_timeout_ms == old(self)@.accept_timeout_ms,
            final(self)@.preimage_timeout_ms == old(self)@.preimage_timeout_ms,
            exists|ap: Seq<ActionView>| {
                &&& #[trigger] timeout_events_ok(old(self)@, now_ms, ap)
                &&& match r {
                    Option::Some(a) => (old(self)@.actions + ap).len() > 0
                        && a@ == (old(self)@.actions + ap)[0]
                        && final(self)@.actions == (old(self)@.actions + ap).drop_first(),
                    Option::None => (old(self)@.actions + ap).len() == 0
                        && final(self)@.actions == old(self)@.actions + ap,
                }
            },
    {
        let ghost pre = self@;
        self.expire_outbound(now_ms);
        let ghost mid1 = self@;
        self.expire_inbound(now_ms);
        let ghost mid2 = self@;
        let ghost ap = Seq::<ActionView>::empty();
        proof {
            let ap1 = choose|b: Seq<ActionView>|
                #[trigger] outbound_timeout_events_ok(pre, now_ms, b)
                && mid1.actions == pre.actions + b;
            let ap2 = choose|b: Seq<ActionView>|
                #[trigger] inbound_timeout_events_ok(mid1, now_ms, b)
                && mid2.actions == mid1.actions + b;
            Self::lemma_inbound_ok_same(mid1, pre, now_ms, ap2);
            ap = ap1 + ap2;
            assert(timeout_events_ok(pre, now_ms, ap));
            assert(mid2.actions =~= pre.actions + ap);
            assert forall|p: u64| inbound_expired(mid1, p, now_ms) == inbound_expired(
                pre,
                p,
                now_ms,
            ) by {}
            assert(Set::new(|p: u64| inbound_expired(mid1, p, now_ms)) =~= Set::new(
                |p: u64| inbound_expired(pre, p, now_ms),
            ));
            assert(mid2.inbound == pre.inbound.remove_keys(
                Set::new(|p: u64| inbound_expired(pre, p, now_ms)),
            ));
        }
        if self.actions_queue.len() == 0 {
            proof {
                assert((pre.actions + ap).len() == 0);
            }
            None
        } else {
            let ghost head_actions = self@.actions;
            let a = self.actions_queue.remove(0);
            proof {
                assert(a@ == head_actions[0]);
                assert(self@.actions =~= head_actions.drop_first());
                assert(head_actions == pre.actions + ap);
            }
            Some(a)
        }
    }
}

// ---------------------------------------------------------------------
// Protocol laws
// ---------------------------------------------------------------------

/// The transition from `pre` to `post` surfaced a negotiated pair
/// `(preimage, random)` with `peer`.
pub open spec fn emits_challenge_accepted(
    pre: Seq<ActionView>,
    post: Seq<ActionView>,
    peer: u64,
    preimage: Seq<u8>,
    random: Seq<u8>,
) -> bool {
    exists|j: int|
        pre.len() <= j < post.len() && post[j] == ActionView::GenerateEvent(
            EventView::ChallengeAccepted { peer_id: peer, preimage, random },
        )
}

/// Accepting a received challenge keeps the peer's commitment: the slot
/// moves from `Received` to `PendingReveal` with the same commitment and
/// the newly drawn random.
pub proof fn lemma_accept_keeps_commitment(s: IpchessView, peer: u64, random: Seq<u8>, now_ms: u64)
    requires
        s.inbound.contains_key(peer),
        s.inbound[peer] is Received,
    ensures
        step_accept(s, peer, random, now_ms).inbound[peer] == (InboundView::PendingReveal {
            commitment: s.inbound[peer]->Received_commitment,
            random,
            accepted_at_ms: now_ms,
        }),
        step_accept(s, peer, random, now_ms).outbound == s.outbound,
{
}

/// A reveal surfaces a negotiated pair only when the revealed preimage
/// hashes to the stored commitment, and then with exactly the revealed
/// preimage and the stored random.
pub proof fn lemma_accepted_only_on_match_reveal(
    s: IpchessView,
    peer: u64,
    connection_id: u64,
    preimage: Seq<u8>,
    pm: Seq<u8>,
    r: Seq<u8>,
)
    requires
        emits_challenge_accepted(
            s.actions,
            step_recv_reveal(s, peer, connection_id, preimage).actions,
            peer,
            pm,
            r,
        ),
    ensures
        s.inbound.contains_key(peer),
        s.inbound[peer] is PendingReveal,
        sha256(pm) == s.inbound[peer]->PendingReveal_commitment,
        pm == preimage,
        r == s.inbound[peer]->PendingReveal_random,
{
    let post = step_recv_reveal(s, peer, connection_id, preimage).actions;
    let j = choose|j: int|
        s.actions.len() <= j < post.len() && post[j] == ActionView::GenerateEvent(
            EventView::ChallengeAccepted { peer_id: peer, preimage: pm, random: r },
        );
    if !s.inbound.contains_key(peer) {
        assert(false);
    } else {
        match s.inbound[peer] {
            InboundView::PendingReveal { commitment, random, .. } => {
                if sha256(preimage) != commitment {
                    assert(false);
                }
            },
            InboundView::Received { .. } => {
                assert(false);
            },
        }
    }
}

/// An acceptance from the peer surfaces a negotiated pair only with the
/// stored outbound preimage, whose digest is the commitment that was
/// sent, paired with the peer's random.
pub proof fn lemma_accepted_only_on_match_accept(
    s: IpchessView,
    peer: u64,
    connection_id: u64,
    random: Seq<u8>,
    pm: Seq<u8>,
    r: Seq<u8>,
)
    requires
        view_wf(s),
        emits_challenge_accepted(
            s.actions,
            step_recv_accept(s, peer, connection_id, random).actions,
            peer,
            pm,
            r,
        ),
    ensures
        s.outbound.contains_key(peer),
        pm == s.outbound[peer].preimage,
        r == random,
        sha256(pm) == s.outbound[peer].commitment,
{
    let post = step_recv_accept(s, peer, connection_id, random).actions;
    let j = choose|j: int|
        s.actions.len() <= j < post.len() && post[j] == ActionView::GenerateEvent(
            EventView::ChallengeAccepted { peer_id: peer, preimage: pm, random: r },
        );
    if !s.outbound.contains_key(peer) {
        assert(false);
    }
}

/// Every reveal command this side emits carries the preimage of the
/// outbound slot it answers for; the slot is cleared in the same step.
/// The acceptance step is the only transition that emits a reveal.
pub proof fn lemma_reveal_carries_stored_preimage(
    s: IpchessView,
    peer: u64,
    connection_id: u64,
    random: Seq<u8>,
    pm: Seq<u8>,
    target: NotifyTarget,
)
    requires
        (exists|j: int|
            s.actions.len() <= j < step_recv_accept(s, peer, connection_id, random).actions.len()
            && step_recv_accept(s, peer, connection_id, random).actions[j]
                == (ActionView::NotifyHandler {
                peer_id: peer,
                target,
                event: HandlerInView::ChallengeReveal { preimage: pm },
            })),
    ensures
        s.outbound.contains_key(peer),
        pm == s.outbound[peer].preimage,
        target == (NotifyTarget::One { connection_id }),
        !step_recv_accept(s, peer, connection_id, random).outbound.contains_key(peer),
{
    let post = step_recv_accept(s, peer, connection_id, random).actions;
    let j = choose|j: int|
        s.actions.len() <= j < post.len() && post[j] == ActionView::NotifyHandler {
            peer_id: peer,
            target,
            event: HandlerInView::ChallengeReveal { preimage: pm },
        };
    if !s.outbound.contains_key(peer) {
        assert(false);
    }
}

/// Commit-reveal soundness: when an honest challenger and an honest
/// challenged peer complete the exchange over a faithful network, both
/// sides surface the same pair `(preimage, random)`, and the slots that
/// carried the exchange are cleared.
pub proof fn lemma_commit_reveal_soundness(
    a0: IpchessView,
    b0: IpchessView,
    peer_a: u64,
    peer_b: u64,
    conn_a: u64,
    conn_b: u64,
    preimage: Seq<u8>,
    random: Seq<u8>,
    ta: u64,
    tb: u64,
)
    requires
        !a0.outbound.contains_key(peer_b),
    ensures
        ({
            let a1 = step_challenge(a0, peer_b, preimage, ta);
            let b1 = step_recv_challenge(b0, peer_a, sha256(preimage));
            let b2 = step_accept(b1, peer_a, random, tb);
            let a2 = step_recv_accept(a1, peer_b, conn_a, random);
            let b3 = step_recv_reveal(b2, peer_a, conn_b, preimage);
            &&& emits_challenge_accepted(a1.actions, a2.actions, peer_b, preimage, random)
            &&& emits_challenge_accepted(b2.actions, b3.actions, peer_a, preimage, random)
            &&& !a2.outbound.contains_key(peer_b)
            &&& !b3.inbound.contains_key(peer_a)
        }),
{
    let a1 = step_challenge(a0, peer_b, preimage, ta);
    let b1 = step_recv_challenge(b0, peer_a, sha256(preimage));
    let b2 = step_accept(b1, peer_a, random, tb);
    let a2 = step_recv_accept(a1, peer_b, conn_a, random);
    let b3 = step_recv_reveal(b2, peer_a, conn_b, preimage);
    assert(a1.outbound[peer_b].preimage == preimage);
    assert(a2.actions[a1.actions.len() + 1 as int] == ActionView::GenerateEvent(
        EventView::ChallengeAccepted { peer_id: peer_b, preimage, random },
    ));
    assert(b2.inbound[peer_a] == InboundView::PendingReveal {
        commitment: sha256(preimage),
        random,
        accepted_at_ms: tb,
    });
    assert(b3.actions[b2.actions.len() as int] == ActionView::GenerateEvent(
        EventView::ChallengeAccepted { peer_id: peer_a, preimage, random },
    ));
}

/// Challenging twice with no intervening state change is the same as
/// challenging once: the second call finds the slot occupied and changes
/// nothing, so exactly one handler command is produced.
pub proof fn lemma_challenge_idempotent(
    s: IpchessView,
    peer: u64,
    p1: Seq<u8>,
    p2: Seq<u8>,
    t1: u64,
    t2: u64,
)
    ensures
        step_challenge(step_challenge(s, peer, p1, t1), peer, p2, t2) == step_challenge(
            s,
            peer,
            p1,
            t1,
        ),
{
}

/// Cancellation cleanliness: after a cancel the outbound slot is empty,
/// and a subsequent challenge succeeds, storing the freshly drawn
/// preimage and committing to its digest.
pub proof fn lemma_cancel_then_challenge(s: IpchessView, peer: u64, p: Seq<u8>, t: u64)
    ensures
        !step_cancel(s, peer).outbound.contains_key(peer),
        step_challenge(step_cancel(s, peer), peer, p, t).outbound.contains_key(peer),
        step_challenge(step_cancel(s, peer), peer, p, t).outbound[peer] == (OutboundView {
            preimage: p,
            commitment: sha256(p),
            sent_at_ms: t,
        }),
{
}

/// A reveal whose digest does not match the commitment poisons the
/// handler on that connection, surfaces the mismatch, clears the slot,
/// and surfaces no negotiated pair.
pub proof fn lemma_mismatched_reveal_poisons(
    s: IpchessView,
    peer: u64,
    connection_id: u64,
    preimage: Seq<u8>,
)
    requires
        s.inbound.contains_key(peer),
        s.inbound[peer] is PendingReveal,
        sha256(preimage) != s.inbound[peer]->PendingReveal_commitment,
    ensures
        ({
            let s2 = step_recv_reveal(s, peer, connection_id, preimage);
            &&& s2.actions == s.actions.push(
                ActionView::NotifyHandler {
                    peer_id: peer,
                    target: NotifyTarget::One { connection_id },
                    event: HandlerInView::ChallengePoisoned,
                },
            ).push(
                ActionView::GenerateEvent(
                    EventView::Error(IpchessError::ChallengeCommitmentPreimageMismatch),
                ),
            )
            &&& !s2.inbound.contains_key(peer)
            &&& forall|pm: Seq<u8>, r: Seq<u8>|
                !emits_challenge_accepted(s.actions, s2.actions, peer, pm, r)
        }),
{
    let s2 = step_recv_reveal(s, peer, connection_id, preimage);
    assert forall|pm: Seq<u8>, r: Seq<u8>|
        !emits_challenge_accepted(s.actions, s2.actions, peer, pm, r)
    by {
        if emits_challenge_accepted(s.actions, s2.actions, peer, pm, r) {
            let j = choose|j: int|
                s.actions.len() <= j < s2.actions.len() && s2.actions[j]
                    == ActionView::GenerateEvent(
                    EventView::ChallengeAccepted { peer_id: peer, preimage: pm, random: r },
                );
            assert(j == s.actions.len() || j == s.actions.len() + 1);
            assert(false);
        }
    }
}

/// A reveal that arrives before this side accepted poisons the handler
/// on that connection, surfaces the violation and clears the slot.
pub proof fn lemma_early_reveal_poisons(
    s: IpchessView,
    peer: u64,
    connection_id: u64,
    preimage: Seq<u8>,
)
    requires
        s.inbound.contains_key(peer),
        s.inbound[peer] is Received,
    ensures
        ({
            let s2 = step_recv_reveal(s, peer, connection_id, preimage);
            &&& s2.actions == s.actions.push(
                ActionView::NotifyHandler {
                    peer_id: peer,
                    target: NotifyTarget::One { connection_id },
                    event: HandlerInView::ChallengePoisoned,
                },
            ).push(
                ActionView::GenerateEvent(EventView::Error(IpchessError::ChallengePoisoned)),
            )
            &&& !s2.inbound.contains_key(peer)
        }),
{
}

/// Every expired slot is reported by the timeout sweep: one outbound
/// report per expired outbound slot, one inbound report per expired
/// `PendingReveal` slot.
pub proof fn lemma_timeout_reported(s: IpchessView, now_ms: u64, ap: Seq<ActionView>, p: u64)
    requires
        timeout_events_ok(s, now_ms, ap),
    ensures
        outbound_expired(s, p, now_ms) ==> ap.contains(outbound_timeout_action(p)),
        inbound_expired(s, p, now_ms) ==> ap.contains(inbound_timeout_action(p)),
{
    let (ap1, ap2): (Seq<ActionView>, Seq<ActionView>) = choose|ap1: Seq<ActionView>, ap2: Seq<
        ActionView,
    >| {
        &&& ap == #[trigger] (ap1 + ap2)
        &&& outbound_timeout_events_ok(s, now_ms, ap1)
        &&& inbound_timeout_events_ok(s, now_ms, ap2)
    };
    if outbound_expired(s, p, now_ms) {
        assert(ap1.contains(outbound_timeout_action(p)));
        let j = choose|j: int| 0 <= j < ap1.len() && ap1[j] == outbound_timeout_action(p);
        assert(ap[j] == outbound_timeout_action(p));
    }
    if inbound_expired(s, p, now_ms) {
        assert(ap2.contains(inbound_timeout_action(p)));
        let j = choose|j: int| 0 <= j < ap2.len() && ap2[j] == inbound_timeout_action(p);
        assert(ap[ap1.len() + j] == inbound_timeout_action(p));
    }
}

} // verus!
