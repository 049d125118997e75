//! The per-connection handler: turns behaviour commands into outbound
//! frames and inbound frames into behaviour-facing events.
//!
//! A handler owns a set of substream records. A record is created when the
//! behaviour commands a send (`PendingOpen`, holding the frame to write),
//! when an outbound substream finishes negotiating (`PendingSend`), or when
//! an inbound substream arrives (`WaitingMessage`). Records complete out of
//! order; nothing here depends on their position. The event loop that owns
//! the sockets drives the records: it performs the reads and writes and
//! reports their outcomes through `on_message_read` and `on_send_complete`.
//!
//! A poisoned handler asks for connection closure on its next poll and
//! never recovers.

use vstd::prelude::*;

use crate::codec::Message;
use crate::codec::MessageView;
use crate::codec::Payload;
use crate::codec::PayloadView;
use crate::codec::Challenge;
use crate::codec::ChallengeAccept;
use crate::codec::ChallengeReveal;
use crate::codec::ChallengeCancel;
use crate::codec::ChallengeDecline;
use crate::codec::decode_message;
use crate::codec::spec_parse_message;

verus! {

/// Milliseconds an idle connection is kept alive before the overlay may
/// drop it.
pub const IDLE_KEEP_ALIVE_MS: u64 = 30000;

/// Commands a behaviour addresses to a handler.
#[derive(Debug, Clone, PartialEq, Eq)]
pub enum IpchessHandlerEventIn {
    Challenge { commitment: Vec<u8> },
    ChallengeAccept { random: Vec<u8> },
    ChallengeReveal { preimage: Vec<u8> },
    ChallengeCancel,
    ChallengeDecline,
    ChallengePoisoned,
}

/// Events a handler surfaces to the behaviour, one per decoded inbound
/// frame.
#[derive(Debug, Clone, PartialEq, Eq)]
pub enum IpchessHandlerEventOut {
    ChallengeReceived { commitment: Vec<u8> },
    ChallengeAccepted { random: Vec<u8> },
    ChallengeRevealReceived { preimage: Vec<u8> },
    ChallengeCanceled,
    ChallengeDeclined,
}

/// Failure classes of a connection; any of them closes the connection.
#[derive(Debug, Clone, Copy, PartialEq, Eq, Structural)]
pub enum IpchessHandlerError {
    ProtobufEncode,
    ProtobufDecode,
    SubstreamWrite,
    SubstreamRead,
    SubstreamFlush,
    Poisoned,
}

/// Mathematical value of a handler command.
pub enum HandlerInView {
    Challenge { commitment: Seq<u8> },
    ChallengeAccept { random: Seq<u8> },
    ChallengeReveal { preimage: Seq<u8> },
    ChallengeCancel,
    ChallengeDecline,
    ChallengePoisoned,
}

/// Mathematical value of a handler event.
pub enum HandlerOutView {
    ChallengeReceived { commitment: Seq<u8> },
    ChallengeAccepted { random: Seq<u8> },
    ChallengeRevealReceived { preimage: Seq<u8> },
    ChallengeCanceled,
    ChallengeDeclined,
}

impl View for IpchessHandlerEventIn {
    type V = HandlerInView;

    open spec fn view(&self) -> HandlerInView {
        match self {
            IpchessHandlerEventIn::Challenge { commitment } => HandlerInView::Challenge {
                commitment: commitment@,
            },
            IpchessHandlerEventIn::ChallengeAccept { random } => HandlerInView::ChallengeAccept {
                random: random@,
            },
            IpchessHandlerEventIn::ChallengeReveal { preimage } => HandlerInView::ChallengeReveal {
                preimage: preimage@,
            },
            IpchessHandlerEventIn::ChallengeCancel => HandlerInView::ChallengeCancel,
            IpchessHandlerEventIn::ChallengeDecline => HandlerInView::ChallengeDecline,
            IpchessHandlerEventIn::ChallengePoisoned => HandlerInView::ChallengePoisoned,
        }
    }
}

impl View for IpchessHandlerEventOut {
    type V = HandlerOutView;

    open spec fn view(&self) -> HandlerOutView {
        match self {
            IpchessHandlerEventOut::ChallengeReceived { commitment } =>
                HandlerOutView::ChallengeReceived { commitment: commitment@ },
            IpchessHandlerEventOut::ChallengeAccepted { random } =>
                HandlerOutView::ChallengeAccepted { random: random@ },
            IpchessHandlerEventOut::ChallengeRevealReceived { preimage } =>
                HandlerOutView::ChallengeRevealReceived { preimage: preimage@ },
            IpchessHandlerEventOut::ChallengeCanceled => HandlerOutView::ChallengeCanceled,
            IpchessHandlerEventOut::ChallengeDeclined => HandlerOutView::ChallengeDeclined,
        }
    }
}

/// The frame a command maps to; the poisoning command maps to none.
pub open spec fn frame_for_command(ev: HandlerInView) -> Option<MessageView> {
    match ev {
        HandlerInView::Challenge { commitment } => Option::Some(
            MessageView { payload: Option::Some(PayloadView::Challenge { commitment }) },
        ),
        HandlerInView::ChallengeAccept { random } => Option::Some(
            MessageView { payload: Option::Some(PayloadView::ChallengeAccept { random }) },
        ),
        HandlerInView::ChallengeReveal { preimage } => Option::Some(
            MessageView { payload: Option::Some(PayloadView::ChallengeReveal { preimage }) },
        ),
        HandlerInView::ChallengeCancel => Option::Some(
            MessageView { payload: Option::Some(PayloadView::ChallengeCancel) },
        ),
        HandlerInView::ChallengeDecline => Option::Some(
            MessageView { payload: Option::Some(PayloadView::ChallengeDecline) },
        ),
        HandlerInView::ChallengePoisoned => Option::None,
    }
}

/// The event an inbound payload maps to: the inverse of the command
/// mapping, for the five frame variants.
pub open spec fn event_for_payload(p: PayloadView) -> HandlerOutView {
    match p {
        PayloadView::Challenge { commitment } => HandlerOutView::ChallengeReceived { commitment },
        PayloadView::ChallengeAccept { random } => HandlerOutView::ChallengeAccepted { random },
        PayloadView::ChallengeReveal { preimage } => HandlerOutView::ChallengeRevealReceived {
            preimage,
        },
        PayloadView::ChallengeCancel => HandlerOutView::ChallengeCanceled,
        PayloadView::ChallengeDecline => HandlerOutView::ChallengeDeclined,
    }
}

/// Lifecycle of one substream.
#[derive(Debug)]
pub enum SubstreamState {
    /// A frame waiting for an outbound substream to be requested.
    PendingOpen(Message),
    /// A write in progress on the substream with this id.
    PendingSend { substream_id: u64 },
    /// A read in progress on the substream with this id.
    WaitingMessage { substream_id: u64 },
}

/// Mathematical value of a substream record.
pub enum SubstreamView {
    PendingOpen(MessageView),
    PendingSend(u64),
    WaitingMessage(u64),
}

impl View for SubstreamState {
    type V = SubstreamView;

    open spec fn view(&self) -> SubstreamView {
        match self {
            SubstreamState::PendingOpen(msg) => SubstreamView::PendingOpen(msg@),
            SubstreamState::PendingSend { substream_id } => SubstreamView::PendingSend(
                *substream_id,
            ),
            SubstreamState::WaitingMessage { substream_id } => SubstreamView::WaitingMessage(
                *substream_id,
            ),
        }
    }
}

/// Connection keep-alive advice for the overlay runtime.
#[derive(Debug, Clone, Copy, PartialEq, Eq, Structural)]
pub enum KeepAlive {
    Yes,
    Until(u64),
    No,
}

/// What a poll of the handler yields: a request to open an outbound
/// substream for a frame, a request to close the connection, or nothing.
#[derive(Debug)]
pub enum HandlerPollResult {
    OutboundSubstreamRequest(Message),
    Close(IpchessHandlerError),
    Pending,
}

/// The keep-alive value after a poll that found no work to hand out:
/// while records remain the connection stays alive; when the last record
/// is gone an idle countdown starts, once.
pub open spec fn next_keep_alive(cur: KeepAlive, records_empty: bool, now_ms: u64) -> KeepAlive {
    if !records_empty {
        KeepAlive::Yes
    } else if cur == KeepAlive::Yes {
        KeepAlive::Until(idle_deadline(now_ms))
    } else {
        cur
    }
}

/// `now_ms` plus the idle grace period, saturating.
pub open spec fn idle_deadline(now_ms: u64) -> u64 {
    if now_ms + IDLE_KEEP_ALIVE_MS <= u64::MAX {
        (now_ms + IDLE_KEEP_ALIVE_MS) as u64
    } else {
        u64::MAX
    }
}

/// The protocol identifier advertised on substreams.
pub open spec fn spec_protocol_name() -> Seq<char> {
    "/ipchess/1.0.0"@
}

/// The inbound upgrade: substreams are used as negotiated, one frame each.
pub struct IpchessProtocol {}

impl IpchessProtocol {
    /// The protocol identifier to advertise.
    pub fn protocol_info(&self) -> (r: &'static str)
        ensures
            r@ == spec_protocol_name(),
    {
        "/ipchess/1.0.0"
    }
}

/// The state of one connection to one peer.
pub struct IpchessHandler {
    substream_states: Vec<SubstreamState>,
    handler_error_received: bool,
    keep_alive: KeepAlive,
}

impl IpchessHandler {
    /// The substream records, in no significant order.
    pub closed spec fn records(&self) -> Seq<SubstreamView> {
        self.substream_states@.map_values(|s: SubstreamState| s@)
    }

    /// Whether the behaviour has poisoned this handler.
    pub closed spec fn is_poisoned(&self) -> bool {
        self.handler_error_received
    }

    /// The current keep-alive advice.
    pub closed spec fn keep_alive_state(&self) -> KeepAlive {
        self.keep_alive
    }

    pub fn new() -> (r: Self)
        ensures
            r.records() == Seq::<SubstreamView>::empty(),
            !r.is_poisoned(),
            r.keep_alive_state() == KeepAlive::Yes,
    {
        let r = IpchessHandler {
            substream_states: Vec::new(),
            handler_error_received: false,
            keep_alive: KeepAlive::Yes,
        };
        proof {
            assert(r.records() =~= Seq::<SubstreamView>::empty());
        }
        r
    }

    /// The protocol to advertise for inbound substreams.
    pub fn listen_protocol(&self) -> IpchessProtocol {
        IpchessProtocol {}
    }

    /// The overlay negotiated an inbound substream: record a pending read.
    pub fn inject_fully_negotiated_inbound(&mut self, substream_id: u64)
        ensures
            final(self).records() == old(self).records().push(
                SubstreamView::WaitingMessage(substream_id),
            ),
            final(self).is_poisoned() == old(self).is_poisoned(),
            final(self).keep_alive_state() == old(self).keep_alive_state(),
    {
        self.substream_states.push(SubstreamState::WaitingMessage { substream_id });
        proof {
            assert(self.records() =~= old(self).records().push(
                SubstreamView::WaitingMessage(substream_id),
            ));
        }
    }

    /// The overlay negotiated an outbound substream and the event loop has
    /// started writing the frame: record a pending write.
    pub fn inject_fully_negotiated_outbound(&mut self, substream_id: u64)
        ensures
            final(self).records() == old(self).records().push(
                SubstreamView::PendingSend(substream_id),
            ),
            final(self).is_poisoned() == old(self).is_poisoned(),
            final(self).keep_alive_state() == old(self).keep_alive_state(),
    {
        self.substream_states.push(SubstreamState::PendingSend { substream_id });
        proof {
            assert(self.records() =~= old(self).records().push(
                SubstreamView::PendingSend(substream_id),
            ));
        }
    }

    /// A behaviour command: the four sending variants buffer a frame to
    /// write; the poisoning command sets the poison flag instead.
    pub fn inject_event(&mut self, event: IpchessHandlerEventIn)
        ensures
            match frame_for_command(event@) {
                Option::Some(m) => final(self).records() == old(self).records().push(
                    SubstreamView::PendingOpen(m),
                ) && final(self).is_poisoned() == old(self).is_poisoned(),
                Option::None => final(self).records() == old(self).records()
                    && final(self).is_poisoned(),
            },
            final(self).keep_alive_state() == old(self).keep_alive_state(),
    {
        let msg: Message = match event {
            IpchessHandlerEventIn::Challenge { commitment } => Message {
                payload: Some(Payload::Challenge(Challenge { commitment })),
            },
            IpchessHandlerEventIn::ChallengeAccept { random } => Message {
                payload: Some(Payload::ChallengeAccept(ChallengeAccept { random })),
            },
            IpchessHandlerEventIn::ChallengeReveal { preimage } => Message {
                payload: Some(Payload::ChallengeReveal(ChallengeReveal { preimage })),
            },
            IpchessHandlerEventIn::ChallengeCancel => Message {
                payload: Some(Payload::ChallengeCancel(ChallengeCancel {})),
            },
            IpchessHandlerEventIn::ChallengeDecline => Message {
                payload: Some(Payload::ChallengeDecline(ChallengeDecline {})),
            },
            IpchessHandlerEventIn::ChallengePoisoned => {
                self.handler_error_received = true;
                return;
            },
        };
        self.substream_states.push(SubstreamState::PendingOpen(msg));
        proof {
            assert(self.records() =~= old(self).records().push(
                SubstreamView::PendingOpen(frame_for_command(event@)->Some_0),
            ));
        }
    }

    /// Negotiating an outbound substream failed: stop keeping the
    /// connection alive.
    pub fn inject_dial_upgrade_error(&mut self)
        ensures
            final(self).records() == old(self).records(),
            final(self).is_poisoned() == old(self).is_poisoned(),
            final(self).keep_alive_state() == KeepAlive::No,
    {
        self.keep_alive = KeepAlive::No;
    }

    /// The current keep-alive advice for the overlay.
    pub fn connection_keep_alive(&self) -> (r: KeepAlive)
        ensures
            r == self.keep_alive_state(),
    {
        self.keep_alive
    }

    /// The event loop finished writing the frame of a pending send: the
    /// record is done. A failed write instead closes the connection and
    /// drops the handler with it.
    pub fn on_send_complete(&mut self, substream_id: u64)
        requires
            old(self).records().contains(SubstreamView::PendingSend(substream_id)),
        ensures
            exists|i: int|
                0 <= i < old(self).records().len()
                && old(self).records()[i] == SubstreamView::PendingSend(substream_id)
                && final(self).records() == old(self).records().remove(i),
            final(self).is_poisoned() == old(self).is_poisoned(),
            final(self).keep_alive_state() == old(self).keep_alive_state(),
    {
        let n = self.substream_states.len();
        let mut i: usize = 0;
        while i < n
            invariant
                n == self.substream_states@.len(),
                i <= n,
                self == old(self),
                exists|j: int|
                    i <= j < self.records().len()
                    && self.records()[j] == SubstreamView::PendingSend(substream_id),
            decreases n - i,
        {
            let found = match &self.substream_states[i] {
                SubstreamState::PendingSend { substream_id: sid } => *sid == substream_id,
                _ => false,
            };
            if found {
                self.substream_states.remove(i);
                proof {
                    assert(self.records() =~= old(self).records().remove(i as int));
                }
                return;
            }
            proof {
                let j = choose|j: int|
                    i <= j < self.records().len()
                    && self.records()[j] == SubstreamView::PendingSend(substream_id);
                assert(j != i);
            }
            i += 1;
        }
        proof {
            assert(false);
        }
    }

    /// The event loop read a whole frame body from a waiting substream:
    /// the record is done; the frame decodes to exactly one event, or to
    /// nothing for a message without payload, or fails.
    pub fn on_message_read(&mut self, substream_id: u64, bytes: &Vec<u8>) -> (r: Result<
        Option<IpchessHandlerEventOut>,
        IpchessHandlerError,
    >)
        requires
            old(self).records().contains(SubstreamView::WaitingMessage(substream_id)),
        ensures
            exists|i: int|
                0 <= i < old(self).records().len()
                && old(self).records()[i] == SubstreamView::WaitingMessage(substream_id)
                && final(self).records() == old(self).records().remove(i),
            final(self).is_poisoned() == old(self).is_poisoned(),
            final(self).keep_alive_state() == old(self).keep_alive_state(),
            match r {
                Ok(out) => spec_parse_message(bytes@) is Some && (match out {
                    Option::Some(ev) => spec_parse_message(bytes@)->Some_0.payload is Some
                        && ev@ == event_for_payload(
                        spec_parse_message(bytes@)->Some_0.payload->Some_0,
                    ),
                    Option::None => spec_parse_message(bytes@)->Some_0.payload is None,
                }),
                Err(e) => spec_parse_message(bytes@) is None
                    && e == IpchessHandlerError::ProtobufDecode,
            },
    {
        self.remove_waiting(substream_id);
        match decode_message(bytes) {
            Err(_) => Err(IpchessHandlerError::ProtobufDecode),
            Ok(msg) => match msg.payload {
                Option::None => Ok(None),
                Option::Some(p) => {
                    let ev = match p {
                        Payload::Challenge(c) => IpchessHandlerEventOut::ChallengeReceived {
                            commitment: c.commitment,
                        },
                        Payload::ChallengeAccept(a) => IpchessHandlerEventOut::ChallengeAccepted {
                            random: a.random,
                        },
                        Payload::ChallengeReveal(v) =>
                            IpchessHandlerEventOut::ChallengeRevealReceived { preimage: v.preimage },
                        Payload::ChallengeCancel(_) => IpchessHandlerEventOut::ChallengeCanceled,
                        Payload::ChallengeDecline(_) => IpchessHandlerEventOut::ChallengeDeclined,
                    };
                    Ok(Some(ev))
                },
            },
        }
    }

    fn remove_waiting(&mut self, substream_id: u64)
        requires
            old(self).records().contains(SubstreamView::WaitingMessage(substream_id)),
        ensures
            exists|i: int|
                0 <= i < old(self).records().len()
                && old(self).records()[i] == SubstreamView::WaitingMessage(substream_id)
                && final(self).records() == old(self).records().remove(i),
            final(self).is_poisoned() == old(self).is_poisoned(),
            final(self).keep_alive_state() == old(self).keep_alive_state(),
    {
        let n = self.substream_states.len();
        let mut i: usize = 0;
        while i < n
            invariant
                n == self.substream_states@.len(),
                i <= n,
                self == old(self),
                exists|j: int|
                    i <= j < self.records().len()
                    && self.records()[j] == SubstreamView::WaitingMessage(substream_id),
            decreases n - i,
        {
            let found = match &self.substream_states[i] {
                SubstreamState::WaitingMessage { substream_id: sid } => *sid == substream_id,
                _ => false,
            };
            if found {
                self.substream_states.remove(i);
                proof {
                    assert(self.records() =~= old(self).records().remove(i as int));
                }
                return;
            }
            proof {
                let j = choose|j: int|
                    i <= j < self.records().len()
                    && self.records()[j] == SubstreamView::WaitingMessage(substream_id);
                assert(j != i);
            }
            i += 1;
        }
        proof {
            assert(false);
        }
    }

    /// Scheduling point: a poisoned handler asks the overlay to close the
    /// connection; otherwise one buffered frame, if any, is handed out as
    /// an outbound substream request; otherwise the keep-alive advice is
    /// refreshed and nothing is yielded.
    pub fn poll(&mut self, now_ms: u64) -> (r: HandlerPollResult)
        ensures
            final(self).is_poisoned() == old(self).is_poisoned(),
            old(self).is_poisoned() ==> ({
                &&& r == HandlerPollResult::Close(IpchessHandlerError::Poisoned)
                &&& final(self).records() == old(self).records()
                &&& final(self).keep_alive_state() == KeepAlive::No
            }),
            !old(self).is_poisoned() && (exists|i: int|
                0 <= i < old(self).records().len() && (#[trigger] old(self).records()[i])
                    is PendingOpen) ==> ({
                &&& match r {
                    HandlerPollResult::OutboundSubstreamRequest(msg) => exists|i: int|
                        0 <= i < old(self).records().len()
                        && (#[trigger] old(self).records()[i]) == SubstreamView::PendingOpen(msg@)
                        && final(self).records() == old(self).records().remove(i),
                    _ => false,
                }
                &&& final(self).keep_alive_state() == old(self).keep_alive_state()
            }),
            !old(self).is_poisoned() && (forall|i: int|
                0 <= i < old(self).records().len() ==> !((#[trigger] old(self).records()[i])
                    is PendingOpen)) ==> ({
                &&& r == HandlerPollResult::Pending
                &&& final(self).records() == old(self).records()
                &&& final(self).keep_alive_state() == next_keep_alive(
                    old(self).keep_alive_state(),
                    old(self).records().len() == 0,
                    now_ms,
                )
            }),
    {
        if self.handler_error_received {
            self.keep_alive = KeepAlive::No;
            return HandlerPollResult::Close(IpchessHandlerError::Poisoned);
        }
        let n = self.substream_states.len();
        let mut i: usize = 0;
        while i < n
            invariant
                n == self.substream_states@.len(),
                i <= n,
                self == old(self),
                !old(self).is_poisoned(),
                forall|j: int| 0 <= j < i ==> !((#[trigger] self.records()[j]) is PendingOpen),
            decreases n - i,
        {
            let found = match &self.substream_states[i] {
                SubstreamState::PendingOpen(_) => true,
                _ => false,
            };
            if found {
                proof {
                    assert(old(self).records()[i as int] == self.substream_states@[i as int]@);
                    assert(self.substream_states@[i as int]@ is PendingOpen);
                }
                let st = self.substream_states.remove(i);
                proof {
                    assert(self.records() =~= old(self).records().remove(i as int));
                    assert(st@ == old(self).records()[i as int]);
                }
                match st {
                    SubstreamState::PendingOpen(msg) => {
                        proof {
                            assert(old(self).records()[i as int]
                                == SubstreamView::PendingOpen(msg@));
                        }
                        return HandlerPollResult::OutboundSubstreamRequest(msg);
                    },
                    _ => {
                        proof {
                            assert(false);
                        }
                        return HandlerPollResult::Pending;
                    },
                }
            }
            i += 1;
        }
        if self.substream_states.len() == 0 {
            let is_yes = match self.keep_alive {
                KeepAlive::Yes => true,
                _ => false,
            };
            if is_yes {
                let deadline = if now_ms <= u64::MAX - IDLE_KEEP_ALIVE_MS {
                    now_ms + IDLE_KEEP_ALIVE_MS
                } else {
                    u64::MAX
                };
                self.keep_alive = KeepAlive::Until(deadline);
            }
        } else {
            self.keep_alive = KeepAlive::Yes;
        }
        HandlerPollResult::Pending
    }
}

} // verus!
