use ipchess::behaviour::AcceptedChallenge;
use ipchess::behaviour::BehaviourAction;
use ipchess::behaviour::ChallengeDirection;
use ipchess::behaviour::Ipchess;
use ipchess::behaviour::IpchessError;
use ipchess::behaviour::IpchessEvent;
use ipchess::behaviour::NotifyTarget;
use ipchess::codec::decode_frame;
use ipchess::codec::encode_frame;
use ipchess::codec::frame_len;
use ipchess::handler::HandlerPollResult;
use ipchess::handler::IpchessHandler;
use ipchess::handler::IpchessHandlerEventIn;
use ipchess::handler::IpchessHandlerEventOut;

use sha2::Digest;

const ALICE: u64 = 1;
const BOB: u64 = 2;
const CONN: u64 = 0;

fn drain(node: &mut Ipchess, now_ms: u64) -> Vec<BehaviourAction> {
    let mut actions = Vec::new();
    while let Some(action) = node.poll(now_ms) {
        actions.push(action);
    }
    actions
}

/// What the remote side's handler reports when this command's frame
/// arrives, as if carried over a faithful network.
fn deliver(command: IpchessHandlerEventIn) -> IpchessHandlerEventOut {
    match command {
        IpchessHandlerEventIn::Challenge { commitment } =>
            IpchessHandlerEventOut::ChallengeReceived { commitment },
        IpchessHandlerEventIn::ChallengeAccept { random } =>
            IpchessHandlerEventOut::ChallengeAccepted { random },
        IpchessHandlerEventIn::ChallengeReveal { preimage } =>
            IpchessHandlerEventOut::ChallengeRevealReceived { preimage },
        IpchessHandlerEventIn::ChallengeCancel => IpchessHandlerEventOut::ChallengeCanceled,
        IpchessHandlerEventIn::ChallengeDecline => IpchessHandlerEventOut::ChallengeDeclined,
        IpchessHandlerEventIn::ChallengePoisoned => panic!("poisoning is not a frame"),
    }
}

fn connected_pair() -> (Ipchess, Ipchess) {
    let mut alice = Ipchess::new();
    let mut bob = Ipchess::new();
    alice.inject_connection_established(BOB);
    bob.inject_connection_established(ALICE);
    (alice, bob)
}

fn the_command(action: &BehaviourAction) -> IpchessHandlerEventIn {
    match action {
        BehaviourAction::NotifyHandler { event, .. } => event.clone(),
        other => panic!("expected a handler command, got {:?}", other),
    }
}

#[test]
fn happy_path_agrees_on_seed() {
    let (mut alice, mut bob) = connected_pair();

    alice.challenge_peer(BOB, 0);
    let actions = drain(&mut alice, 0);
    assert_eq!(actions.len(), 1);
    let challenge_cmd = the_command(&actions[0]);
    let commitment = match &challenge_cmd {
        IpchessHandlerEventIn::Challenge { commitment } => commitment.clone(),
        other => panic!("expected a challenge command, got {:?}", other),
    };

    bob.inject_event(ALICE, CONN, deliver(challenge_cmd));
    let actions = drain(&mut bob, 0);
    assert_eq!(
        actions,
        vec![BehaviourAction::GenerateEvent(IpchessEvent::PeerChallenge { peer_id: ALICE })]
    );

    bob.accept_peer_challenge(ALICE, 0);
    let actions = drain(&mut bob, 0);
    assert_eq!(actions.len(), 1);
    let accept_cmd = the_command(&actions[0]);
    let random = match &accept_cmd {
        IpchessHandlerEventIn::ChallengeAccept { random } => random.clone(),
        other => panic!("expected an accept command, got {:?}", other),
    };
    assert_eq!(random.len(), 32);

    alice.inject_event(BOB, CONN, deliver(accept_cmd));
    let actions = drain(&mut alice, 0);
    assert_eq!(actions.len(), 2);
    let reveal_cmd = the_command(&actions[0]);
    let preimage = match &reveal_cmd {
        IpchessHandlerEventIn::ChallengeReveal { preimage } => preimage.clone(),
        other => panic!("expected a reveal command, got {:?}", other),
    };
    let alice_seed = match &actions[1] {
        BehaviourAction::GenerateEvent(IpchessEvent::ChallengeAccepted { peer_id, challenge }) => {
            assert_eq!(*peer_id, BOB);
            challenge.clone()
        },
        other => panic!("expected the negotiated pair, got {:?}", other),
    };

    // The commitment is the SHA-256 digest of the revealed preimage, and
    // not the preimage itself.
    assert_eq!(preimage.len(), 32);
    assert_eq!(commitment, sha2::Sha256::digest(&preimage).to_vec());
    assert_ne!(commitment, preimage);

    bob.inject_event(ALICE, CONN, deliver(reveal_cmd));
    let actions = drain(&mut bob, 0);
    assert_eq!(actions.len(), 1);
    let bob_seed = match &actions[0] {
        BehaviourAction::GenerateEvent(IpchessEvent::ChallengeAccepted { peer_id, challenge }) => {
            assert_eq!(*peer_id, ALICE);
            challenge.clone()
        },
        other => panic!("expected the negotiated pair, got {:?}", other),
    };

    assert_eq!(alice_seed, AcceptedChallenge { preimage: preimage.clone(), random: random.clone() });
    assert_eq!(alice_seed, bob_seed);

    // Both sides are back to empty slots: a fresh exchange works again.
    alice.challenge_peer(BOB, 1);
    assert_eq!(drain(&mut alice, 1).len(), 1);
    bob.accept_peer_challenge(ALICE, 1);
    assert_eq!(drain(&mut bob, 1).len(), 0);
}

#[test]
fn happy_path_over_the_wire() {
    // The same exchange, with every command framed by the connection
    // handlers and carried as bytes.
    let (mut alice, mut bob) = connected_pair();
    let mut alice_handler = IpchessHandler::new();
    let mut bob_handler = IpchessHandler::new();
    let mut next_substream: u64 = 0;

    let mut transmit = |sender: &mut IpchessHandler,
                        receiver: &mut IpchessHandler,
                        command: IpchessHandlerEventIn|
     -> IpchessHandlerEventOut {
        sender.inject_event(command);
        let msg = match sender.poll(0) {
            HandlerPollResult::OutboundSubstreamRequest(msg) => msg,
            other => panic!("expected a substream request, got {:?}", other),
        };
        let frame = encode_frame(&msg).unwrap();
        assert_eq!(frame_len(frame[0], frame[1]) as usize, frame.len() - 2);
        assert_eq!(decode_frame(&frame).unwrap(), msg);
        next_substream += 1;
        receiver.inject_fully_negotiated_inbound(next_substream);
        let body = frame[2..].to_vec();
        receiver.on_message_read(next_substream, &body).unwrap().unwrap()
    };

    alice.challenge_peer(BOB, 0);
    let cmd = the_command(&drain(&mut alice, 0)[0]);
    let ev = transmit(&mut alice_handler, &mut bob_handler, cmd);
    bob.inject_event(ALICE, CONN, ev);
    drain(&mut bob, 0);

    bob.accept_peer_challenge(ALICE, 0);
    let cmd = the_command(&drain(&mut bob, 0)[0]);
    let ev = transmit(&mut bob_handler, &mut alice_handler, cmd);
    alice.inject_event(BOB, CONN, ev);
    let actions = drain(&mut alice, 0);

    let cmd = the_command(&actions[0]);
    let ev = transmit(&mut alice_handler, &mut bob_handler, cmd);
    bob.inject_event(ALICE, CONN, ev);
    let actions = drain(&mut bob, 0);
    assert!(matches!(
        actions[0],
        BehaviourAction::GenerateEvent(IpchessEvent::ChallengeAccepted { peer_id: ALICE, .. })
    ));
}

#[test]
fn decline_clears_both_sides() {
    let (mut alice, mut bob) = connected_pair();
    alice.challenge_peer(BOB, 0);
    let challenge_cmd = the_command(&drain(&mut alice, 0)[0]);
    bob.inject_event(ALICE, CONN, deliver(challenge_cmd));
    drain(&mut bob, 0);

    bob.decline_peer_challenge(ALICE);
    let actions = drain(&mut bob, 0);
    assert_eq!(actions.len(), 1);
    let decline_cmd = the_command(&actions[0]);

    alice.inject_event(BOB, CONN, deliver(decline_cmd));
    let actions = drain(&mut alice, 0);
    assert_eq!(
        actions,
        vec![BehaviourAction::GenerateEvent(IpchessEvent::ChallengeDeclined { peer_id: BOB })]
    );

    // Alice's outbound slot is gone: a stale accept from Bob is ignored.
    alice.inject_event(BOB, CONN, IpchessHandlerEventOut::ChallengeAccepted { random: vec![1; 32] });
    assert_eq!(drain(&mut alice, 0), vec![]);
    // Bob's inbound slot is gone: declining again is a no-op.
    bob.decline_peer_challenge(ALICE);
    assert_eq!(drain(&mut bob, 0), vec![]);
}

#[test]
fn cancel_clears_both_sides() {
    let (mut alice, mut bob) = connected_pair();
    alice.challenge_peer(BOB, 0);
    let challenge_cmd = the_command(&drain(&mut alice, 0)[0]);
    bob.inject_event(ALICE, CONN, deliver(challenge_cmd));
    drain(&mut bob, 0);

    alice.cancel_challenge(BOB);
    let actions = drain(&mut alice, 0);
    assert_eq!(actions.len(), 1);
    let cancel_cmd = the_command(&actions[0]);

    bob.inject_event(ALICE, CONN, deliver(cancel_cmd));
    let actions = drain(&mut bob, 0);
    assert_eq!(
        actions,
        vec![BehaviourAction::GenerateEvent(IpchessEvent::ChallengeCanceled { peer_id: ALICE })]
    );

    // Cancelling again changes nothing.
    alice.cancel_challenge(BOB);
    assert_eq!(drain(&mut alice, 0), vec![]);
}

#[test]
fn tampered_reveal_is_rejected() {
    let (mut alice, mut bob) = connected_pair();
    alice.challenge_peer(BOB, 0);
    let challenge_cmd = the_command(&drain(&mut alice, 0)[0]);
    bob.inject_event(ALICE, CONN, deliver(challenge_cmd));
    drain(&mut bob, 0);
    bob.accept_peer_challenge(ALICE, 0);
    let accept_cmd = the_command(&drain(&mut bob, 0)[0]);
    alice.inject_event(BOB, CONN, deliver(accept_cmd));
    let actions = drain(&mut alice, 0);

    // Intercept the reveal and flip one bit of the preimage.
    let mut preimage = match the_command(&actions[0]) {
        IpchessHandlerEventIn::ChallengeReveal { preimage } => preimage,
        other => panic!("expected a reveal command, got {:?}", other),
    };
    preimage[13] ^= 0x20;

    bob.inject_event(ALICE, 7, IpchessHandlerEventOut::ChallengeRevealReceived { preimage });
    let actions = drain(&mut bob, 0);
    assert_eq!(
        actions,
        vec![
            BehaviourAction::NotifyHandler {
                peer_id: ALICE,
                target: NotifyTarget::One { connection_id: 7 },
                event: IpchessHandlerEventIn::ChallengePoisoned,
            },
            BehaviourAction::GenerateEvent(IpchessEvent::Error(
                IpchessError::ChallengeCommitmentPreimageMismatch,
            )),
        ]
    );
}

#[test]
fn reveal_before_accept_is_poisoned() {
    let (mut alice, mut bob) = connected_pair();
    alice.challenge_peer(BOB, 0);
    let challenge_cmd = the_command(&drain(&mut alice, 0)[0]);
    bob.inject_event(ALICE, CONN, deliver(challenge_cmd));
    drain(&mut bob, 0);

    // Bob has not accepted, yet a reveal arrives.
    bob.inject_event(ALICE, 3, IpchessHandlerEventOut::ChallengeRevealReceived {
        preimage: vec![0; 32],
    });
    let actions = drain(&mut bob, 0);
    assert_eq!(
        actions,
        vec![
            BehaviourAction::NotifyHandler {
                peer_id: ALICE,
                target: NotifyTarget::One { connection_id: 3 },
                event: IpchessHandlerEventIn::ChallengePoisoned,
            },
            BehaviourAction::GenerateEvent(IpchessEvent::Error(IpchessError::ChallengePoisoned)),
        ]
    );
    // The slot is cleared: a second reveal is stale and ignored.
    bob.inject_event(ALICE, 3, IpchessHandlerEventOut::ChallengeRevealReceived {
        preimage: vec![0; 32],
    });
    assert_eq!(drain(&mut bob, 0), vec![]);
}

#[test]
fn unsolicited_reveal_is_ignored() {
    let (mut alice, _) = connected_pair();
    alice.inject_event(BOB, CONN, IpchessHandlerEventOut::ChallengeRevealReceived {
        preimage: vec![5; 32],
    });
    assert_eq!(drain(&mut alice, 0), vec![]);
}

#[test]
fn challenge_is_idempotent() {
    let (mut alice, _) = connected_pair();
    alice.challenge_peer(BOB, 0);
    alice.challenge_peer(BOB, 1);
    // Exactly one handler command for the two calls.
    assert_eq!(drain(&mut alice, 1).len(), 1);
}

#[test]
fn accept_without_challenge_is_ignored() {
    let (_, mut bob) = connected_pair();
    bob.accept_peer_challenge(ALICE, 0);
    assert_eq!(drain(&mut bob, 0), vec![]);
}

#[test]
fn accept_twice_sends_one_random() {
    let (mut alice, mut bob) = connected_pair();
    alice.challenge_peer(BOB, 0);
    let challenge_cmd = the_command(&drain(&mut alice, 0)[0]);
    bob.inject_event(ALICE, CONN, deliver(challenge_cmd));
    drain(&mut bob, 0);
    bob.accept_peer_challenge(ALICE, 0);
    bob.accept_peer_challenge(ALICE, 1);
    assert_eq!(drain(&mut bob, 1).len(), 1);
}

#[test]
fn cancel_then_challenge_gives_fresh_commitment() {
    let (mut alice, _) = connected_pair();
    alice.challenge_peer(BOB, 0);
    let first = match the_command(&drain(&mut alice, 0)[0]) {
        IpchessHandlerEventIn::Challenge { commitment } => commitment,
        other => panic!("expected a challenge command, got {:?}", other),
    };
    alice.cancel_challenge(BOB);
    drain(&mut alice, 0);
    alice.challenge_peer(BOB, 0);
    let second = match the_command(&drain(&mut alice, 0)[0]) {
        IpchessHandlerEventIn::Challenge { commitment } => commitment,
        other => panic!("expected a challenge command, got {:?}", other),
    };
    // Fresh draw: equal only if two 256-bit draws collide.
    assert_ne!(first, second);
}

#[test]
fn challenge_while_disconnected_dials_and_queues() {
    let mut alice = Ipchess::new();
    alice.challenge_peer(BOB, 0);
    let actions = drain(&mut alice, 0);
    assert_eq!(actions, vec![BehaviourAction::Dial { peer_id: BOB }]);

    // On connection establishment the queued command is replayed, once.
    alice.inject_connection_established(BOB);
    let actions = drain(&mut alice, 0);
    assert_eq!(actions.len(), 1);
    assert!(matches!(
        the_command(&actions[0]),
        IpchessHandlerEventIn::Challenge { .. }
    ));
    let actions = drain(&mut alice, 0);
    assert_eq!(actions, vec![]);
}

#[test]
fn disconnect_keeps_slots_for_retry() {
    let (mut alice, _) = connected_pair();
    alice.challenge_peer(BOB, 0);
    drain(&mut alice, 0);
    alice.inject_disconnected(BOB);
    // The outbound slot survives: a cancel still sends (queued + dial).
    alice.cancel_challenge(BOB);
    let actions = drain(&mut alice, 0);
    assert_eq!(actions, vec![BehaviourAction::Dial { peer_id: BOB }]);
    alice.inject_connection_established(BOB);
    let actions = drain(&mut alice, 0);
    assert_eq!(actions.len(), 1);
    assert!(matches!(the_command(&actions[0]), IpchessHandlerEventIn::ChallengeCancel));
}

#[test]
fn outbound_challenge_times_out() {
    let (mut alice, _) = connected_pair();
    alice.challenge_peer(BOB, 1000);
    drain(&mut alice, 1000);
    // One millisecond before the default five minutes: nothing.
    assert_eq!(drain(&mut alice, 300999), vec![]);
    let actions = drain(&mut alice, 301000);
    assert_eq!(
        actions,
        vec![BehaviourAction::GenerateEvent(IpchessEvent::Error(IpchessError::Timeout {
            peer_id: BOB,
            direction: ChallengeDirection::Outbound,
        }))]
    );
    // The slot was cleared: no second report.
    assert_eq!(drain(&mut alice, 400000), vec![]);
    // And a new challenge is possible.
    alice.challenge_peer(BOB, 400000);
    assert_eq!(drain(&mut alice, 400000).len(), 1);
}

#[test]
fn pending_reveal_times_out() {
    let (mut alice, mut bob) = connected_pair();
    alice.challenge_peer(BOB, 0);
    let challenge_cmd = the_command(&drain(&mut alice, 0)[0]);
    bob.inject_event(ALICE, CONN, deliver(challenge_cmd));
    drain(&mut bob, 0);

    // A slot still waiting for the local decision never times out.
    assert_eq!(drain(&mut bob, 600000), vec![]);

    bob.accept_peer_challenge(ALICE, 600000);
    drain(&mut bob, 600000);
    assert_eq!(drain(&mut bob, 614999), vec![]);
    let actions = drain(&mut bob, 615000);
    assert_eq!(
        actions,
        vec![BehaviourAction::GenerateEvent(IpchessEvent::Error(IpchessError::Timeout {
            peer_id: ALICE,
            direction: ChallengeDirection::Inbound,
        }))]
    );
}

#[test]
fn configured_timeouts_are_honoured() {
    let mut alice = Ipchess::with_timeouts(50, 20);
    alice.inject_connection_established(BOB);
    alice.challenge_peer(BOB, 0);
    drain(&mut alice, 0);
    assert_eq!(drain(&mut alice, 49), vec![]);
    let actions = drain(&mut alice, 50);
    assert_eq!(
        actions,
        vec![BehaviourAction::GenerateEvent(IpchessEvent::Error(IpchessError::Timeout {
            peer_id: BOB,
            direction: ChallengeDirection::Outbound,
        }))]
    );
}

#[test]
fn second_challenge_overwrites_inbound_slot() {
    let (_, mut bob) = connected_pair();
    bob.inject_event(ALICE, CONN, IpchessHandlerEventOut::ChallengeReceived {
        commitment: vec![1; 32],
    });
    drain(&mut bob, 0);
    // Last writer wins.
    bob.inject_event(ALICE, CONN, IpchessHandlerEventOut::ChallengeReceived {
        commitment: sha2::Sha256::digest(&[2u8; 32]).to_vec(),
    });
    drain(&mut bob, 0);
    bob.accept_peer_challenge(ALICE, 0);
    drain(&mut bob, 0);
    bob.inject_event(ALICE, CONN, IpchessHandlerEventOut::ChallengeRevealReceived {
        preimage: vec![2; 32],
    });
    let actions = drain(&mut bob, 0);
    assert!(matches!(
        actions[0],
        BehaviourAction::GenerateEvent(IpchessEvent::ChallengeAccepted { peer_id: ALICE, .. })
    ));
}
