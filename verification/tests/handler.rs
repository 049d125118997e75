use ipchess::codec::Challenge;
use ipchess::codec::ChallengeAccept;
use ipchess::codec::ChallengeCancel;
use ipchess::codec::ChallengeDecline;
use ipchess::codec::ChallengeReveal;
use ipchess::codec::Message;
use ipchess::codec::Payload;
use ipchess::codec::encode_message;
use ipchess::handler::HandlerPollResult;
use ipchess::handler::IpchessHandler;
use ipchess::handler::IpchessHandlerError;
use ipchess::handler::IpchessHandlerEventIn;
use ipchess::handler::IpchessHandlerEventOut;
use ipchess::handler::KeepAlive;

#[test]
fn protocol_identifier() {
    let handler = IpchessHandler::new();
    let protocol = handler.listen_protocol();
    assert_eq!(protocol.protocol_info(), "/ipchess/1.0.0");
}

#[test]
fn command_becomes_outbound_request() {
    let mut handler = IpchessHandler::new();
    handler.inject_event(IpchessHandlerEventIn::Challenge { commitment: vec![1, 2, 3] });
    match handler.poll(0) {
        HandlerPollResult::OutboundSubstreamRequest(msg) => match msg.payload {
            Some(Payload::Challenge(c)) => assert_eq!(c.commitment, vec![1, 2, 3]),
            other => panic!("wrong payload: {:?}", other),
        },
        other => panic!("expected a substream request, got {:?}", other),
    }
    // The buffered frame is gone; nothing further to hand out.
    assert!(matches!(handler.poll(0), HandlerPollResult::Pending));
}

#[test]
fn poisoning_closes_the_connection() {
    let mut handler = IpchessHandler::new();
    handler.inject_event(IpchessHandlerEventIn::ChallengePoisoned);
    assert!(matches!(
        handler.poll(0),
        HandlerPollResult::Close(IpchessHandlerError::Poisoned)
    ));
    assert_eq!(handler.connection_keep_alive(), KeepAlive::No);
    // Poisoning is one-way.
    assert!(matches!(
        handler.poll(5),
        HandlerPollResult::Close(IpchessHandlerError::Poisoned)
    ));
}

#[test]
fn keep_alive_counts_down_when_idle() {
    let mut handler = IpchessHandler::new();
    assert_eq!(handler.connection_keep_alive(), KeepAlive::Yes);
    assert!(matches!(handler.poll(1000), HandlerPollResult::Pending));
    assert_eq!(handler.connection_keep_alive(), KeepAlive::Until(31000));
    // A later idle poll does not push the deadline out.
    assert!(matches!(handler.poll(2000), HandlerPollResult::Pending));
    assert_eq!(handler.connection_keep_alive(), KeepAlive::Until(31000));
}

#[test]
fn keep_alive_stays_yes_while_work_remains() {
    let mut handler = IpchessHandler::new();
    handler.inject_fully_negotiated_inbound(4);
    assert!(matches!(handler.poll(1000), HandlerPollResult::Pending));
    assert_eq!(handler.connection_keep_alive(), KeepAlive::Yes);
}

#[test]
fn dial_upgrade_error_stops_keep_alive() {
    let mut handler = IpchessHandler::new();
    handler.inject_dial_upgrade_error();
    assert_eq!(handler.connection_keep_alive(), KeepAlive::No);
}

#[test]
fn send_completion_retires_the_record() {
    let mut handler = IpchessHandler::new();
    handler.inject_fully_negotiated_outbound(9);
    handler.on_send_complete(9);
    assert!(matches!(handler.poll(500), HandlerPollResult::Pending));
    assert_eq!(handler.connection_keep_alive(), KeepAlive::Until(30500));
}

fn read_one(handler: &mut IpchessHandler, substream_id: u64, msg: &Message)
    -> Option<IpchessHandlerEventOut>
{
    handler.inject_fully_negotiated_inbound(substream_id);
    let bytes = encode_message(msg).unwrap();
    handler.on_message_read(substream_id, &bytes).unwrap()
}

#[test]
fn inbound_frames_map_to_events() {
    let mut handler = IpchessHandler::new();
    let ev = read_one(&mut handler, 1, &Message {
        payload: Some(Payload::Challenge(Challenge { commitment: vec![7; 32] })),
    });
    assert_eq!(ev, Some(IpchessHandlerEventOut::ChallengeReceived { commitment: vec![7; 32] }));
    let ev = read_one(&mut handler, 2, &Message {
        payload: Some(Payload::ChallengeAccept(ChallengeAccept { random: vec![8; 32] })),
    });
    assert_eq!(ev, Some(IpchessHandlerEventOut::ChallengeAccepted { random: vec![8; 32] }));
    let ev = read_one(&mut handler, 3, &Message {
        payload: Some(Payload::ChallengeReveal(ChallengeReveal { preimage: vec![9; 32] })),
    });
    assert_eq!(
        ev,
        Some(IpchessHandlerEventOut::ChallengeRevealReceived { preimage: vec![9; 32] })
    );
    let ev = read_one(&mut handler, 4, &Message {
        payload: Some(Payload::ChallengeCancel(ChallengeCancel {})),
    });
    assert_eq!(ev, Some(IpchessHandlerEventOut::ChallengeCanceled));
    let ev = read_one(&mut handler, 5, &Message {
        payload: Some(Payload::ChallengeDecline(ChallengeDecline {})),
    });
    assert_eq!(ev, Some(IpchessHandlerEventOut::ChallengeDeclined));
}

#[test]
fn payloadless_frame_is_dropped() {
    let mut handler = IpchessHandler::new();
    handler.inject_fully_negotiated_inbound(6);
    let ev = handler.on_message_read(6, &vec![]).unwrap();
    assert_eq!(ev, None);
}

#[test]
fn garbage_frame_is_a_decode_error() {
    let mut handler = IpchessHandler::new();
    handler.inject_fully_negotiated_inbound(7);
    let err = handler.on_message_read(7, &vec![0xFF, 0xFF, 0x01]).unwrap_err();
    assert_eq!(err, IpchessHandlerError::ProtobufDecode);
}
