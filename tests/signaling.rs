use signaling::client::{ClientAction, ClientEvent, ClientState};
use signaling::lifecycle::{silence_since, step};
use signaling::message::{MessageKind, SignalError, SignalingMessage};
use signaling::model::{Liveness, RouteOutcome, SessionState};
use signaling::server::Server;
use signaling::wire::{decode, encode};

fn msg(kind: MessageKind, sender: u64, session: &str, payload: &str) -> SignalingMessage {
    SignalingMessage::new(kind, sender, session.to_string(), payload.to_string())
}

fn room(name: &str) -> String {
    name.to_string()
}

#[test]
fn room_scenario() {
    let mut s = Server::new(2, 30, 30);
    let a = s.register(0).unwrap();
    let b = s.register(0).unwrap();
    let c = s.register(0).unwrap();
    assert_eq!(s.create_or_join(&room("room1"), a, 1), Ok(SessionState::Open));
    assert_eq!(s.members(&room("room1")), vec![a]);
    assert_eq!(s.create_or_join(&room("room1"), b, 2), Ok(SessionState::Full));
    assert_eq!(s.members(&room("room1")), vec![a, b]);
    assert_eq!(s.create_or_join(&room("room1"), c, 3), Err(SignalError::SessionFull));
    assert_eq!(s.route(msg(MessageKind::Offer, a, "room1", "sdp1"), 4), Ok(RouteOutcome::Relayed));
    let got = &s.lookup(b).unwrap().outbox;
    assert_eq!(got.len(), 1);
    assert_eq!(got[0].kind, MessageKind::Offer);
    assert_eq!(got[0].sender_id, a);
    assert_eq!(got[0].payload, "sdp1");
    assert!(s.lookup(a).unwrap().outbox.is_empty());
    assert!(s.lookup(c).unwrap().outbox.is_empty());
    s.unregister(b);
    assert_eq!(s.members(&room("room1")), vec![a]);
    assert_eq!(s.session_state(&room("room1")), SessionState::Open);
    assert_eq!(
        s.route(msg(MessageKind::Leave, a, "room1", ""), 5),
        Ok(RouteOutcome::Left(SessionState::Closed))
    );
    assert_eq!(s.session_state(&room("room1")), SessionState::Closed);
    assert!(s.members(&room("room1")).is_empty());
    assert_eq!(s.lookup(a).unwrap().session, None);
}

#[test]
fn third_join_is_rejected() {
    let mut s = Server::new(2, 30, 30);
    let ids: Vec<u64> = (0..3).map(|_| s.register(0).unwrap()).collect();
    assert_eq!(s.create_or_join(&room("r"), ids[2], 0), Ok(SessionState::Open));
    assert_eq!(s.create_or_join(&room("r"), ids[0], 0), Ok(SessionState::Full));
    assert_eq!(s.create_or_join(&room("r"), ids[1], 0), Err(SignalError::SessionFull));
    // a member joining again changes nothing
    assert_eq!(s.create_or_join(&room("r"), ids[0], 0), Ok(SessionState::Full));
    assert_eq!(s.members(&room("r")), vec![ids[2], ids[0]]);
    assert_eq!(s.lookup(ids[1]).unwrap().session, None);
}

#[test]
fn join_through_the_router() {
    let mut s = Server::new(3, 30, 30);
    let a = s.register(0).unwrap();
    assert_eq!(
        s.route(msg(MessageKind::Join, a, "lobby", ""), 7),
        Ok(RouteOutcome::Joined(SessionState::Open))
    );
    assert_eq!(s.lookup(a).unwrap().session, Some("lobby".to_string()));
    assert_eq!(s.route(msg(MessageKind::Join, 99, "lobby", ""), 7), Err(SignalError::UnknownConnection));
}

#[test]
fn capacity_one_session_is_full_at_once() {
    let mut s = Server::new(1, 30, 30);
    let a = s.register(0).unwrap();
    let b = s.register(0).unwrap();
    assert_eq!(s.create_or_join(&room("solo"), a, 0), Ok(SessionState::Full));
    assert_eq!(s.create_or_join(&room("solo"), b, 0), Err(SignalError::SessionFull));
}

#[test]
fn unregistered_connection_is_gone() {
    let mut s = Server::new(3, 30, 30);
    let a = s.register(0).unwrap();
    let b = s.register(0).unwrap();
    s.create_or_join(&room("x"), a, 0).unwrap();
    s.create_or_join(&room("x"), b, 0).unwrap();
    s.unregister(a);
    assert!(s.lookup(a).is_none());
    assert_eq!(s.members(&room("x")), vec![b]);
    s.unregister(b);
    assert_eq!(s.session_state(&room("x")), SessionState::Closed);
}

#[test]
fn unregister_twice_is_a_no_op() {
    let mut s = Server::new(2, 30, 30);
    let a = s.register(0).unwrap();
    let b = s.register(0).unwrap();
    s.create_or_join(&room("x"), b, 0).unwrap();
    s.unregister(a);
    s.unregister(a);
    s.unregister(77);
    assert!(s.lookup(a).is_none());
    assert!(s.lookup(b).is_some());
    assert_eq!(s.members(&room("x")), vec![b]);
}

#[test]
fn relay_reaches_members_in_order() {
    let mut s = Server::new(4, 30, 30);
    let a = s.register(0).unwrap();
    let b = s.register(0).unwrap();
    let c = s.register(0).unwrap();
    let d = s.register(0).unwrap();
    s.create_or_join(&room("s1"), a, 0).unwrap();
    s.create_or_join(&room("s1"), b, 0).unwrap();
    s.create_or_join(&room("s1"), c, 0).unwrap();
    s.create_or_join(&room("s2"), d, 0).unwrap();
    assert_eq!(s.route(msg(MessageKind::Offer, a, "s1", "o1"), 1), Ok(RouteOutcome::Relayed));
    assert_eq!(s.route(msg(MessageKind::IceCandidate, b, "s1", "ice1"), 2), Ok(RouteOutcome::Relayed));
    assert_eq!(s.route(msg(MessageKind::Answer, a, "s1", "a1"), 3), Ok(RouteOutcome::Relayed));
    let pay = |id: u64| -> Vec<String> {
        s.lookup(id).unwrap().outbox.iter().map(|m| m.payload.clone()).collect()
    };
    assert_eq!(pay(a), vec!["ice1".to_string()]);
    assert_eq!(pay(b), vec!["o1".to_string(), "a1".to_string()]);
    assert_eq!(pay(c), vec!["o1".to_string(), "ice1".to_string(), "a1".to_string()]);
    assert!(pay(d).is_empty());
}

#[test]
fn routing_errors() {
    let mut s = Server::new(2, 30, 30);
    let a = s.register(0).unwrap();
    let b = s.register(0).unwrap();
    s.create_or_join(&room("r"), a, 0).unwrap();
    assert_eq!(s.route(msg(MessageKind::Offer, a, "nope", "sdp"), 0), Err(SignalError::UnknownSession));
    assert_eq!(s.route(msg(MessageKind::Offer, b, "r", "sdp"), 0), Err(SignalError::NotAMember));
    assert_eq!(s.route(msg(MessageKind::Answer, a, "r", ""), 0), Err(SignalError::MalformedMessage));
    assert_eq!(s.route(msg(MessageKind::Leave, b, "r", ""), 0), Err(SignalError::NotAMember));
    assert_eq!(s.route(msg(MessageKind::Leave, a, "zz", ""), 0), Err(SignalError::UnknownSession));
    assert_eq!(s.create_or_join(&room("other"), a, 0), Err(SignalError::AlreadyInSession));
    assert_eq!(s.leave(&room("r"), b), Err(SignalError::NotAMember));
    assert_eq!(s.members(&room("r")), vec![a]);
}

#[test]
fn send_to_closed_transport_fails() {
    let mut s = Server::new(2, 30, 30);
    let a = s.register(0).unwrap();
    assert_eq!(s.send(a, msg(MessageKind::Offer, 5, "r", "p")), Ok(()));
    assert_eq!(s.lookup(a).unwrap().outbox.len(), 1);
    s.unregister(a);
    assert_eq!(s.send(a, msg(MessageKind::Offer, 5, "r", "p")), Err(SignalError::SendError));
}

#[test]
fn ids_are_handed_out_in_order() {
    let mut s = Server::new(2, 30, 30);
    assert_eq!(s.register(0), Some(0));
    assert_eq!(s.register(0), Some(1));
    s.unregister(0);
    assert_eq!(s.register(0), Some(2));
}

#[test]
fn lifecycle_steps() {
    assert_eq!(step(Liveness::Active, 9, 10, 5), Liveness::Active);
    assert_eq!(step(Liveness::Active, 10, 10, 5), Liveness::Idle);
    assert_eq!(step(Liveness::Active, 1000, 10, 5), Liveness::Idle);
    assert_eq!(step(Liveness::Idle, 14, 10, 5), Liveness::Idle);
    assert_eq!(step(Liveness::Idle, 15, 10, 5), Liveness::Disconnected);
    assert_eq!(step(Liveness::Idle, u64::MAX, u64::MAX, u64::MAX), Liveness::Idle);
    assert_eq!(silence_since(20, 5), 15);
    assert_eq!(silence_since(5, 20), 0);
}

#[test]
fn sweep_retires_silent_connections() {
    let mut s = Server::new(2, 10, 5);
    let a = s.register(0).unwrap();
    let b = s.register(0).unwrap();
    s.create_or_join(&room("r"), a, 0).unwrap();
    s.create_or_join(&room("r"), b, 0).unwrap();
    assert!(s.sweep(5).is_empty());
    assert_eq!(s.lookup(a).unwrap().liveness, Liveness::Active);
    s.touch(b, 8);
    assert!(s.sweep(12).is_empty());
    assert_eq!(s.lookup(a).unwrap().liveness, Liveness::Idle);
    assert_eq!(s.lookup(b).unwrap().liveness, Liveness::Active);
    assert_eq!(s.sweep(16), vec![a]);
    assert!(s.lookup(a).is_none());
    assert_eq!(s.members(&room("r")), vec![b]);
    assert_eq!(s.lookup(b).unwrap().liveness, Liveness::Active);
    assert!(s.sweep(18).is_empty());
    assert_eq!(s.lookup(b).unwrap().liveness, Liveness::Idle);
    assert_eq!(s.sweep(23), vec![b]);
    assert_eq!(s.session_state(&room("r")), SessionState::Closed);
}

#[test]
fn client_opens_socket_after_media() {
    let mut c = ClientState::new();
    assert_eq!(c.handle(ClientEvent::TestSocket), ClientAction::ReportNoSocket);
    assert_eq!(c.handle(ClientEvent::SocketOpened), ClientAction::Nothing);
    assert!(!c.socket_open);
    assert_eq!(c.handle(ClientEvent::StartSession), ClientAction::RequestMedia);
    assert!(c.awaiting_media);
    assert_eq!(c.handle(ClientEvent::GotMedia), ClientAction::OpenSocket);
    assert!(c.has_media && !c.awaiting_media);
    assert_eq!(c.handle(ClientEvent::SocketOpened), ClientAction::Nothing);
    assert_eq!(c.handle(ClientEvent::TestSocket), ClientAction::SendTest);
    assert_eq!(c.handle(ClientEvent::SocketFailed), ClientAction::ReportSocketFailure);
    assert_eq!(c.handle(ClientEvent::TestSocket), ClientAction::ReportNoSocket);
}

#[test]
fn client_media_failure_is_reported() {
    let mut c = ClientState::new();
    c.handle(ClientEvent::StartSession);
    assert_eq!(c.handle(ClientEvent::FailedMedia), ClientAction::ReportMediaFailure);
    assert_eq!(c, ClientState { awaiting_media: false, has_media: false, socket_open: false });
}

#[test]
fn zero_capacity_rejects_every_join() {
    let mut s = Server::new(0, 30, 30);
    let a = s.register(0).unwrap();
    assert_eq!(s.create_or_join(&room("r"), a, 0), Err(SignalError::SessionFull));
    assert_eq!(s.session_state(&room("r")), SessionState::Closed);
    assert_eq!(s.lookup(a).unwrap().session, None);
}

#[test]
fn touch_of_unknown_id_is_ignored() {
    let mut s = Server::new(2, 10, 5);
    let a = s.register(3).unwrap();
    s.touch(42, 9);
    assert_eq!(s.lookup(a).unwrap().last_activity, 3);
    s.touch(a, 9);
    assert_eq!(s.lookup(a).unwrap().last_activity, 9);
}

#[test]
fn frames_escape_quotes_and_backslashes() {
    let m = msg(MessageKind::IceCandidate, 1234567890, "a\"b", "x\\y");
    assert_eq!(
        encode(&m),
        "{\"type\":\"ice\",\"session_id\":\"a\\\"b\",\"sender_id\":\"1234567890\",\"payload\":\"x\\\\y\"}"
    );
    let j = msg(MessageKind::Join, 0, "", "");
    assert_eq!(encode(&j), "{\"type\":\"join\",\"session_id\":\"\",\"sender_id\":\"0\",\"payload\":\"\"}");
    let big = msg(MessageKind::Answer, u64::MAX, "é", "ü");
    assert_eq!(
        encode(&big),
        "{\"type\":\"answer\",\"session_id\":\"é\",\"sender_id\":\"18446744073709551615\",\"payload\":\"ü\"}"
    );
}

#[test]
fn relayed_offer_goes_out_as_a_frame() {
    let mut s = Server::new(2, 30, 30);
    let a = s.register(0).unwrap();
    let b = s.register(0).unwrap();
    s.create_or_join(&room("room1"), a, 0).unwrap();
    s.create_or_join(&room("room1"), b, 0).unwrap();
    s.route(msg(MessageKind::Offer, a, "room1", "sdp1"), 1).unwrap();
    let out = &s.lookup(b).unwrap().outbox;
    assert_eq!(
        encode(&out[0]),
        "{\"type\":\"offer\",\"session_id\":\"room1\",\"sender_id\":\"0\",\"payload\":\"sdp1\"}"
    );
}

#[test]
fn frames_decode_to_their_message() {
    let cases = vec![
        msg(MessageKind::Offer, 0, "room1", "sdp1"),
        msg(MessageKind::Answer, 42, "a\"b\\c", "v=0\r\no=- 1 2 IN IP4 0.0.0.0"),
        msg(MessageKind::IceCandidate, u64::MAX, "é", "candidate:1 1 udp"),
        msg(MessageKind::Join, 7, "", ""),
        msg(MessageKind::Leave, 10, "x", "\\\""),
    ];
    for m in cases {
        assert_eq!(decode(&encode(&m)), Ok(m));
    }
    let parsed = decode("{\"type\":\"offer\",\"session_id\":\"room1\",\"sender_id\":\"3\",\"payload\":\"sdp1\"}").unwrap();
    assert_eq!(parsed, msg(MessageKind::Offer, 3, "room1", "sdp1"));
}

#[test]
fn malformed_frames_are_refused() {
    let bad = vec![
        "",
        "{}",
        "{\"type\":\"hello\",\"session_id\":\"r\",\"sender_id\":\"1\",\"payload\":\"p\"}",
        "{\"type\":\"offer\",\"session_id\":\"r\",\"sender_id\":\"01\",\"payload\":\"p\"}",
        "{\"type\":\"offer\",\"session_id\":\"r\",\"sender_id\":\"\",\"payload\":\"p\"}",
        "{\"type\":\"offer\",\"session_id\":\"r\",\"sender_id\":\"18446744073709551616\",\"payload\":\"p\"}",
        "{\"type\":\"offer\",\"session_id\":\"r\",\"sender_id\":\"1a\",\"payload\":\"p\"}",
        "{\"type\":\"offer\",\"session_id\":\"r\\n\",\"sender_id\":\"1\",\"payload\":\"p\"}",
        "{\"type\":\"offer\",\"session_id\":\"r\",\"sender_id\":\"1\",\"payload\":\"p\"} ",
        "{\"type\":\"offer\",\"session_id\":\"r\",\"sender_id\":\"1\",\"payload\":\"p",
        "{\"type\": \"offer\",\"session_id\":\"r\",\"sender_id\":\"1\",\"payload\":\"p\"}",
    ];
    for f in bad {
        assert_eq!(decode(f), Err(SignalError::MalformedMessage), "{}", f);
    }
}

#[test]
fn frames_are_routed_from_their_connection() {
    let mut s = Server::new(2, 10, 10);
    let a = s.register(0).unwrap();
    let b = s.register(0).unwrap();
    let join = |id: u64| encode(&msg(MessageKind::Join, id, "room1", ""));
    assert_eq!(s.receive(a, &join(a), 1), Ok(RouteOutcome::Joined(SessionState::Open)));
    assert_eq!(s.receive(b, &join(b), 2), Ok(RouteOutcome::Joined(SessionState::Full)));
    let offer = encode(&msg(MessageKind::Offer, a, "room1", "sdp1"));
    assert_eq!(s.receive(a, &offer, 5), Ok(RouteOutcome::Relayed));
    assert_eq!(s.lookup(b).unwrap().outbox[0], msg(MessageKind::Offer, a, "room1", "sdp1"));
    assert_eq!(s.lookup(a).unwrap().last_activity, 5);
    // a frame that names another sender is refused
    assert_eq!(s.receive(b, &offer, 6), Err(SignalError::MalformedMessage));
    assert_eq!(s.receive(b, "not a frame", 7), Err(SignalError::MalformedMessage));
    assert_eq!(s.lookup(b).unwrap().last_activity, 7);
    assert_eq!(s.lookup(a).unwrap().outbox.len(), 0);
}
