use werewolf_router::messages::{Identifier, Request, ResponseErr};
use werewolf_router::session::{
    Frame, HeartbeatStep, SessionAction, WsPlayerSession, CLIENT_TIMEOUT_MS,
};

fn sample_token() -> Vec<u8> {
    vec![4u8; 32]
}

#[test]
fn ping_is_answered_with_its_payload() {
    let mut s = WsPlayerSession::new(0);
    let action = s.handle_frame(Frame::Ping(vec![1, 2, 3]), 10);
    assert!(matches!(action, SessionAction::ReplyPong(p) if p == vec![1, 2, 3]));
}

#[test]
fn undecodable_payload_is_answered_with_parse_error() {
    let mut s = WsPlayerSession::new(0);
    let action = s.handle_frame(Frame::Text(None, "garbage".to_string()), 10);
    assert!(matches!(
        action,
        SessionAction::ReplyError(ResponseErr::JsonParse(raw)) if raw == "garbage"
    ));
}

#[test]
fn connect_is_forwarded_once_then_rejected() {
    let mut s = WsPlayerSession::new(0);
    let id = Identifier::Signup {
        name: "alice".to_string(),
        master: "r".to_string(),
    };
    let action = s.handle_frame(
        Frame::Text(Some(Request::Connect(id.clone())), "raw".to_string()),
        10,
    );
    assert!(matches!(action, SessionAction::ForwardConnect(got) if got == id));
    // The router answered with a token; the session is now authenticated.
    s.on_connected(sample_token());
    let action = s.handle_frame(
        Frame::Text(Some(Request::Connect(id)), "raw".to_string()),
        20,
    );
    assert!(matches!(
        action,
        SessionAction::ReplyError(ResponseErr::AlreadyLoggedIn)
    ));
}

#[test]
fn game_action_before_authentication_is_rejected() {
    let mut s = WsPlayerSession::new(0);
    let action = s.handle_frame(
        Frame::Text(
            Some(Request::Werewolf("act".to_string())),
            "raw-action".to_string(),
        ),
        10,
    );
    assert!(matches!(
        action,
        SessionAction::ReplyError(ResponseErr::JsonParse(raw)) if raw == "raw-action"
    ));
}

#[test]
fn game_action_is_forwarded_under_held_token() {
    let mut s = WsPlayerSession::new(0);
    s.on_connected(sample_token());
    let action = s.handle_frame(
        Frame::Text(
            Some(Request::Werewolf("act".to_string())),
            "raw".to_string(),
        ),
        10,
    );
    match action {
        SessionAction::ForwardAction(tok, body) => {
            assert_eq!(tok, sample_token());
            assert_eq!(body, "act");
        }
        other => panic!("expected a forwarded action, got {:?}", other),
    }
}

#[test]
fn close_and_protocol_errors_stop_the_session() {
    let mut s = WsPlayerSession::new(0);
    assert!(matches!(s.handle_frame(Frame::Close, 1), SessionAction::Stop));
    assert!(matches!(
        s.handle_frame(Frame::Continuation, 2),
        SessionAction::Stop
    ));
    assert!(matches!(
        s.handle_frame(Frame::ProtocolError, 3),
        SessionAction::Stop
    ));
    assert!(matches!(s.handle_frame(Frame::Binary, 4), SessionAction::Ignore));
    assert!(matches!(s.handle_frame(Frame::Nop, 5), SessionAction::Ignore));
}

#[test]
fn heartbeat_times_out_after_the_window() {
    let s = WsPlayerSession::new(1000);
    // Exactly at the window's edge: still alive.
    assert!(matches!(
        s.heartbeat(1000 + CLIENT_TIMEOUT_MS),
        HeartbeatStep::SendPing
    ));
    // One past the edge: the session times out.
    assert!(matches!(
        s.heartbeat(1000 + CLIENT_TIMEOUT_MS + 1),
        HeartbeatStep::Stop
    ));
    // A clock that went backwards never times out.
    assert!(matches!(s.heartbeat(0), HeartbeatStep::SendPing));
}

#[test]
fn inbound_traffic_resets_the_liveness_clock() {
    let mut s = WsPlayerSession::new(0);
    // Without traffic this time would be far past the window...
    let late = CLIENT_TIMEOUT_MS * 3;
    s.handle_frame(Frame::Pong, late);
    // ...but the pong reset the clock.
    assert!(matches!(s.heartbeat(late + 1), HeartbeatStep::SendPing));
}

#[test]
fn held_token_reports_authentication() {
    let mut s = WsPlayerSession::new(0);
    assert_eq!(s.held_token(), None);
    s.on_connected(sample_token());
    assert_eq!(s.held_token(), Some(sample_token()));
}
