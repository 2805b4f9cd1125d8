//! The per-connection session: a small state machine from inbound transport
//! frames to actions. A session is unauthenticated until its first successful
//! connect stores a token; it then forwards game actions under that token.
//! The caller runs the transport: it decodes frames, performs each returned
//! action, and reports back a successful connect through [`WsPlayerSession::on_connected`].

use vstd::prelude::*;
use crate::messages::{Identifier, Request, ResponseErr};

verus! {

/// How often the session sends a liveness probe, in milliseconds.
pub const HEARTBEAT_INTERVAL_MS: u64 = 5000;

/// How long without any inbound traffic before the session times out, in
/// milliseconds.
pub const CLIENT_TIMEOUT_MS: u64 = 10000;

/// An inbound transport event, already decoded to plain values. A text
/// payload arrives together with its parse: `None` when it did not decode as
/// a [`Request`].
pub enum Frame {
    Ping(Vec<u8>),
    Pong,
    Text(Option<Request>, String),
    Binary,
    Close,
    Continuation,
    Nop,
    ProtocolError,
}

/// What the caller must do with an inbound frame.
#[derive(Debug)]
pub enum SessionAction {
    /// Nothing.
    Ignore,
    /// Answer a ping, echoing its payload.
    ReplyPong(Vec<u8>),
    /// Push an error back to this session's own client.
    ReplyError(ResponseErr),
    /// Hand the connection attempt to the router.
    ForwardConnect(Identifier),
    /// Hand a game action to the router under the session's token.
    ForwardAction(Vec<u8>, String),
    /// Terminate the session.
    Stop,
}

/// The heartbeat tick's outcome.
#[derive(Debug)]
pub enum HeartbeatStep {
    /// Send a liveness probe.
    SendPing,
    /// The liveness window has passed: terminate the session.
    Stop,
}

/// Whether the liveness window has passed at `now`, for a clock last reset at
/// `last` (both in milliseconds; a clock that went backwards never times
/// out).
pub open spec fn timed_out(last: u64, now: u64) -> bool {
    now > last && now - last > CLIENT_TIMEOUT_MS
}

/// One client session.
pub struct WsPlayerSession {
    token: Option<Vec<u8>>,
    last_seen_ms: u64,
}

impl WsPlayerSession {
    /// The held token, if authenticated.
    pub closed spec fn token_view(&self) -> Option<Seq<u8>> {
        match self.token {
            Some(t) => Some(t@),
            None => None,
        }
    }

    /// When the liveness clock was last reset, in milliseconds.
    pub closed spec fn last_seen(&self) -> u64 {
        self.last_seen_ms
    }

    /// A fresh, unauthenticated session whose liveness clock starts at
    /// `now_ms`.
    pub fn new(now_ms: u64) -> (r: WsPlayerSession)
        ensures
            r.token_view() is None,
            r.last_seen() == now_ms,
    {
        WsPlayerSession { token: None, last_seen_ms: now_ms }
    }

    /// Handle one inbound frame at time `now_ms`. Any frame but a transport
    /// error resets the liveness clock; the held token never changes here.
    /// A ping is answered; close, continuation and transport errors stop the
    /// session; an undecodable payload is answered with a parse error; a
    /// second connect while authenticated is rejected as `AlreadyLoggedIn`;
    /// a game action before authentication is rejected like a malformed
    /// payload; everything else is forwarded to the router.
    pub fn handle_frame(&mut self, frame: Frame, now_ms: u64) -> (r: SessionAction)
        ensures
            final(self).token_view() == old(self).token_view(),
            final(self).last_seen() == if frame is ProtocolError {
                old(self).last_seen()
            } else {
                now_ms
            },
            frame matches Frame::Ping(b) ==> r == SessionAction::ReplyPong(b),
            frame is Pong ==> r == SessionAction::Ignore,
            frame is Binary ==> r == SessionAction::Ignore,
            frame is Nop ==> r == SessionAction::Ignore,
            frame is Close ==> r == SessionAction::Stop,
            frame is Continuation ==> r == SessionAction::Stop,
            frame is ProtocolError ==> r == SessionAction::Stop,
            frame matches Frame::Text(req, raw) ==> match req {
                None => r == SessionAction::ReplyError(ResponseErr::JsonParse(raw)),
                Some(Request::Connect(id)) => if old(self).token_view() is Some {
                    r == SessionAction::ReplyError(ResponseErr::AlreadyLoggedIn)
                } else {
                    r == SessionAction::ForwardConnect(id)
                },
                Some(Request::Werewolf(body)) => match old(self).token_view() {
                    Some(t) => r matches SessionAction::ForwardAction(rt, rb) && rt@ == t && rb
                        == body,
                    None => r == SessionAction::ReplyError(ResponseErr::JsonParse(raw)),
                },
            },
    {
        match frame {
            Frame::ProtocolError => SessionAction::Stop,
            Frame::Ping(b) => {
                self.last_seen_ms = now_ms;
                SessionAction::ReplyPong(b)
            },
            Frame::Pong => {
                self.last_seen_ms = now_ms;
                SessionAction::Ignore
            },
            Frame::Binary => {
                self.last_seen_ms = now_ms;
                SessionAction::Ignore
            },
            Frame::Nop => {
                self.last_seen_ms = now_ms;
                SessionAction::Ignore
            },
            Frame::Close => {
                self.last_seen_ms = now_ms;
                SessionAction::Stop
            },
            Frame::Continuation => {
                self.last_seen_ms = now_ms;
                SessionAction::Stop
            },
            Frame::Text(req, raw) => {
                self.last_seen_ms = now_ms;
                match req {
                    None => SessionAction::ReplyError(ResponseErr::JsonParse(raw)),
                    Some(Request::Connect(id)) => {
                        if self.token.is_some() {
                            SessionAction::ReplyError(ResponseErr::AlreadyLoggedIn)
                        } else {
                            SessionAction::ForwardConnect(id)
                        }
                    },
                    Some(Request::Werewolf(body)) => {
                        match &self.token {
                            Some(t) => {
                                let t2 = t.clone();
                                proof {
                                    assert(t2@ =~= t@);
                                }
                                SessionAction::ForwardAction(t2, body)
                            },
                            None => SessionAction::ReplyError(ResponseErr::JsonParse(raw)),
                        }
                    },
                }
            },
        }
    }

    /// Record the token of a successful connect; the session is
    /// authenticated from here on. The liveness clock is untouched.
    pub fn on_connected(&mut self, token: Vec<u8>)
        ensures
            final(self).token_view() == Some(token@),
            final(self).last_seen() == old(self).last_seen(),
    {
        self.token = Some(token);
    }

    /// One heartbeat tick at time `now_ms`: stop the session when the
    /// liveness window has passed, send a probe otherwise.
    pub fn heartbeat(&self, now_ms: u64) -> (r: HeartbeatStep)
        ensures
            r == if timed_out(self.last_seen(), now_ms) {
                HeartbeatStep::Stop
            } else {
                HeartbeatStep::SendPing
            },
    {
        if now_ms > self.last_seen_ms && now_ms - self.last_seen_ms > CLIENT_TIMEOUT_MS {
            HeartbeatStep::Stop
        } else {
            HeartbeatStep::SendPing
        }
    }

    /// The held token, for the disconnect notice owed when the session ends;
    /// nothing when the session never authenticated.
    pub fn held_token(&self) -> (r: Option<Vec<u8>>)
        ensures
            match r {
                Some(t) => self.token_view() == Some(t@),
                None => self.token_view() is None,
            },
    {
        match &self.token {
            Some(t) => {
                let t2 = t.clone();
                proof {
                    assert(t2@ =~= t@);
                }
                Some(t2)
            },
            None => None,
        }
    }
}

} // verus!
