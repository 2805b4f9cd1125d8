//! Wire-level message types exchanged with clients, the router's operation
//! envelopes, and their spec-level views.

use vstd::prelude::*;

verus! {

/// How a client identifies itself on `Connect`: a fresh signup under a player
/// name into a named room, or a previously issued token (base64 text).
#[derive(Clone, Debug, PartialEq, Eq)]
pub enum Identifier {
    Token(String),
    Signup { name: String, master: String },
}

/// A decoded client request: either a connection attempt or a game action
/// (the action body is opaque to the router and forwarded verbatim).
#[derive(Clone, Debug, PartialEq, Eq)]
pub enum Request {
    Connect(Identifier),
    Werewolf(String),
}

/// Session-level failures surfaced to the offending client.
#[derive(Clone, Debug, PartialEq, Eq)]
pub enum SessionError {
    /// The presented token is unknown or malformed.
    InvalidToken,
    /// The player name is already taken within the room.
    NameAlreadyRegistered(String),
    /// A token passed indexing but was rejected afterwards, or a freshly
    /// issued token collided with an earlier one: a registry invariant
    /// violation, reported loudly rather than swallowed.
    AuthenticationFailed,
}

/// Everything that can go wrong with a client request.
#[derive(Clone, Debug, PartialEq, Eq)]
pub enum ResponseErr {
    /// The payload did not decode as a request, or a game action arrived
    /// before authentication.
    JsonParse(String),
    /// A second `Connect` on an already authenticated session.
    AlreadyLoggedIn,
    /// An error reported by the game engine, forwarded as text.
    Werewolf(String),
    /// A session-level failure.
    Session(SessionError),
}

/// Successful responses pushed to clients.
#[derive(Clone, Debug, PartialEq, Eq)]
pub enum ResponseOk {
    /// Issued on every successful connect: the token's textual encoding, the
    /// room's name and the player's name.
    AuthenticationSuccess { token: String, master: String, name: String },
    /// A fresh state snapshot, rendered for this viewer.
    State(String),
    /// Names of the room's currently connected players.
    Online(Vec<String>),
    /// Names of everyone ever signed up into the room.
    Members(Vec<String>),
}

/// One message pushed to a client.
#[derive(Clone, Debug, PartialEq, Eq)]
pub enum Response {
    Success(ResponseOk),
    Error(ResponseErr),
}

/// An outbound push: which connection to deliver `body` to. The router never
/// performs I/O itself; the caller owns the mapping from connection ids to
/// live transports.
#[derive(Clone, Debug, PartialEq, Eq)]
pub struct Push {
    pub conn: u64,
    pub body: Response,
}

/// A connection attempt: the client's identifier plus the connection id the
/// caller assigned to the underlying transport.
#[derive(Clone, Debug, PartialEq, Eq)]
pub struct Connect {
    pub id: Identifier,
    pub conn: u64,
}

/// Notice that a token's connection has gone away.
#[derive(Clone, Debug, PartialEq, Eq)]
pub struct Disconnect {
    pub token: Vec<u8>,
}

/// A game action submitted under a token; the body is opaque to the router.
#[derive(Clone, Debug, PartialEq, Eq)]
pub struct Werewolf {
    pub token: Vec<u8>,
    pub body: String,
}

/// Spec view of [`SessionError`].
pub enum SessionErrorModel {
    InvalidToken,
    NameAlreadyRegistered(Seq<char>),
    AuthenticationFailed,
}

/// Spec view of [`ResponseErr`].
pub enum ResponseErrModel {
    JsonParse(Seq<char>),
    AlreadyLoggedIn,
    Werewolf(Seq<char>),
    Session(SessionErrorModel),
}

/// Spec view of [`ResponseOk`].
pub enum ResponseOkModel {
    AuthenticationSuccess { token: Seq<char>, master: Seq<char>, name: Seq<char> },
    State(Seq<char>),
    Online(Seq<Seq<char>>),
    Members(Seq<Seq<char>>),
}

/// Spec view of [`Response`].
pub enum ResponseModel {
    Success(ResponseOkModel),
    Error(ResponseErrModel),
}

/// Spec view of a push: connection id and message.
pub type PushModel = (u64, ResponseModel);

/// View of a sequence of names.
pub open spec fn names_view(v: Seq<String>) -> Seq<Seq<char>> {
    v.map_values(|s: String| s@)
}

impl View for SessionError {
    type V = SessionErrorModel;

    open spec fn view(&self) -> SessionErrorModel {
        match self {
            SessionError::InvalidToken => SessionErrorModel::InvalidToken,
            SessionError::NameAlreadyRegistered(n) => {
                SessionErrorModel::NameAlreadyRegistered(n@)
            },
            SessionError::AuthenticationFailed => SessionErrorModel::AuthenticationFailed,
        }
    }
}

impl View for ResponseErr {
    type V = ResponseErrModel;

    open spec fn view(&self) -> ResponseErrModel {
        match self {
            ResponseErr::JsonParse(s) => ResponseErrModel::JsonParse(s@),
            ResponseErr::AlreadyLoggedIn => ResponseErrModel::AlreadyLoggedIn,
            ResponseErr::Werewolf(s) => ResponseErrModel::Werewolf(s@),
            ResponseErr::Session(e) => ResponseErrModel::Session(e@),
        }
    }
}

impl View for ResponseOk {
    type V = ResponseOkModel;

    open spec fn view(&self) -> ResponseOkModel {
        match self {
            ResponseOk::AuthenticationSuccess { token, master, name } => {
                ResponseOkModel::AuthenticationSuccess {
                    token: token@,
                    master: master@,
                    name: name@,
                }
            },
            ResponseOk::State(s) => ResponseOkModel::State(s@),
            ResponseOk::Online(v) => ResponseOkModel::Online(names_view(v@)),
            ResponseOk::Members(v) => ResponseOkModel::Members(names_view(v@)),
        }
    }
}

impl View for Response {
    type V = ResponseModel;

    open spec fn view(&self) -> ResponseModel {
        match self {
            Response::Success(ok) => ResponseModel::Success(ok@),
            Response::Error(err) => ResponseModel::Error(err@),
        }
    }
}

impl View for Push {
    type V = PushModel;

    open spec fn view(&self) -> PushModel {
        (self.conn, self.body@)
    }
}

/// View of a pushed message sequence.
pub open spec fn pushes_view(v: Seq<Push>) -> Seq<PushModel> {
    v.map_values(|p: Push| p@)
}

} // verus!
