//! The router's mathematical model: rooms, the global token index, and the
//! transition each operation performs. Executable code in [`crate::router`]
//! ensures that its state and outputs equal these transitions; the laws in
//! [`crate::laws`] are proved over them.

use vstd::prelude::*;
use crate::alist::{alist_drop_value, alist_get, alist_has, alist_idx, alist_remove, alist_set,
    alist_unique, lemma_alist_drop_value, lemma_alist_idx, lemma_alist_push, lemma_alist_remove,
    lemma_alist_set, lemma_alist_update};
use crate::messages::{PushModel, ResponseErrModel, ResponseModel, ResponseOkModel,
    SessionErrorModel};
use crate::token::{b64_of, TOKEN_LEN};

verus! {

/// One live connection: the caller-assigned connection id and the last state
/// snapshot pushed to it (none right after connecting).
#[verifier::ext_equal]
pub struct ConnectionModel {
    pub conn: u64,
    pub prev: Option<Seq<char>>,
}

/// One room: everyone ever signed up (token to player name, in signup order)
/// and the live connections (token to connection, in arrival order).
#[verifier::ext_equal]
pub struct RoomModel {
    pub members: Seq<(Seq<u8>, Seq<char>)>,
    pub online: Seq<(Seq<u8>, ConnectionModel)>,
}

/// The router: rooms by name, the token-to-room index, and every token ever
/// accepted from the engine (never re-accepted, even after its room is gone).
#[verifier::ext_equal]
pub struct RouterModel {
    pub rooms: Seq<(Seq<char>, RoomModel)>,
    pub routes: Seq<(Seq<u8>, Seq<char>)>,
    pub issued: Seq<Seq<u8>>,
}

/// The empty router.
pub open spec fn empty_router() -> RouterModel {
    RouterModel { rooms: Seq::empty(), routes: Seq::empty(), issued: Seq::empty() }
}

/// Names of everyone ever signed up into the room, in signup order.
pub open spec fn member_names(r: RoomModel) -> Seq<Seq<char>> {
    r.members.map_values(|e: (Seq<u8>, Seq<char>)| e.1)
}

/// Names of the currently connected players, in arrival order.
pub open spec fn online_names(r: RoomModel) -> Seq<Seq<char>> {
    r.online.map_values(|e: (Seq<u8>, ConnectionModel)| alist_get(r.members, e.0))
}

/// Tokens of the currently connected players, in arrival order.
pub open spec fn online_keys(r: RoomModel) -> Seq<Seq<u8>> {
    r.online.map_values(|e: (Seq<u8>, ConnectionModel)| e.0)
}

/// One `Online` push to every live connection of the room.
pub open spec fn online_broadcast(r: RoomModel) -> Seq<PushModel> {
    Seq::new(
        r.online.len(),
        |i: int|
            (r.online[i].1.conn, ResponseModel::Success(ResponseOkModel::Online(online_names(r)))),
    )
}

/// One `Members` push to every live connection of the room.
pub open spec fn members_broadcast(r: RoomModel) -> Seq<PushModel> {
    Seq::new(
        r.online.len(),
        |i: int|
            (
                r.online[i].1.conn,
                ResponseModel::Success(ResponseOkModel::Members(member_names(r))),
            ),
    )
}

/// The authentication push issued to a freshly connected client.
pub open spec fn auth_push(conn: u64, token: Seq<u8>, room: Seq<char>, name: Seq<char>)
    -> PushModel {
    (
        conn,
        ResponseModel::Success(
            ResponseOkModel::AuthenticationSuccess { token: b64_of(token), master: room, name },
        ),
    )
}

/// Whether `name` is already registered in `room`.
pub open spec fn name_taken_model(m: RouterModel, room: Seq<char>, name: Seq<char>) -> bool {
    alist_has(m.rooms, room) && member_names(alist_get(m.rooms, room)).contains(name)
}

/// Signup: reject a taken name; reject a malformed or previously issued
/// token as a loud invariant violation; otherwise create the room on first
/// use, register the member and its connection, index the token, and push
/// the authentication notice plus the updated online and membership sets to
/// every connection of the room.
pub open spec fn signup_model(
    m: RouterModel,
    room: Seq<char>,
    name: Seq<char>,
    conn: u64,
    token: Seq<u8>,
) -> (RouterModel, Result<(Seq<u8>, Seq<PushModel>), ResponseErrModel>) {
    if name_taken_model(m, room, name) {
        (
            m,
            Err(
                ResponseErrModel::Session(SessionErrorModel::NameAlreadyRegistered(name)),
            ),
        )
    } else if token.len() != TOKEN_LEN || m.issued.contains(token) {
        (m, Err(ResponseErrModel::Session(SessionErrorModel::AuthenticationFailed)))
    } else {
        let prev = if alist_has(m.rooms, room) {
            alist_get(m.rooms, room)
        } else {
            RoomModel { members: Seq::empty(), online: Seq::empty() }
        };
        let r2 = RoomModel {
            members: prev.members.push((token, name)),
            online: prev.online.push((token, ConnectionModel { conn, prev: None })),
        };
        let m2 = RouterModel {
            rooms: alist_set(m.rooms, room, r2),
            routes: m.routes.push((token, room)),
            issued: m.issued.push(token),
        };
        let pushes = seq![auth_push(conn, token, room, name)] + online_broadcast(r2)
            + members_broadcast(r2);
        (m2, Ok((token, pushes)))
    }
}

/// Reconnect with already decoded token bytes: an unindexed token is
/// rejected; otherwise the token's connection is re-registered under the new
/// connection id (replacing a still-live one in place, with its snapshot
/// history cleared), the authentication notice goes to the new connection,
/// the updated online set to every connection of the room, and the
/// membership set to the reconnecting client alone.
pub open spec fn reconnect_model(m: RouterModel, token: Seq<u8>, conn: u64) -> (
    RouterModel,
    Result<(Seq<u8>, Seq<PushModel>), ResponseErrModel>,
) {
    if !alist_has(m.routes, token) {
        (m, Err(ResponseErrModel::Session(SessionErrorModel::InvalidToken)))
    } else {
        let room_name = alist_get(m.routes, token);
        let r = alist_get(m.rooms, room_name);
        let name = alist_get(r.members, token);
        let r2 = RoomModel {
            members: r.members,
            online: alist_set(r.online, token, ConnectionModel { conn, prev: None }),
        };
        let m2 = RouterModel {
            rooms: alist_set(m.rooms, room_name, r2),
            routes: m.routes,
            issued: m.issued,
        };
        let pushes = seq![auth_push(conn, token, room_name, name)] + online_broadcast(r2)
            + seq![
                (conn, ResponseModel::Success(ResponseOkModel::Members(member_names(r2)))),
            ];
        (m2, Ok((token, pushes)))
    }
}

/// Disconnect: an unindexed token is rejected; otherwise the token's
/// connection is dropped. When that leaves the room without connections the
/// room is destroyed and every index entry pointing at it purged; otherwise
/// the remaining connections are told the new online set.
pub open spec fn disconnect_model(m: RouterModel, token: Seq<u8>) -> (
    RouterModel,
    Result<Seq<PushModel>, ResponseErrModel>,
) {
    if !alist_has(m.routes, token) {
        (m, Err(ResponseErrModel::Session(SessionErrorModel::InvalidToken)))
    } else {
        let room_name = alist_get(m.routes, token);
        let r = alist_get(m.rooms, room_name);
        let online2 = alist_remove(r.online, token);
        if online2.len() == 0 {
            let m2 = RouterModel {
                rooms: alist_remove(m.rooms, room_name),
                routes: alist_drop_value(m.routes, room_name),
                issued: m.issued,
            };
            (m2, Ok(Seq::empty()))
        } else {
            let r2 = RoomModel { members: r.members, online: online2 };
            let m2 = RouterModel {
                rooms: alist_set(m.rooms, room_name, r2),
                routes: m.routes,
                issued: m.issued,
            };
            (m2, Ok(online_broadcast(r2)))
        }
    }
}

/// One viewer's state delivery: nothing is pushed when the viewer is not
/// connected or the snapshot equals the last one pushed to it; a changed
/// snapshot is pushed exactly once and recorded.
pub open spec fn state_step(r: RoomModel, token: Seq<u8>, snap: Seq<char>) -> (
    RoomModel,
    Seq<PushModel>,
) {
    if !alist_has(r.online, token) {
        (r, Seq::empty())
    } else {
        let c = alist_get(r.online, token);
        if c.prev == Some(snap) {
            (r, Seq::empty())
        } else {
            let r2 = RoomModel {
                members: r.members,
                online: alist_set(
                    r.online,
                    token,
                    ConnectionModel { conn: c.conn, prev: Some(snap) },
                ),
            };
            (r2, seq![(c.conn, ResponseModel::Success(ResponseOkModel::State(snap)))])
        }
    }
}

/// Deliver a batch of per-viewer snapshots in order, suppressing unchanged
/// ones.
pub open spec fn apply_states(r: RoomModel, states: Seq<(Seq<u8>, Seq<char>)>) -> (
    RoomModel,
    Seq<PushModel>,
)
    decreases states.len(),
{
    if states.len() == 0 {
        (r, Seq::empty())
    } else {
        let (r1, p1) = state_step(r, states[0].0, states[0].1);
        let (r2, p2) = apply_states(r1, states.drop_first());
        (r2, p1 + p2)
    }
}

/// State delivery after a game action under `token`: resolve the token's
/// room and deliver the batch there.
pub open spec fn dispatch_model(
    m: RouterModel,
    token: Seq<u8>,
    states: Seq<(Seq<u8>, Seq<char>)>,
) -> (RouterModel, Result<Seq<PushModel>, SessionErrorModel>) {
    if !alist_has(m.routes, token) {
        (m, Err(SessionErrorModel::InvalidToken))
    } else {
        let room_name = alist_get(m.routes, token);
        let r = alist_get(m.rooms, room_name);
        let (r2, pushes) = apply_states(r, states);
        let m2 = RouterModel {
            rooms: alist_set(m.rooms, room_name, r2),
            routes: m.routes,
            issued: m.issued,
        };
        (m2, Ok(pushes))
    }
}

/// A room's internal consistency: unique member tokens, unique connection
/// tokens, at least one live connection (an emptied room is destroyed at
/// once), every connected token a member, and every member token of the
/// fixed length.
pub open spec fn room_wf(r: RoomModel) -> bool {
    &&& alist_unique(r.members)
    &&& alist_unique(r.online)
    &&& r.online.len() >= 1
    &&& forall|i: int| 0 <= i < r.online.len() ==> alist_has(r.members, #[trigger] r.online[i].0)
    &&& forall|i: int| 0 <= i < r.members.len() ==> (#[trigger] r.members[i].0).len() == TOKEN_LEN
}

/// The router's invariant. Beyond per-table key uniqueness: a token is
/// indexed exactly when some room holds it as a member, the index agrees
/// with that room, every indexed token was issued, and no token was ever
/// issued twice.
pub open spec fn model_wf(m: RouterModel) -> bool {
    &&& alist_unique(m.rooms)
    &&& alist_unique(m.routes)
    &&& forall|i: int| 0 <= i < m.rooms.len() ==> room_wf((#[trigger] m.rooms[i]).1)
    &&& forall|i: int|
        0 <= i < m.routes.len() ==> {
            &&& alist_has(m.rooms, (#[trigger] m.routes[i]).1)
            &&& alist_has(alist_get(m.rooms, m.routes[i].1).members, m.routes[i].0)
        }
    &&& forall|i: int, j: int|
        0 <= i < m.rooms.len() && 0 <= j < m.rooms[i].1.members.len() ==> {
            &&& alist_has(m.routes, (#[trigger] m.rooms[i].1.members[j]).0)
            &&& alist_get(m.routes, m.rooms[i].1.members[j].0) == m.rooms[i].0
        }
    &&& forall|i: int| 0 <= i < m.routes.len() ==> m.issued.contains((#[trigger] m.routes[i]).0)
    &&& forall|i: int, j: int| 0 <= i < j < m.issued.len() ==> m.issued[i] != m.issued[j]
}

/// A token never issued is nowhere: not indexed, in no room's membership and
/// in no room's online table.
pub proof fn lemma_fresh_token(m: RouterModel, token: Seq<u8>)
    requires
        model_wf(m),
        !m.issued.contains(token),
    ensures
        !alist_has(m.routes, token),
        forall|i: int|
            0 <= i < m.rooms.len() ==> !alist_has((#[trigger] m.rooms[i]).1.members, token),
        forall|i: int|
            0 <= i < m.rooms.len() ==> !alist_has((#[trigger] m.rooms[i]).1.online, token),
{
    lemma_alist_idx(m.routes, token);
    if alist_has(m.routes, token) {
        let i = alist_idx(m.routes, token);
        assert(m.issued.contains(m.routes[i].0));
    }
    assert forall|i: int|
        0 <= i < m.rooms.len() implies !alist_has((#[trigger] m.rooms[i]).1.members, token) by {
        lemma_alist_idx(m.rooms[i].1.members, token);
        if alist_has(m.rooms[i].1.members, token) {
            let j = alist_idx(m.rooms[i].1.members, token);
            assert(alist_has(m.routes, m.rooms[i].1.members[j].0));
        }
    }
    assert forall|i: int|
        0 <= i < m.rooms.len() implies !alist_has((#[trigger] m.rooms[i]).1.online, token) by {
        lemma_alist_idx(m.rooms[i].1.online, token);
        if alist_has(m.rooms[i].1.online, token) {
            let j = alist_idx(m.rooms[i].1.online, token);
            assert(alist_has(m.rooms[i].1.members, m.rooms[i].1.online[j].0));
        }
    }
}

/// An indexed token leads to a well-formed room that holds it as a member,
/// and the index entry agrees with that room's name.
pub proof fn lemma_routes_target(m: RouterModel, token: Seq<u8>)
    requires
        model_wf(m),
        alist_has(m.routes, token),
    ensures
        alist_has(m.rooms, alist_get(m.routes, token)),
        room_wf(alist_get(m.rooms, alist_get(m.routes, token))),
        alist_has(alist_get(m.rooms, alist_get(m.routes, token)).members, token),
        token.len() == TOKEN_LEN,
{
    lemma_alist_idx(m.routes, token);
    let i = alist_idx(m.routes, token);
    assert(alist_has(m.rooms, m.routes[i].1));
    lemma_alist_idx(m.rooms, m.routes[i].1);
    let ri = alist_idx(m.rooms, m.routes[i].1);
    assert(room_wf(m.rooms[ri].1));
    let members = alist_get(m.rooms, alist_get(m.routes, token)).members;
    lemma_alist_idx(members, token);
    let j = alist_idx(members, token);
    assert(members[j].0.len() == TOKEN_LEN);
}

/// Signup leaves the router well formed; a rejected signup leaves it
/// untouched.
pub proof fn lemma_signup_wf(
    m: RouterModel,
    room: Seq<char>,
    name: Seq<char>,
    conn: u64,
    token: Seq<u8>,
)
    requires
        model_wf(m),
    ensures
        model_wf(signup_model(m, room, name, conn, token).0),
        signup_model(m, room, name, conn, token).1 is Err ==> signup_model(
            m,
            room,
            name,
            conn,
            token,
        ).0 == m,
{
    if name_taken_model(m, room, name) {
    } else if token.len() != TOKEN_LEN || m.issued.contains(token) {
    } else {
        lemma_fresh_token(m, token);
        let prev = if alist_has(m.rooms, room) {
            alist_get(m.rooms, room)
        } else {
            RoomModel { members: Seq::empty(), online: Seq::empty() }
        };
        let r2 = RoomModel {
            members: prev.members.push((token, name)),
            online: prev.online.push((token, ConnectionModel { conn, prev: None })),
        };
        let m2 = signup_model(m, room, name, conn, token).0;

        // The previous room (existing or empty) is well formed but for the
        // online lower bound, and does not hold the fresh token.
        if alist_has(m.rooms, room) {
            lemma_alist_idx(m.rooms, room);
            let ri = alist_idx(m.rooms, room);
            assert(room_wf(m.rooms[ri].1));
            assert(prev == m.rooms[ri].1);
        }
        assert(alist_unique(prev.members) && alist_unique(prev.online));
        assert(!alist_has(prev.members, token) && !alist_has(prev.online, token)) by {
            if alist_has(m.rooms, room) {
                lemma_alist_idx(m.rooms, room);
            } else {
                lemma_alist_idx(prev.members, token);
                lemma_alist_idx(prev.online, token);
            }
        }
        lemma_alist_push(prev.members, token, name);
        lemma_alist_push(prev.online, token, ConnectionModel { conn, prev: None });
        assert(room_wf(r2)) by {
            assert(forall|i: int|
                0 <= i < r2.online.len() ==> alist_has(r2.members, #[trigger] r2.online[i].0))
                by {
                assert(forall|i: int|
                    0 <= i < prev.online.len() ==> #[trigger] prev.online[i].0 != token);
            }
        }

        lemma_alist_set(m.rooms, room, r2);
        lemma_alist_push(m.routes, token, room);
        let rooms2 = m2.rooms;
        let routes2 = m2.routes;

        // Positional facts about the updated room table.
        assert(forall|i: int|
            0 <= i < rooms2.len() ==> (#[trigger] rooms2[i]) == (room, r2) || (0 <= i
                < m.rooms.len() && rooms2[i] == m.rooms[i]));

        assert forall|i: int| 0 <= i < rooms2.len() implies room_wf((#[trigger] rooms2[i]).1) by {
            if rooms2[i] != (room, r2) {
                assert(room_wf(m.rooms[i].1));
            }
        }

        // Every index entry still points at a room holding its token.
        assert forall|i: int| 0 <= i < routes2.len() implies {
            &&& alist_has(rooms2, (#[trigger] routes2[i]).1)
            &&& alist_has(alist_get(rooms2, routes2[i].1).members, routes2[i].0)
        } by {
            if i < m.routes.len() {
                assert(alist_has(m.rooms, m.routes[i].1));
                if m.routes[i].1 == room {
                    assert(alist_get(rooms2, room) == r2);
                    assert(alist_has(prev.members, m.routes[i].0));
                    assert(m.routes[i].0 != token);
                } else {
                    assert(alist_get(rooms2, m.routes[i].1) == alist_get(m.rooms, m.routes[i].1));
                }
            } else {
                assert(routes2[i] == (token, room));
                assert(alist_get(rooms2, room) == r2);
            }
        }

        // Every member everywhere is still indexed to its room.
        assert forall|i: int, j: int|
            0 <= i < rooms2.len() && 0 <= j < rooms2[i].1.members.len() implies {
            &&& alist_has(routes2, (#[trigger] rooms2[i].1.members[j]).0)
            &&& alist_get(routes2, rooms2[i].1.members[j].0) == rooms2[i].0
        } by {
            if rooms2[i] == (room, r2) {
                if j < prev.members.len() {
                    let t2 = prev.members[j].0;
                    assert(t2 != token);
                    if alist_has(m.rooms, room) {
                        let ri = alist_idx(m.rooms, room);
                        lemma_alist_idx(m.rooms, room);
                        assert(m.rooms[ri] == (room, prev));
                        assert(alist_has(m.routes, t2) && alist_get(m.routes, t2) == room);
                    }
                } else {
                    assert(rooms2[i].1.members[j] == (token, name));
                }
            } else {
                let t2 = m.rooms[i].1.members[j].0;
                assert(alist_has(m.routes, t2) && alist_get(m.routes, t2) == m.rooms[i].0);
                lemma_alist_idx(m.routes, t2);
                let w = alist_idx(m.routes, t2);
                assert(m.issued.contains(m.routes[w].0));
                assert(t2 != token);
            }
        }

        // Every indexed token was issued, and issuance stays duplicate-free.
        assert forall|i: int|
            0 <= i < routes2.len() implies m2.issued.contains((#[trigger] routes2[i]).0) by {
            if i < m.routes.len() {
                assert(m.issued.contains(m.routes[i].0));
                let w = choose|w: int| 0 <= w < m.issued.len() && m.issued[w] == m.routes[i].0;
                assert(m2.issued[w] == m.routes[i].0);
            } else {
                assert(m2.issued[m.issued.len() as int] == token);
            }
        }
        assert forall|i: int, j: int|
            0 <= i < j < m2.issued.len() implies m2.issued[i] != m2.issued[j] by {
            if j < m.issued.len() {
                assert(m.issued[i] != m.issued[j]);
            } else {
                assert(m2.issued[j] == token);
                assert(m.issued[i] == m2.issued[i]);
                assert(m.issued.contains(m.issued[i]));
            }
        }
    }
}

/// Replacing one room's entry by a room with the same membership keeps the
/// router well formed.
pub proof fn lemma_replace_room_wf(m: RouterModel, room_name: Seq<char>, r2: RoomModel)
    requires
        model_wf(m),
        alist_has(m.rooms, room_name),
        room_wf(r2),
        r2.members == alist_get(m.rooms, room_name).members,
    ensures
        model_wf(
            RouterModel {
                rooms: alist_set(m.rooms, room_name, r2),
                routes: m.routes,
                issued: m.issued,
            },
        ),
{
    lemma_alist_idx(m.rooms, room_name);
    let ri = alist_idx(m.rooms, room_name);
    lemma_alist_set(m.rooms, room_name, r2);
    let rooms2 = alist_set(m.rooms, room_name, r2);
    assert(rooms2 == m.rooms.update(ri, (room_name, r2)));
    assert forall|i: int| 0 <= i < rooms2.len() implies room_wf((#[trigger] rooms2[i]).1) by {
        if i != ri {
            assert(rooms2[i] == m.rooms[i]);
        }
    }
    assert forall|i: int| 0 <= i < m.routes.len() implies {
        &&& alist_has(rooms2, (#[trigger] m.routes[i]).1)
        &&& alist_has(alist_get(rooms2, m.routes[i].1).members, m.routes[i].0)
    } by {
        assert(alist_has(m.rooms, m.routes[i].1));
        if m.routes[i].1 == room_name {
            assert(alist_get(rooms2, room_name) == r2);
        } else {
            assert(alist_get(rooms2, m.routes[i].1) == alist_get(m.rooms, m.routes[i].1));
        }
    }
    assert forall|i: int, j: int|
        0 <= i < rooms2.len() && 0 <= j < rooms2[i].1.members.len() implies {
        &&& alist_has(m.routes, (#[trigger] rooms2[i].1.members[j]).0)
        &&& alist_get(m.routes, rooms2[i].1.members[j].0) == rooms2[i].0
    } by {
        if i == ri {
            assert(m.rooms[ri].1 == alist_get(m.rooms, room_name));
            assert(rooms2[i].1.members == m.rooms[ri].1.members);
            assert(rooms2[i].0 == m.rooms[ri].0);
        } else {
            assert(rooms2[i] == m.rooms[i]);
        }
    }
}

/// Reconnect leaves the router well formed; a rejected reconnect leaves it
/// untouched.
pub proof fn lemma_reconnect_wf(m: RouterModel, token: Seq<u8>, conn: u64)
    requires
        model_wf(m),
    ensures
        model_wf(reconnect_model(m, token, conn).0),
        reconnect_model(m, token, conn).1 is Err ==> reconnect_model(m, token, conn).0 == m,
{
    if alist_has(m.routes, token) {
        lemma_routes_target(m, token);
        let room_name = alist_get(m.routes, token);
        let r = alist_get(m.rooms, room_name);
        let c = ConnectionModel { conn, prev: None };
        let r2 = RoomModel { members: r.members, online: alist_set(r.online, token, c) };
        lemma_alist_set(r.online, token, c);
        assert(room_wf(r2)) by {
            if alist_has(r.online, token) {
                lemma_alist_idx(r.online, token);
                let oi = alist_idx(r.online, token);
                assert(r2.online == r.online.update(oi, (token, c)));
                assert forall|i: int|
                    0 <= i < r2.online.len() implies alist_has(
                    r2.members,
                    #[trigger] r2.online[i].0,
                ) by {
                    if i != oi {
                        assert(r2.online[i] == r.online[i]);
                    }
                }
            } else {
                assert(r2.online == r.online.push((token, c)));
                assert forall|i: int|
                    0 <= i < r2.online.len() implies alist_has(
                    r2.members,
                    #[trigger] r2.online[i].0,
                ) by {
                    if i < r.online.len() {
                        assert(r2.online[i] == r.online[i]);
                    }
                }
            }
        }
        lemma_replace_room_wf(m, room_name, r2);
    }
}

/// Disconnect leaves the router well formed; a rejected disconnect leaves it
/// untouched.
pub proof fn lemma_disconnect_wf(m: RouterModel, token: Seq<u8>)
    requires
        model_wf(m),
    ensures
        model_wf(disconnect_model(m, token).0),
        disconnect_model(m, token).1 is Err ==> disconnect_model(m, token).0 == m,
{
    if alist_has(m.routes, token) {
        lemma_routes_target(m, token);
        let room_name = alist_get(m.routes, token);
        let r = alist_get(m.rooms, room_name);
        lemma_alist_idx(m.rooms, room_name);
        let ri = alist_idx(m.rooms, room_name);
        let online2 = alist_remove(r.online, token);
        if alist_has(r.online, token) {
            lemma_alist_remove(r.online, token);
        }
        if online2.len() == 0 {
            let m2 = disconnect_model(m, token).0;
            lemma_alist_remove(m.rooms, room_name);
            lemma_alist_drop_value(m.routes, room_name);
            let rooms2 = m2.rooms;
            let routes2 = m2.routes;
            assert(rooms2 == m.rooms.remove(ri));
            // Every surviving room is one of the old rooms, at a possibly
            // shifted position, and its name is not the destroyed room's.
            assert forall|i: int| 0 <= i < rooms2.len() implies {
                &&& (#[trigger] rooms2[i]) == m.rooms[if i < ri {
                    i
                } else {
                    i + 1
                }]
                &&& rooms2[i].0 != room_name
            } by {
                let i0 = if i < ri {
                    i
                } else {
                    i + 1
                };
                assert(rooms2[i] == m.rooms[i0]);
                assert(m.rooms[i0].0 != m.rooms[ri].0);
            }
            assert forall|i: int| 0 <= i < routes2.len() implies {
                &&& alist_has(rooms2, (#[trigger] routes2[i]).1)
                &&& alist_has(alist_get(rooms2, routes2[i].1).members, routes2[i].0)
                &&& m.issued.contains(routes2[i].0)
            } by {
                assert(m.routes.contains(routes2[i]));
                let w = choose|w: int| 0 <= w < m.routes.len() && m.routes[w] == routes2[i];
                assert(alist_has(m.rooms, m.routes[w].1));
                assert(routes2[i].1 != room_name);
                assert(alist_has(rooms2, routes2[i].1) && alist_get(rooms2, routes2[i].1)
                    == alist_get(m.rooms, routes2[i].1));
                assert(m.issued.contains(m.routes[w].0));
            }
            assert forall|i: int, j: int|
                0 <= i < rooms2.len() && 0 <= j < rooms2[i].1.members.len() implies {
                &&& alist_has(routes2, (#[trigger] rooms2[i].1.members[j]).0)
                &&& alist_get(routes2, rooms2[i].1.members[j].0) == rooms2[i].0
            } by {
                let i0 = if i < ri {
                    i
                } else {
                    i + 1
                };
                assert(rooms2[i] == m.rooms[i0]);
                let t2 = m.rooms[i0].1.members[j].0;
                assert(alist_has(m.routes, (m.rooms[i0].1.members[j]).0) && alist_get(
                    m.routes,
                    t2,
                ) == m.rooms[i0].0);
            }
        } else {
            let r2 = RoomModel { members: r.members, online: online2 };
            assert(room_wf(r2)) by {
                if alist_has(r.online, token) {
                    lemma_alist_idx(r.online, token);
                    let oi = alist_idx(r.online, token);
                    assert(online2 == r.online.remove(oi));
                    assert forall|i: int|
                        0 <= i < online2.len() implies alist_has(
                        r2.members,
                        #[trigger] online2[i].0,
                    ) by {
                        let i0 = if i < oi {
                            i
                        } else {
                            i + 1
                        };
                        assert(online2[i] == r.online[i0]);
                    }
                }
            }
            lemma_replace_room_wf(m, room_name, r2);
        }
    }
}

/// One state delivery step keeps the room well formed and its membership and
/// connection count unchanged.
pub proof fn lemma_state_step_room(r: RoomModel, token: Seq<u8>, snap: Seq<char>)
    requires
        room_wf(r),
    ensures
        room_wf(state_step(r, token, snap).0),
        state_step(r, token, snap).0.members == r.members,
        state_step(r, token, snap).0.online.len() == r.online.len(),
{
    if alist_has(r.online, token) {
        let c = alist_get(r.online, token);
        if c.prev != Some(snap) {
            let c2 = ConnectionModel { conn: c.conn, prev: Some(snap) };
            lemma_alist_update(r.online, token, c2);
            lemma_alist_idx(r.online, token);
            let oi = alist_idx(r.online, token);
            let online2 = alist_set(r.online, token, c2);
            assert(online2 == r.online.update(oi, (token, c2)));
            assert forall|i: int|
                0 <= i < online2.len() implies alist_has(r.members, #[trigger] online2[i].0) by {
                if i != oi {
                    assert(online2[i] == r.online[i]);
                }
            }
        }
    }
}

/// A whole batch of state deliveries keeps the room well formed and its
/// membership and connection count unchanged.
pub proof fn lemma_apply_states_room(r: RoomModel, states: Seq<(Seq<u8>, Seq<char>)>)
    requires
        room_wf(r),
    ensures
        room_wf(apply_states(r, states).0),
        apply_states(r, states).0.members == r.members,
        apply_states(r, states).0.online.len() == r.online.len(),
    decreases states.len(),
{
    if states.len() > 0 {
        lemma_state_step_room(r, states[0].0, states[0].1);
        lemma_apply_states_room(state_step(r, states[0].0, states[0].1).0, states.drop_first());
    }
}

/// State delivery leaves the router well formed; an unresolved token leaves
/// it untouched.
pub proof fn lemma_dispatch_wf(m: RouterModel, token: Seq<u8>, states: Seq<(Seq<u8>, Seq<char>)>)
    requires
        model_wf(m),
    ensures
        model_wf(dispatch_model(m, token, states).0),
        dispatch_model(m, token, states).1 is Err ==> dispatch_model(m, token, states).0 == m,
{
    if alist_has(m.routes, token) {
        lemma_routes_target(m, token);
        let room_name = alist_get(m.routes, token);
        let r = alist_get(m.rooms, room_name);
        lemma_apply_states_room(r, states);
        lemma_replace_room_wf(m, room_name, apply_states(r, states).0);
    }
}

} // verus!
