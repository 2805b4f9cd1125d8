//! The router's global guarantees, proved over the transitions in
//! [`crate::model`]. Each law is stated exactly as the executable operations
//! pin them down, so it holds of every run of [`crate::router::MasterRouter`].

use vstd::prelude::*;
use crate::alist::{alist_get, alist_has, alist_idx, alist_remove, alist_set, alist_unique,
    lemma_alist_drop_value, lemma_alist_idx, lemma_alist_remove, lemma_alist_set,
    lemma_alist_update};
use crate::messages::{PushModel, ResponseErrModel, ResponseModel, ResponseOkModel,
    SessionErrorModel};
use crate::model::{apply_states, disconnect_model, dispatch_model, lemma_routes_target,
    lemma_signup_wf, member_names, model_wf, name_taken_model, reconnect_model, signup_model,
    state_step, ConnectionModel, RoomModel, RouterModel};

verus! {

/// Token uniqueness: a successful signup's token was never issued before and
/// is recorded, and the issued log stays duplicate-free — so no two
/// successful signups in a router's lifetime ever return the same token.
pub proof fn lemma_token_uniqueness(
    m: RouterModel,
    room: Seq<char>,
    name: Seq<char>,
    conn: u64,
    token: Seq<u8>,
)
    requires
        model_wf(m),
        signup_model(m, room, name, conn, token).1 is Ok,
    ensures
        !m.issued.contains(token),
        signup_model(m, room, name, conn, token).0.issued == m.issued.push(token),
        forall|i: int, j: int|
            0 <= i < j < signup_model(m, room, name, conn, token).0.issued.len()
                ==> signup_model(m, room, name, conn, token).0.issued[i] != signup_model(
                m,
                room,
                name,
                conn,
                token,
            ).0.issued[j],
{
    lemma_signup_wf(m, room, name, conn, token);
}

/// No operation but signup ever touches the issued log: what was issued is
/// remembered for the router's whole lifetime, even after its room is gone.
pub proof fn lemma_issued_stable(
    m: RouterModel,
    token: Seq<u8>,
    conn: u64,
    states: Seq<(Seq<u8>, Seq<char>)>,
)
    ensures
        reconnect_model(m, token, conn).0.issued == m.issued,
        disconnect_model(m, token).0.issued == m.issued,
        dispatch_model(m, token, states).0.issued == m.issued,
{
}

/// Registry consistency: in every well-formed state, a token is indexed
/// exactly when it belongs to exactly one room's membership, and a token
/// with a live connection anywhere is indexed.
pub proof fn lemma_registry_consistency(m: RouterModel, t: Seq<u8>)
    requires
        model_wf(m),
    ensures
        alist_has(m.routes, t) <==> exists|i: int|
            0 <= i < m.rooms.len() && alist_has((#[trigger] m.rooms[i]).1.members, t),
        alist_has(m.routes, t) ==> forall|i: int, j: int|
            0 <= i < m.rooms.len() && 0 <= j < m.rooms.len() && alist_has(
                (#[trigger] m.rooms[i]).1.members,
                t,
            ) && alist_has((#[trigger] m.rooms[j]).1.members, t) ==> i == j,
        forall|i: int|
            0 <= i < m.rooms.len() && alist_has((#[trigger] m.rooms[i]).1.online, t)
                ==> alist_has(m.routes, t),
{
    if alist_has(m.routes, t) {
        lemma_routes_target(m, t);
        let rname = alist_get(m.routes, t);
        lemma_alist_idx(m.rooms, rname);
        let ri = alist_idx(m.rooms, rname);
        assert(alist_has(m.rooms[ri].1.members, t));
    }
    assert forall|i: int|
        0 <= i < m.rooms.len() && alist_has((#[trigger] m.rooms[i]).1.members, t) implies alist_has(
        m.routes,
        t,
    ) by {
        lemma_alist_idx(m.rooms[i].1.members, t);
        let j = alist_idx(m.rooms[i].1.members, t);
        assert(alist_has(m.routes, m.rooms[i].1.members[j].0));
    }
    assert forall|i: int, j: int|
        0 <= i < m.rooms.len() && 0 <= j < m.rooms.len() && alist_has(
            (#[trigger] m.rooms[i]).1.members,
            t,
        ) && alist_has((#[trigger] m.rooms[j]).1.members, t) implies i == j by {
        lemma_alist_idx(m.rooms[i].1.members, t);
        let a = alist_idx(m.rooms[i].1.members, t);
        assert(alist_get(m.routes, m.rooms[i].1.members[a].0) == m.rooms[i].0);
        lemma_alist_idx(m.rooms[j].1.members, t);
        let b = alist_idx(m.rooms[j].1.members, t);
        assert(alist_get(m.routes, m.rooms[j].1.members[b].0) == m.rooms[j].0);
        if i != j {
            assert(m.rooms[i].0 != m.rooms[j].0);
        }
    }
    assert forall|i: int|
        0 <= i < m.rooms.len() && alist_has((#[trigger] m.rooms[i]).1.online, t) implies alist_has(
        m.routes,
        t,
    ) by {
        lemma_alist_idx(m.rooms[i].1.online, t);
        let j = alist_idx(m.rooms[i].1.online, t);
        assert(alist_has(m.rooms[i].1.members, m.rooms[i].1.online[j].0));
        lemma_alist_idx(m.rooms[i].1.members, t);
        let w = alist_idx(m.rooms[i].1.members, t);
        assert(alist_has(m.routes, m.rooms[i].1.members[w].0));
    }
}

/// Room teardown: disconnecting a room's last connection destroys the room
/// and purges every index entry pointing at it, and a reconnect with any of
/// the room's old tokens then fails with `InvalidToken` without touching
/// anything.
pub proof fn lemma_room_teardown(m: RouterModel, token: Seq<u8>, t2: Seq<u8>, conn: u64)
    requires
        model_wf(m),
        alist_has(m.routes, token),
        alist_has(alist_get(m.rooms, alist_get(m.routes, token)).online, token),
        alist_get(m.rooms, alist_get(m.routes, token)).online.len() == 1,
        alist_has(m.routes, t2),
        alist_get(m.routes, t2) == alist_get(m.routes, token),
    ensures
        disconnect_model(m, token).1 is Ok,
        !alist_has(disconnect_model(m, token).0.rooms, alist_get(m.routes, token)),
        !alist_has(disconnect_model(m, token).0.routes, t2),
        reconnect_model(disconnect_model(m, token).0, t2, conn).1 matches Err(e) && e
            == ResponseErrModel::Session(SessionErrorModel::InvalidToken),
        reconnect_model(disconnect_model(m, token).0, t2, conn).0 == disconnect_model(
            m,
            token,
        ).0,
{
    lemma_routes_target(m, token);
    let rname = alist_get(m.routes, token);
    let r = alist_get(m.rooms, rname);
    lemma_alist_remove(r.online, token);
    assert(alist_remove(r.online, token).len() == 0);
    lemma_alist_remove(m.rooms, rname);
    lemma_alist_drop_value(m.routes, rname);
}

/// One delivery step keeps the connection table's keys and every other
/// viewer's record; the stepped viewer's record becomes the delivered
/// snapshot, under its unchanged connection id.
proof fn lemma_state_step_online(r: RoomModel, t: Seq<u8>, s: Seq<char>)
    requires
        alist_unique(r.online),
    ensures
        alist_unique(state_step(r, t, s).0.online),
        state_step(r, t, s).0.members == r.members,
        forall|k: Seq<u8>|
            #[trigger] alist_has(state_step(r, t, s).0.online, k) == alist_has(r.online, k),
        forall|k: Seq<u8>|
            k != t && alist_has(r.online, k) ==> alist_get(state_step(r, t, s).0.online, k)
                == alist_get(r.online, k),
        alist_has(r.online, t) ==> {
            &&& alist_get(state_step(r, t, s).0.online, t).prev == Some(s)
            &&& alist_get(state_step(r, t, s).0.online, t).conn == alist_get(r.online, t).conn
        },
{
    if alist_has(r.online, t) {
        let c = alist_get(r.online, t);
        if c.prev == Some(s) {
        } else {
            lemma_alist_update(r.online, t, ConnectionModel { conn: c.conn, prev: Some(s) });
        }
    }
}

/// After a delivery batch that mentions each of its (pairwise distinct,
/// connected) viewers once, each mentioned viewer's recorded snapshot is the
/// delivered one; keys stay intact and unmentioned viewers keep their
/// records.
pub proof fn lemma_apply_states_records(r: RoomModel, states: Seq<(Seq<u8>, Seq<char>)>)
    requires
        alist_unique(r.online),
        forall|i: int, j: int| 0 <= i < j < states.len() ==> states[i].0 != states[j].0,
        forall|i: int| 0 <= i < states.len() ==> alist_has(r.online, (#[trigger] states[i]).0),
    ensures
        alist_unique(apply_states(r, states).0.online),
        apply_states(r, states).0.members == r.members,
        forall|k: Seq<u8>|
            #[trigger] alist_has(apply_states(r, states).0.online, k) == alist_has(r.online, k),
        forall|i: int|
            0 <= i < states.len() ==> alist_get(
                apply_states(r, states).0.online,
                (#[trigger] states[i]).0,
            ).prev == Some(states[i].1),
        forall|k: Seq<u8>|
            alist_has(r.online, k) && (forall|i: int|
                0 <= i < states.len() ==> (#[trigger] states[i]).0 != k) ==> alist_get(
                apply_states(r, states).0.online,
                k,
            ) == alist_get(r.online, k),
    decreases states.len(),
{
    if states.len() > 0 {
        let t0 = states[0].0;
        let s0 = states[0].1;
        lemma_state_step_online(r, t0, s0);
        let r1 = state_step(r, t0, s0).0;
        let rest = states.drop_first();
        assert forall|i: int, j: int| 0 <= i < j < rest.len() implies rest[i].0 != rest[j].0 by {
            assert(states[i + 1].0 != states[j + 1].0);
        }
        assert forall|i: int|
            0 <= i < rest.len() implies alist_has(r1.online, (#[trigger] rest[i]).0) by {
            assert(rest[i] == states[i + 1]);
        }
        lemma_apply_states_records(r1, rest);
        let rf = apply_states(r, states).0;
        assert(rf == apply_states(r1, rest).0);
        assert forall|i: int|
            0 <= i < states.len() implies alist_get(rf.online, (#[trigger] states[i]).0).prev
            == Some(states[i].1) by {
            if i == 0 {
                assert forall|w: int| 0 <= w < rest.len() implies (#[trigger] rest[w]).0 != t0 by {
                    assert(rest[w] == states[w + 1]);
                    assert(states[w + 1].0 != states[0].0);
                }
                assert(alist_get(r1.online, t0).prev == Some(s0));
                assert(alist_get(rf.online, t0) == alist_get(r1.online, t0));
            } else {
                assert(rest[i - 1] == states[i]);
            }
        }
        assert forall|k: Seq<u8>|
            alist_has(r.online, k) && (forall|i: int|
                0 <= i < states.len() ==> (#[trigger] states[i]).0 != k) implies alist_get(
            rf.online,
            k,
        ) == alist_get(r.online, k) by {
            assert(states[0].0 != k);
            assert forall|w: int| 0 <= w < rest.len() implies (#[trigger] rest[w]).0 != k by {
                assert(rest[w] == states[w + 1]);
            }
            assert(alist_get(r1.online, k) == alist_get(r.online, k));
        }
    }
}

/// Diff suppression, first half: a batch in which every connected viewer's
/// snapshot equals the one last pushed to it delivers nothing and changes
/// nothing.
pub proof fn lemma_diff_suppression(r: RoomModel, states: Seq<(Seq<u8>, Seq<char>)>)
    requires
        forall|i: int|
            0 <= i < states.len() ==> (alist_has(r.online, (#[trigger] states[i]).0)
                ==> alist_get(r.online, states[i].0).prev == Some(states[i].1)),
    ensures
        apply_states(r, states).0 == r,
        apply_states(r, states).1 == Seq::<PushModel>::empty(),
    decreases states.len(),
{
    if states.len() > 0 {
        assert(state_step(r, states[0].0, states[0].1).0 == r);
        let rest = states.drop_first();
        assert forall|i: int|
            0 <= i < rest.len() implies (alist_has(r.online, (#[trigger] rest[i]).0)
            ==> alist_get(r.online, rest[i].0).prev == Some(rest[i].1)) by {
            assert(rest[i] == states[i + 1]);
        }
        lemma_diff_suppression(r, rest);
        assert(apply_states(r, states).1 =~= Seq::<PushModel>::empty());
    }
}

/// Diff suppression, both halves: delivering the same per-viewer snapshots
/// twice in a row pushes at most once per viewer — the second delivery is
/// suppressed entirely and leaves the room as the first left it.
pub proof fn lemma_second_dispatch_suppressed(r: RoomModel, states: Seq<(Seq<u8>, Seq<char>)>)
    requires
        alist_unique(r.online),
        forall|i: int, j: int| 0 <= i < j < states.len() ==> states[i].0 != states[j].0,
        forall|i: int| 0 <= i < states.len() ==> alist_has(r.online, (#[trigger] states[i]).0),
    ensures
        apply_states(apply_states(r, states).0, states) == (
            apply_states(r, states).0,
            Seq::<PushModel>::empty(),
        ),
{
    lemma_apply_states_records(r, states);
    let r1 = apply_states(r, states).0;
    assert forall|i: int|
        0 <= i < states.len() implies (alist_has(r1.online, (#[trigger] states[i]).0)
        ==> alist_get(r1.online, states[i].0).prev == Some(states[i].1)) by {}
    lemma_diff_suppression(r1, states);
}

/// A changed snapshot reaches its viewer exactly once: a batch that mentions
/// each of its (pairwise distinct, connected) viewers once, each with a
/// snapshot differing from the last pushed, yields exactly one `State` push
/// per entry, addressed to that viewer's connection and carrying that
/// snapshot.
pub proof fn lemma_state_change_broadcast(r: RoomModel, states: Seq<(Seq<u8>, Seq<char>)>)
    requires
        alist_unique(r.online),
        forall|i: int, j: int| 0 <= i < j < states.len() ==> states[i].0 != states[j].0,
        forall|i: int| 0 <= i < states.len() ==> alist_has(r.online, (#[trigger] states[i]).0),
        forall|i: int|
            0 <= i < states.len() ==> alist_get(r.online, (#[trigger] states[i]).0).prev != Some(
                states[i].1,
            ),
    ensures
        apply_states(r, states).1.len() == states.len(),
        forall|i: int|
            0 <= i < states.len() ==> apply_states(r, states).1[i] == (
                alist_get(r.online, (#[trigger] states[i]).0).conn,
                ResponseModel::Success(ResponseOkModel::State(states[i].1)),
            ),
    decreases states.len(),
{
    if states.len() > 0 {
        let t0 = states[0].0;
        let s0 = states[0].1;
        lemma_state_step_online(r, t0, s0);
        let r1 = state_step(r, t0, s0).0;
        let p1 = state_step(r, t0, s0).1;
        assert(p1 == seq![
            (
                alist_get(r.online, t0).conn,
                ResponseModel::Success(ResponseOkModel::State(s0)),
            ),
        ]);
        let rest = states.drop_first();
        assert forall|i: int, j: int| 0 <= i < j < rest.len() implies rest[i].0 != rest[j].0 by {
            assert(states[i + 1].0 != states[j + 1].0);
        }
        assert forall|i: int|
            0 <= i < rest.len() implies alist_has(r1.online, (#[trigger] rest[i]).0) && alist_get(
            r1.online,
            rest[i].0,
        ) == alist_get(r.online, rest[i].0) by {
            assert(rest[i] == states[i + 1]);
            assert(states[i + 1].0 != t0);
        }
        lemma_state_change_broadcast(r1, rest);
        assert forall|i: int|
            0 <= i < states.len() implies apply_states(r, states).1[i] == (
            alist_get(r.online, (#[trigger] states[i]).0).conn,
            ResponseModel::Success(ResponseOkModel::State(states[i].1)),
        ) by {
            if i > 0 {
                assert(rest[i - 1] == states[i]);
                assert(apply_states(r, states).1[i] == apply_states(r1, rest).1[i - 1]);
            }
        }
    }
}

/// A changed state reaches the whole room: a delivery under an indexed token
/// whose batch renders one changed snapshot for each of the room's live
/// connections, in table order, pushes exactly one `State` message to every
/// connection currently registered in that room.
pub proof fn lemma_dispatch_state_change(
    m: RouterModel,
    token: Seq<u8>,
    states: Seq<(Seq<u8>, Seq<char>)>,
)
    requires
        model_wf(m),
        alist_has(m.routes, token),
        ({
            let r = alist_get(m.rooms, alist_get(m.routes, token));
            &&& states.len() == r.online.len()
            &&& forall|i: int| 0 <= i < states.len() ==> (#[trigger] states[i]).0 == r.online[i].0
            &&& forall|i: int|
                0 <= i < states.len() ==> alist_get(r.online, (#[trigger] states[i]).0).prev
                    != Some(states[i].1)
        }),
    ensures
        ({
            let r = alist_get(m.rooms, alist_get(m.routes, token));
            &&& dispatch_model(m, token, states).1 matches Ok(p) && p.len() == r.online.len()
                && forall|i: int|
                0 <= i < p.len() ==> p[i] == (
                    r.online[i].1.conn,
                    ResponseModel::Success(ResponseOkModel::State(states[i].1)),
                )
        }),
{
    lemma_routes_target(m, token);
    let r = alist_get(m.rooms, alist_get(m.routes, token));
    assert forall|i: int, j: int| 0 <= i < j < states.len() implies states[i].0 != states[j].0 by {
        assert(r.online[i].0 != r.online[j].0);
    }
    assert forall|i: int|
        0 <= i < states.len() implies alist_has(r.online, (#[trigger] states[i]).0) && alist_get(
        r.online,
        states[i].0,
    ) == r.online[i].1 by {
        lemma_alist_idx_unique_online(r, i);
    }
    lemma_state_change_broadcast(r, states);
}

/// Under a room's unique connection keys, the entry at a position is what
/// lookup by its own token resolves to.
proof fn lemma_alist_idx_unique_online(r: RoomModel, i: int)
    requires
        alist_unique(r.online),
        0 <= i < r.online.len(),
    ensures
        alist_has(r.online, r.online[i].0),
        alist_get(r.online, r.online[i].0) == r.online[i].1,
{
    crate::alist::lemma_alist_idx_unique(r.online, r.online[i].0, i);
}

/// Reconnect preserves identity: as long as the token's room survives the
/// disconnect (someone else is still connected), the token stays indexed,
/// the room's membership is untouched, and a later reconnect succeeds and
/// returns the very same token.
pub proof fn lemma_reconnect_preserves_identity(m: RouterModel, token: Seq<u8>, conn2: u64)
    requires
        model_wf(m),
        alist_has(m.routes, token),
        alist_remove(alist_get(m.rooms, alist_get(m.routes, token)).online, token).len() != 0,
    ensures
        disconnect_model(m, token).1 is Ok,
        ({
            let m1 = disconnect_model(m, token).0;
            &&& alist_has(m1.routes, token)
            &&& alist_get(m1.routes, token) == alist_get(m.routes, token)
            &&& alist_get(m1.rooms, alist_get(m.routes, token)).members == alist_get(
                m.rooms,
                alist_get(m.routes, token),
            ).members
            &&& reconnect_model(m1, token, conn2).1 matches Ok(pm) && pm.0 == token
        }),
{
    lemma_routes_target(m, token);
    let rname = alist_get(m.routes, token);
    let r = alist_get(m.rooms, rname);
    let r2 = RoomModel { members: r.members, online: alist_remove(r.online, token) };
    lemma_alist_set(m.rooms, rname, r2);
}

/// Duplicate name rejection: right after a successful signup of `name` into
/// `room`, a second signup of the same name into the same room fails with
/// `NameAlreadyRegistered(name)` and changes nothing — in particular the
/// room's membership is exactly what the first signup left.
pub proof fn lemma_duplicate_name_rejection(
    m: RouterModel,
    room: Seq<char>,
    name: Seq<char>,
    conn1: u64,
    conn2: u64,
    token1: Seq<u8>,
    token2: Seq<u8>,
)
    requires
        model_wf(m),
        signup_model(m, room, name, conn1, token1).1 is Ok,
    ensures
        ({
            let m1 = signup_model(m, room, name, conn1, token1).0;
            &&& signup_model(m1, room, name, conn2, token2).1 matches Err(e) && e
                == ResponseErrModel::Session(SessionErrorModel::NameAlreadyRegistered(name))
            &&& signup_model(m1, room, name, conn2, token2).0 == m1
        }),
{
    lemma_signup_wf(m, room, name, conn1, token1);
    let m1 = signup_model(m, room, name, conn1, token1).0;
    let prev = if alist_has(m.rooms, room) {
        alist_get(m.rooms, room)
    } else {
        RoomModel { members: Seq::empty(), online: Seq::empty() }
    };
    let r2 = RoomModel {
        members: prev.members.push((token1, name)),
        online: prev.online.push((token1, ConnectionModel { conn: conn1, prev: None })),
    };
    lemma_alist_set(m.rooms, room, r2);
    assert(alist_get(m1.rooms, room) == r2);
    assert(member_names(r2)[prev.members.len() as int] == name);
    assert(member_names(r2).contains(name));
    assert(name_taken_model(m1, room, name));
}

} // verus!
