//! The executable router. Every operation's result and new state are pinned
//! to the transitions in [`crate::model`].

use vstd::prelude::*;
use crate::alist::{alist_drop_value, alist_get, alist_has, alist_idx, alist_remove, alist_set,
    lemma_alist_idx, lemma_alist_idx_of_first};
use crate::messages::{names_view, pushes_view, Connect, Disconnect, Identifier, Push, Response,
    ResponseErr, ResponseErrModel, ResponseOk, SessionError, SessionErrorModel, Werewolf};
use crate::model::{apply_states, auth_push, dispatch_model, disconnect_model, empty_router,
    lemma_disconnect_wf, lemma_dispatch_wf, lemma_reconnect_wf, lemma_routes_target,
    lemma_signup_wf, member_names, members_broadcast, model_wf, name_taken_model,
    online_broadcast, online_keys, online_names, reconnect_model, room_wf, signup_model,
    state_step, ConnectionModel, RoomModel, RouterModel};
use crate::token::{decode_token, decoded_token, encode_token, TOKEN_LEN};

verus! {

/// A live connection: its caller-assigned id and the last state snapshot
/// pushed to it.
pub struct Connection {
    conn: u64,
    prev_state: Option<String>,
}

impl View for Connection {
    type V = ConnectionModel;

    closed spec fn view(&self) -> ConnectionModel {
        ConnectionModel {
            conn: self.conn,
            prev: match self.prev_state {
                Some(s) => Some(s@),
                None => None,
            },
        }
    }
}

/// View of a token-keyed table with text values.
pub open spec fn pairs_model(s: Seq<(Vec<u8>, String)>) -> Seq<(Seq<u8>, Seq<char>)> {
    s.map_values(|e: (Vec<u8>, String)| (e.0@, e.1@))
}

/// View of a room's live-connection table.
pub open spec fn online_entries_model(s: Seq<(Vec<u8>, Connection)>) -> Seq<
    (Seq<u8>, ConnectionModel),
> {
    s.map_values(|e: (Vec<u8>, Connection)| (e.0@, e.1@))
}

/// One room: everyone ever signed up and the live connections.
pub struct MasterInstance {
    members: Vec<(Vec<u8>, String)>,
    online: Vec<(Vec<u8>, Connection)>,
}

impl View for MasterInstance {
    type V = RoomModel;

    closed spec fn view(&self) -> RoomModel {
        RoomModel {
            members: pairs_model(self.members@),
            online: online_entries_model(self.online@),
        }
    }
}

/// View of the room table.
pub open spec fn rooms_model(s: Seq<(String, MasterInstance)>) -> Seq<(Seq<char>, RoomModel)> {
    s.map_values(|e: (String, MasterInstance)| (e.0@, e.1@))
}

/// View of the issued-token log.
pub open spec fn issued_model(s: Seq<Vec<u8>>) -> Seq<Seq<u8>> {
    s.map_values(|t: Vec<u8>| t@)
}

/// The router: rooms by name, the token-to-room index, and the log of every
/// token ever accepted.
pub struct MasterRouter {
    masters: Vec<(String, MasterInstance)>,
    routes: Vec<(Vec<u8>, String)>,
    issued: Vec<Vec<u8>>,
}

impl View for MasterRouter {
    type V = RouterModel;

    closed spec fn view(&self) -> RouterModel {
        RouterModel {
            rooms: rooms_model(self.masters@),
            routes: pairs_model(self.routes@),
            issued: issued_model(self.issued@),
        }
    }
}

/// Byte-wise token equality.
fn token_eq(a: &Vec<u8>, b: &Vec<u8>) -> (r: bool)
    ensures
        r == (a@ == b@),
{
    if a.len() != b.len() {
        return false;
    }
    let mut i: usize = 0;
    while i < a.len()
        invariant
            i <= a.len(),
            a@.len() == b@.len(),
            forall|j: int| 0 <= j < i ==> a@[j] == b@[j],
        decreases a.len() - i,
    {
        if a[i] != b[i] {
            return false;
        }
        i = i + 1;
    }
    proof {
        assert(a@ =~= b@);
    }
    true
}

/// An exact copy of a token.
fn clone_token(t: &Vec<u8>) -> (r: Vec<u8>)
    ensures
        r@ == t@,
{
    let r = t.clone();
    proof {
        assert(r@ =~= t@);
    }
    r
}

/// An exact copy of a name list.
fn clone_names(v: &Vec<String>) -> (r: Vec<String>)
    ensures
        r@ == v@,
{
    let r = v.clone();
    proof {
        assert(r@ =~= v@);
    }
    r
}

/// First entry with the given token key, if any.
fn find_token_key<V>(entries: &Vec<(Vec<u8>, V)>, k: &Vec<u8>) -> (r: Option<usize>)
    ensures
        match r {
            Some(i) => i < entries@.len() && entries@[i as int].0@ == k@ && forall|j: int|
                0 <= j < i ==> entries@[j].0@ != k@,
            None => forall|j: int| 0 <= j < entries@.len() ==> entries@[j].0@ != k@,
        },
{
    let mut i: usize = 0;
    while i < entries.len()
        invariant
            i <= entries@.len(),
            forall|j: int| 0 <= j < i ==> entries@[j].0@ != k@,
        decreases entries@.len() - i,
    {
        if token_eq(&entries[i].0, k) {
            return Some(i);
        }
        i = i + 1;
    }
    None
}

/// First entry with the given name key, if any.
fn find_name_key<V>(entries: &Vec<(String, V)>, k: &String) -> (r: Option<usize>)
    ensures
        match r {
            Some(i) => i < entries@.len() && entries@[i as int].0@ == k@ && forall|j: int|
                0 <= j < i ==> entries@[j].0@ != k@,
            None => forall|j: int| 0 <= j < entries@.len() ==> entries@[j].0@ != k@,
        },
{
    let mut i: usize = 0;
    while i < entries.len()
        invariant
            i <= entries@.len(),
            forall|j: int| 0 <= j < i ==> entries@[j].0@ != k@,
        decreases entries@.len() - i,
    {
        if entries[i].0 == *k {
            return Some(i);
        }
        i = i + 1;
    }
    None
}

/// Whether the issued-token log holds `t`.
fn contains_token(v: &Vec<Vec<u8>>, t: &Vec<u8>) -> (r: bool)
    ensures
        r == issued_model(v@).contains(t@),
{
    let mut i: usize = 0;
    while i < v.len()
        invariant
            i <= v@.len(),
            forall|j: int| 0 <= j < i ==> v@[j]@ != t@,
        decreases v@.len() - i,
    {
        if token_eq(&v[i], t) {
            assert(issued_model(v@)[i as int] == t@);
            return true;
        }
        i = i + 1;
    }
    proof {
        if issued_model(v@).contains(t@) {
            let w = choose|w: int| 0 <= w < issued_model(v@).len() && issued_model(v@)[w] == t@;
            assert(v@[w]@ == t@);
        }
    }
    false
}

/// Whether `name` is registered in the member table.
fn member_name_present(members: &Vec<(Vec<u8>, String)>, name: &String) -> (r: bool)
    ensures
        r == member_names(
            RoomModel { members: pairs_model(members@), online: Seq::empty() },
        ).contains(name@),
{
    let ghost mm = member_names(RoomModel { members: pairs_model(members@), online: Seq::empty() });
    let mut i: usize = 0;
    while i < members.len()
        invariant
            i <= members@.len(),
            mm == member_names(
                RoomModel { members: pairs_model(members@), online: Seq::empty() },
            ),
            forall|j: int| 0 <= j < i ==> members@[j].1@ != name@,
        decreases members@.len() - i,
    {
        if members[i].1 == *name {
            assert(mm[i as int] == name@);
            return true;
        }
        i = i + 1;
    }
    proof {
        if mm.contains(name@) {
            let w = choose|w: int| 0 <= w < mm.len() && mm[w] == name@;
            assert(members@[w].1@ == name@);
        }
    }
    false
}

/// Mutable access to the room at a position of the room table.
fn room_at(masters: &mut Vec<(String, MasterInstance)>, i: usize) -> (r: &mut MasterInstance)
    requires
        i < old(masters)@.len(),
    ensures
        *r == old(masters)@[i as int].1,
        final(masters)@ == old(masters)@.update(
            i as int,
            (old(masters)@[i as int].0, *final(r)),
        ),
{
    &mut masters[i].1
}

/// Names of the room's connected players, in arrival order.
fn collect_online_names(inst: &MasterInstance) -> (r: Vec<String>)
    requires
        room_wf(inst@),
    ensures
        names_view(r@) == online_names(inst@),
{
    let mut r: Vec<String> = Vec::new();
    let mut i: usize = 0;
    while i < inst.online.len()
        invariant
            room_wf(inst@),
            i <= inst.online@.len(),
            names_view(r@) =~= online_names(inst@).take(i as int),
        decreases inst.online@.len() - i,
    {
        let t = &inst.online[i].0;
        match find_token_key(&inst.members, t) {
            Some(j) => {
                proof {
                    assert forall|w: int| 0 <= w < j implies inst@.members[w].0 != t@ by {
                        assert(inst.members@[w].0@ != t@);
                    }
                    lemma_alist_idx_of_first(inst@.members, t@, j as int);
                    assert(alist_get(inst@.members, t@) == inst.members@[j as int].1@);
                    assert(online_names(inst@)[i as int] == alist_get(
                        inst@.members,
                        inst@.online[i as int].0,
                    ));
                    assert(inst@.online[i as int].0 == t@);
                }
                let nm = inst.members[j].1.clone();
                proof {
                    assert(nm@ == online_names(inst@)[i as int]);
                }
                let ghost r_pre = r@;
                r.push(nm);
                proof {
                    assert(online_names(inst@).len() == inst.online@.len());
                    assert(names_view(r_pre) == online_names(inst@).take(i as int));
                    assert(names_view(r_pre).len() == i as int);
                    assert(r_pre.len() == i as int);
                    assert forall|k: int| 0 <= k < i + 1 implies names_view(r@)[k] == online_names(
                        inst@,
                    ).take(i + 1 as int)[k] by {
                        if k < i {
                            assert(names_view(r@)[k] == r_pre[k]@);
                            assert(names_view(r_pre)[k] == r_pre[k]@);
                        } else {
                            assert(names_view(r@)[k] == nm@);
                        }
                    }
                    assert(names_view(r@) =~= online_names(inst@).take(i + 1 as int));
                }
            },
            None => {
                proof {
                    assert(alist_has(inst@.members, inst@.online[i as int].0));
                    lemma_alist_idx(inst@.members, t@);
                    let w = alist_idx(inst@.members, t@);
                    assert(inst@.members[w].0 == t@);
                    assert(inst.members@[w].0@ != t@);
                    assert(false);
                }
            },
        }
        i = i + 1;
    }
    proof {
        assert(online_names(inst@).take(inst.online@.len() as int) =~= online_names(inst@));
    }
    r
}

/// Names of everyone ever signed up into the room, in signup order.
fn collect_member_names(inst: &MasterInstance) -> (r: Vec<String>)
    ensures
        names_view(r@) == member_names(inst@),
{
    let mut r: Vec<String> = Vec::new();
    let mut i: usize = 0;
    while i < inst.members.len()
        invariant
            i <= inst.members@.len(),
            names_view(r@) =~= member_names(inst@).take(i as int),
        decreases inst.members@.len() - i,
    {
        let nm = inst.members[i].1.clone();
        proof {
            assert(inst@.members[i as int] == (inst.members@[i as int].0@, inst.members@[i as int].1@));
            assert(member_names(inst@)[i as int] == inst@.members[i as int].1);
            assert(nm@ == member_names(inst@)[i as int]);
        }
        let ghost r_pre = r@;
        r.push(nm);
        proof {
            assert(member_names(inst@).len() == inst.members@.len());
            assert(names_view(r_pre) == member_names(inst@).take(i as int));
            assert(names_view(r_pre).len() == i as int);
            assert(r_pre.len() == i as int);
            assert(r@ == r_pre.push(nm));
            assert(names_view(r@).len() == i + 1);
            assert forall|k: int| 0 <= k < i + 1 implies names_view(r@)[k] == member_names(
                inst@,
            ).take(i + 1 as int)[k] by {
                if k < i {
                    assert(names_view(r@)[k] == r_pre[k]@);
                    assert(names_view(r_pre)[k] == r_pre[k]@);
                } else {
                    assert(names_view(r@)[k] == nm@);
                }
            }
            assert(names_view(r@) =~= member_names(inst@).take(i + 1 as int));
        }
        i = i + 1;
    }
    proof {
        assert(member_names(inst@).take(inst.members@.len() as int) =~= member_names(inst@));
    }
    r
}

/// Append one `Online` push per live connection of the room.
fn append_online_broadcast(pushes: &mut Vec<Push>, inst: &MasterInstance, names: &Vec<String>)
    requires
        names_view(names@) == online_names(inst@),
    ensures
        pushes_view(final(pushes)@) == pushes_view(old(pushes)@) + online_broadcast(inst@),
{
    let ghost base = pushes@;
    let mut i: usize = 0;
    while i < inst.online.len()
        invariant
            names_view(names@) == online_names(inst@),
            i <= inst.online@.len(),
            pushes_view(pushes@) =~= pushes_view(base) + online_broadcast(inst@).take(i as int),
        decreases inst.online@.len() - i,
    {
        let body = Response::Success(ResponseOk::Online(clone_names(names)));
        let p = Push { conn: inst.online[i].1.conn, body };
        proof {
            assert(p@ == online_broadcast(inst@)[i as int]);
        }
        let ghost p_pre = pushes@;
        pushes.push(p);
        proof {
            let total = pushes_view(base) + online_broadcast(inst@).take(i + 1 as int);
            assert(online_broadcast(inst@).len() == inst.online@.len());
            assert(pushes_view(p_pre) == pushes_view(base) + online_broadcast(inst@).take(
                i as int,
            ));
            assert(pushes_view(p_pre).len() == base.len() + i);
            assert(p_pre.len() == base.len() + i);
            assert forall|k: int|
                0 <= k < p_pre.len() + 1 implies pushes_view(pushes@)[k] == total[k] by {
                if k < p_pre.len() {
                    assert(pushes_view(pushes@)[k] == p_pre[k]@);
                    assert(pushes_view(p_pre)[k] == p_pre[k]@);
                } else {
                    assert(pushes_view(pushes@)[k] == p@);
                }
            }
            assert(pushes_view(pushes@) =~= total);
        }
        i = i + 1;
    }
    proof {
        assert(online_broadcast(inst@).take(inst.online@.len() as int) =~= online_broadcast(
            inst@,
        ));
    }
}

/// Append one `Members` push per live connection of the room.
fn append_members_broadcast(pushes: &mut Vec<Push>, inst: &MasterInstance, names: &Vec<String>)
    requires
        names_view(names@) == member_names(inst@),
    ensures
        pushes_view(final(pushes)@) == pushes_view(old(pushes)@) + members_broadcast(inst@),
{
    let ghost base = pushes@;
    let mut i: usize = 0;
    while i < inst.online.len()
        invariant
            names_view(names@) == member_names(inst@),
            i <= inst.online@.len(),
            pushes_view(pushes@) =~= pushes_view(base) + members_broadcast(inst@).take(i as int),
        decreases inst.online@.len() - i,
    {
        let body = Response::Success(ResponseOk::Members(clone_names(names)));
        let p = Push { conn: inst.online[i].1.conn, body };
        proof {
            assert(p@ == members_broadcast(inst@)[i as int]);
        }
        let ghost p_pre = pushes@;
        pushes.push(p);
        proof {
            let total = pushes_view(base) + members_broadcast(inst@).take(i + 1 as int);
            assert(members_broadcast(inst@).len() == inst.online@.len());
            assert(pushes_view(p_pre) == pushes_view(base) + members_broadcast(inst@).take(
                i as int,
            ));
            assert(pushes_view(p_pre).len() == base.len() + i);
            assert(p_pre.len() == base.len() + i);
            assert forall|k: int|
                0 <= k < p_pre.len() + 1 implies pushes_view(pushes@)[k] == total[k] by {
                if k < p_pre.len() {
                    assert(pushes_view(pushes@)[k] == p_pre[k]@);
                    assert(pushes_view(p_pre)[k] == p_pre[k]@);
                } else {
                    assert(pushes_view(pushes@)[k] == p@);
                }
            }
            assert(pushes_view(pushes@) =~= total);
        }
        i = i + 1;
    }
    proof {
        assert(members_broadcast(inst@).take(inst.online@.len() as int) =~= members_broadcast(
            inst@,
        ));
    }
}

impl MasterRouter {
    /// The router's invariant: its model is well formed.
    pub open spec fn wf(&self) -> bool {
        model_wf(self@)
    }

    /// A fresh router with no rooms, no indexed tokens and nothing issued.
    pub fn new() -> (r: MasterRouter)
        ensures
            r@ == empty_router(),
            r.wf(),
    {
        let r = MasterRouter { masters: Vec::new(), routes: Vec::new(), issued: Vec::new() };
        proof {
            assert(r@.rooms =~= empty_router().rooms);
            assert(r@.routes =~= empty_router().routes);
            assert(r@.issued =~= empty_router().issued);
        }
        r
    }

    /// Whether `name` is already registered in `room`; what the signup
    /// transition rejects as a duplicate.
    pub fn name_taken(&self, room: &String, name: &String) -> (r: bool)
        ensures
            r == name_taken_model(self@, room@, name@),
    {
        match find_name_key(&self.masters, room) {
            Some(i) => {
                proof {
                    assert forall|w: int| 0 <= w < i implies self@.rooms[w].0 != room@ by {
                        assert(self.masters@[w].0@ != room@);
                    }
                    lemma_alist_idx_of_first(self@.rooms, room@, i as int);
                    assert(alist_get(self@.rooms, room@) == self.masters@[i as int].1@);
                }
                let r = member_name_present(&self.masters[i].1.members, name);
                proof {
                    assert(member_names(alist_get(self@.rooms, room@)) == member_names(
                        RoomModel {
                            members: pairs_model(self.masters@[i as int].1.members@),
                            online: Seq::empty(),
                        },
                    ));
                }
                r
            },
            None => {
                proof {
                    lemma_alist_idx(self@.rooms, room@);
                    if alist_has(self@.rooms, room@) {
                        let w = alist_idx(self@.rooms, room@);
                        assert(self.masters@[w].0@ == room@);
                    }
                }
                false
            },
        }
    }

    /// Signup: accept a fresh engine-issued token for `name` in `room`,
    /// creating the room on first use. Rejects a taken name, and rejects a
    /// malformed or previously issued token as an invariant violation. On
    /// success returns the token and the outbound pushes: the authentication
    /// notice to the new connection, then the updated online and membership
    /// sets to every connection of the room.
    pub fn signup(&mut self, room: String, name: String, conn: u64, token: Vec<u8>) -> (r: Result<
        (Vec<u8>, Vec<Push>),
        ResponseErr,
    >)
        requires
            old(self).wf(),
        ensures
            final(self).wf(),
            final(self)@ == signup_model(old(self)@, room@, name@, conn, token@).0,
            match (r, signup_model(old(self)@, room@, name@, conn, token@).1) {
                (Ok(tp), Ok(pm)) => tp.0@ == pm.0 && pushes_view(tp.1@) == pm.1,
                (Err(e), Err(em)) => e@ == em,
                _ => false,
            },
    {
        proof {
            lemma_signup_wf(old(self)@, room@, name@, conn, token@);
        }
        if self.name_taken(&room, &name) {
            return Err(ResponseErr::Session(SessionError::NameAlreadyRegistered(name)));
        }
        if token.len() != TOKEN_LEN || contains_token(&self.issued, &token) {
            return Err(ResponseErr::Session(SessionError::AuthenticationFailed));
        }
        let ghost m0 = self@;
        let ghost prev = if alist_has(m0.rooms, room@) {
            alist_get(m0.rooms, room@)
        } else {
            RoomModel { members: Seq::empty(), online: Seq::empty() }
        };
        let ghost r2 = RoomModel {
            members: prev.members.push((token@, name@)),
            online: prev.online.push((token@, ConnectionModel { conn, prev: None })),
        };

        let token_str = encode_token(&token);
        let tok_m = clone_token(&token);
        let tok_o = clone_token(&token);
        let tok_r = clone_token(&token);

        let ri: usize;
        match find_name_key(&self.masters, &room) {
            Some(i) => {
                proof {
                    assert forall|w: int| 0 <= w < i implies m0.rooms[w].0 != room@ by {
                        assert(self.masters@[w].0@ != room@);
                    }
                    lemma_alist_idx_of_first(m0.rooms, room@, i as int);
                    assert(prev == self.masters@[i as int].1@);
                }
                let inst = room_at(&mut self.masters, i);
                inst.members.push((tok_m, name.clone()));
                inst.online.push((tok_o, Connection { conn, prev_state: None }));
                ri = i;
                proof {
                    assert(pairs_model(inst.members@) =~= prev.members.push((token@, name@)));
                    assert(online_entries_model(inst.online@) =~= prev.online.push(
                        (token@, ConnectionModel { conn, prev: None }),
                    ));
                    assert(inst@ == r2);
                }
            },
            None => {
                proof {
                    lemma_alist_idx(m0.rooms, room@);
                    if alist_has(m0.rooms, room@) {
                        let w = alist_idx(m0.rooms, room@);
                        assert(self.masters@[w].0@ == room@);
                    }
                }
                let mut members: Vec<(Vec<u8>, String)> = Vec::new();
                members.push((tok_m, name.clone()));
                let mut online: Vec<(Vec<u8>, Connection)> = Vec::new();
                online.push((tok_o, Connection { conn, prev_state: None }));
                let inst = MasterInstance { members, online };
                proof {
                    assert(pairs_model(inst.members@) =~= prev.members.push((token@, name@)));
                    assert(online_entries_model(inst.online@) =~= prev.online.push(
                        (token@, ConnectionModel { conn, prev: None }),
                    ));
                    assert(inst@ == r2);
                }
                ri = self.masters.len();
                self.masters.push((room.clone(), inst));
            },
        }
        proof {
            assert(rooms_model(self.masters@) =~= crate::alist::alist_set(m0.rooms, room@, r2));
        }
        let tok_ret = clone_token(&token);
        self.routes.push((tok_r, room.clone()));
        self.issued.push(token);
        proof {
            assert(pairs_model(self.routes@) =~= m0.routes.push((token@, room@)));
            assert(issued_model(self.issued@) =~= m0.issued.push(token@));
            assert(self@ == signup_model(m0, room@, name@, conn, token@).0);
        }

        let inst_ref = &self.masters[ri].1;
        proof {
            assert(inst_ref@ == r2);
            assert(room_wf(r2)) by {
                assert(model_wf(self@));
                assert(self@.rooms[ri as int].1 == r2);
            }
        }
        let online_names_vec = collect_online_names(inst_ref);
        let member_names_vec = collect_member_names(inst_ref);
        let mut pushes: Vec<Push> = Vec::new();
        let auth = Push {
            conn,
            body: Response::Success(
                ResponseOk::AuthenticationSuccess {
                    token: token_str,
                    master: room,
                    name,
                },
            ),
        };
        proof {
            assert(auth@ == auth_push(conn, token@, room@, name@));
        }
        pushes.push(auth);
        proof {
            assert(pushes_view(pushes@) =~= seq![auth_push(conn, token@, room@, name@)]);
        }
        append_online_broadcast(&mut pushes, inst_ref, &online_names_vec);
        append_members_broadcast(&mut pushes, inst_ref, &member_names_vec);
        proof {
            assert(pushes_view(pushes@) =~= seq![auth_push(conn, token@, room@, name@)]
                + online_broadcast(r2) + members_broadcast(r2));
        }
        Ok((tok_ret, pushes))
    }

    /// Reconnect with a previously issued token string. Text that is not the
    /// encoding of an indexed token is rejected as `InvalidToken` without
    /// touching any registry. On success the token's connection is
    /// re-registered under `conn` (replacing a still-live one, whose snapshot
    /// history is cleared) and the same token is returned, with the pushes:
    /// the authentication notice, the updated online set to every connection
    /// of the room, and the membership set to the reconnecting client.
    pub fn reconnect(&mut self, token_str: &String, conn: u64) -> (r: Result<
        (Vec<u8>, Vec<Push>),
        ResponseErr,
    >)
        requires
            old(self).wf(),
        ensures
            final(self).wf(),
            match decoded_token(token_str@) {
                Some(tb) => {
                    &&& final(self)@ == reconnect_model(old(self)@, tb, conn).0
                    &&& match (r, reconnect_model(old(self)@, tb, conn).1) {
                        (Ok(tp), Ok(pm)) => tp.0@ == pm.0 && pushes_view(tp.1@) == pm.1,
                        (Err(e), Err(em)) => e@ == em,
                        _ => false,
                    }
                },
                None => {
                    &&& final(self)@ == old(self)@
                    &&& r matches Err(e) && e@ == ResponseErrModel::Session(
                        SessionErrorModel::InvalidToken,
                    )
                },
            },
    {
        let token = match decode_token(token_str) {
            Ok(t) => t,
            Err(e) => {
                return Err(ResponseErr::Session(e));
            },
        };
        let ghost m0 = self@;
        proof {
            lemma_reconnect_wf(m0, token@, conn);
        }
        let i = match find_token_key(&self.routes, &token) {
            Some(i) => i,
            None => {
                proof {
                    lemma_alist_idx(m0.routes, token@);
                    if alist_has(m0.routes, token@) {
                        let w = alist_idx(m0.routes, token@);
                        assert(self.routes@[w].0@ == token@);
                    }
                }
                return Err(ResponseErr::Session(SessionError::InvalidToken));
            },
        };
        proof {
            assert forall|w: int| 0 <= w < i implies m0.routes[w].0 != token@ by {
                assert(self.routes@[w].0@ != token@);
            }
            lemma_alist_idx_of_first(m0.routes, token@, i as int);
            lemma_routes_target(m0, token@);
        }
        let room_name = self.routes[i].1.clone();
        let ghost rname = alist_get(m0.routes, token@);
        let ghost room0 = alist_get(m0.rooms, rname);
        proof {
            assert(room_name@ == rname);
        }
        let ri = match find_name_key(&self.masters, &room_name) {
            Some(ri) => ri,
            None => {
                proof {
                    lemma_alist_idx(m0.rooms, rname);
                    let w = alist_idx(m0.rooms, rname);
                    assert(self.masters@[w].0@ == rname);
                    assert(false);
                }
                return Err(ResponseErr::Session(SessionError::InvalidToken));
            },
        };
        proof {
            assert forall|w: int| 0 <= w < ri implies m0.rooms[w].0 != rname by {
                assert(self.masters@[w].0@ != rname);
            }
            lemma_alist_idx_of_first(m0.rooms, rname, ri as int);
            assert(self.masters@[ri as int].1@ == room0);
        }
        let name = match find_token_key(&self.masters[ri].1.members, &token) {
            Some(j) => {
                proof {
                    assert forall|w: int| 0 <= w < j implies room0.members[w].0 != token@ by {
                        assert(self.masters@[ri as int].1.members@[w].0@ != token@);
                    }
                    lemma_alist_idx_of_first(room0.members, token@, j as int);
                }
                self.masters[ri].1.members[j].1.clone()
            },
            None => {
                proof {
                    lemma_alist_idx(room0.members, token@);
                    let w = alist_idx(room0.members, token@);
                    assert(self.masters@[ri as int].1.members@[w].0@ == token@);
                    assert(false);
                }
                return Err(ResponseErr::Session(SessionError::InvalidToken));
            },
        };
        proof {
            assert(name@ == alist_get(room0.members, token@));
        }

        let ghost c2 = ConnectionModel { conn, prev: None };
        let ghost r2 = RoomModel { members: room0.members, online: alist_set(room0.online, token@, c2) };
        let tok_o = clone_token(&token);
        let inst = room_at(&mut self.masters, ri);
        match find_token_key(&inst.online, &token) {
            Some(oi) => {
                proof {
                    assert forall|w: int| 0 <= w < oi implies room0.online[w].0 != token@ by {
                        assert(inst.online@[w].0@ != token@);
                    }
                    lemma_alist_idx_of_first(room0.online, token@, oi as int);
                }
                inst.online[oi] = (tok_o, Connection { conn, prev_state: None });
                proof {
                    assert(online_entries_model(inst.online@) =~= alist_set(
                        room0.online,
                        token@,
                        c2,
                    ));
                }
            },
            None => {
                proof {
                    lemma_alist_idx(room0.online, token@);
                    if alist_has(room0.online, token@) {
                        let w = alist_idx(room0.online, token@);
                        assert(inst.online@[w].0@ == token@);
                    }
                }
                inst.online.push((tok_o, Connection { conn, prev_state: None }));
                proof {
                    assert(online_entries_model(inst.online@) =~= alist_set(
                        room0.online,
                        token@,
                        c2,
                    ));
                }
            },
        }
        proof {
            assert(inst@ == r2);
        }
        proof {
            assert(rooms_model(self.masters@) =~= alist_set(m0.rooms, rname, r2));
            assert(pairs_model(self.routes@) == m0.routes);
            assert(issued_model(self.issued@) == m0.issued);
            assert(self@ == reconnect_model(m0, token@, conn).0);
        }

        let inst_ref = &self.masters[ri].1;
        proof {
            assert(inst_ref@ == r2);
            assert(room_wf(r2)) by {
                assert(model_wf(self@));
                assert(self@.rooms[ri as int].1 == r2);
            }
        }
        let online_names_vec = collect_online_names(inst_ref);
        let member_names_vec = collect_member_names(inst_ref);
        let token_out = encode_token(&token);
        let mut pushes: Vec<Push> = Vec::new();
        let auth = Push {
            conn,
            body: Response::Success(
                ResponseOk::AuthenticationSuccess { token: token_out, master: room_name, name },
            ),
        };
        proof {
            assert(auth@ == auth_push(conn, token@, rname, alist_get(room0.members, token@)));
        }
        let ghost authm = auth_push(conn, token@, rname, alist_get(room0.members, token@));
        pushes.push(auth);
        proof {
            assert(pushes_view(pushes@) =~= seq![authm]);
        }
        append_online_broadcast(&mut pushes, inst_ref, &online_names_vec);
        let members_push = Push {
            conn,
            body: Response::Success(ResponseOk::Members(member_names_vec)),
        };
        proof {
            assert(members_push@ == (
                conn,
                crate::messages::ResponseModel::Success(
                    crate::messages::ResponseOkModel::Members(member_names(r2)),
                ),
            ));
        }
        let ghost p_pre = pushes@;
        pushes.push(members_push);
        proof {
            let total = seq![authm] + online_broadcast(r2) + seq![members_push@];
            assert(online_broadcast(r2).len() == r2.online.len());
            assert(pushes_view(p_pre) == seq![authm] + online_broadcast(r2));
            assert(pushes_view(p_pre).len() == 1 + r2.online.len());
            assert(p_pre.len() == 1 + r2.online.len());
            assert forall|k: int|
                0 <= k < p_pre.len() + 1 implies pushes_view(pushes@)[k] == total[k] by {
                if k < p_pre.len() {
                    assert(pushes_view(pushes@)[k] == p_pre[k]@);
                    assert(pushes_view(p_pre)[k] == p_pre[k]@);
                } else {
                    assert(pushes_view(pushes@)[k] == members_push@);
                }
            }
            assert(pushes_view(pushes@) =~= total);
            assert(reconnect_model(m0, token@, conn).1 matches Ok(pm) && pushes_view(pushes@)
                =~= pm.1 && token@ == pm.0);
        }
        Ok((token, pushes))
    }

    /// The single connect entry point: a signup (which needs the token the
    /// engine issued for the name) or a reconnect by token string. A signup
    /// handed in without an engine token is rejected as an invariant
    /// violation.
    pub fn connect(&mut self, msg: Connect, engine_token: Option<Vec<u8>>) -> (r: Result<
        (Vec<u8>, Vec<Push>),
        ResponseErr,
    >)
        requires
            old(self).wf(),
        ensures
            final(self).wf(),
            match msg.id {
                Identifier::Signup { name, master } => match engine_token {
                    Some(t) => {
                        &&& final(self)@ == signup_model(
                            old(self)@,
                            master@,
                            name@,
                            msg.conn,
                            t@,
                        ).0
                        &&& match (r, signup_model(old(self)@, master@, name@, msg.conn, t@).1) {
                            (Ok(tp), Ok(pm)) => tp.0@ == pm.0 && pushes_view(tp.1@) == pm.1,
                            (Err(e), Err(em)) => e@ == em,
                            _ => false,
                        }
                    },
                    None => {
                        &&& final(self)@ == old(self)@
                        &&& r matches Err(e) && e@ == ResponseErrModel::Session(
                            SessionErrorModel::AuthenticationFailed,
                        )
                    },
                },
                Identifier::Token(s) => match decoded_token(s@) {
                    Some(tb) => {
                        &&& final(self)@ == reconnect_model(old(self)@, tb, msg.conn).0
                        &&& match (r, reconnect_model(old(self)@, tb, msg.conn).1) {
                            (Ok(tp), Ok(pm)) => tp.0@ == pm.0 && pushes_view(tp.1@) == pm.1,
                            (Err(e), Err(em)) => e@ == em,
                            _ => false,
                        }
                    },
                    None => {
                        &&& final(self)@ == old(self)@
                        &&& r matches Err(e) && e@ == ResponseErrModel::Session(
                            SessionErrorModel::InvalidToken,
                        )
                    },
                },
            },
    {
        match msg.id {
            Identifier::Signup { name, master } => match engine_token {
                Some(t) => self.signup(master, name, msg.conn, t),
                None => Err(ResponseErr::Session(SessionError::AuthenticationFailed)),
            },
            Identifier::Token(s) => self.reconnect(&s, msg.conn),
        }
    }

    /// Drop a token's connection. An unindexed token is rejected. When the
    /// room is left without connections it is destroyed and every index entry
    /// pointing at it is purged; otherwise the remaining connections receive
    /// the updated online set.
    pub fn disconnect(&mut self, msg: &Disconnect) -> (r: Result<Vec<Push>, ResponseErr>)
        requires
            old(self).wf(),
        ensures
            final(self).wf(),
            final(self)@ == disconnect_model(old(self)@, msg.token@).0,
            match (r, disconnect_model(old(self)@, msg.token@).1) {
                (Ok(p), Ok(pm)) => pushes_view(p@) == pm,
                (Err(e), Err(em)) => e@ == em,
                _ => false,
            },
    {
        let ghost m0 = self@;
        proof {
            lemma_disconnect_wf(m0, msg.token@);
        }
        let i = match find_token_key(&self.routes, &msg.token) {
            Some(i) => i,
            None => {
                proof {
                    lemma_alist_idx(m0.routes, msg.token@);
                    if alist_has(m0.routes, msg.token@) {
                        let w = alist_idx(m0.routes, msg.token@);
                        assert(self.routes@[w].0@ == msg.token@);
                    }
                }
                return Err(ResponseErr::Session(SessionError::InvalidToken));
            },
        };
        proof {
            assert forall|w: int| 0 <= w < i implies m0.routes[w].0 != msg.token@ by {
                assert(self.routes@[w].0@ != msg.token@);
            }
            lemma_alist_idx_of_first(m0.routes, msg.token@, i as int);
            lemma_routes_target(m0, msg.token@);
        }
        let room_name = self.routes[i].1.clone();
        let ghost rname = alist_get(m0.routes, msg.token@);
        let ghost room0 = alist_get(m0.rooms, rname);
        proof {
            assert(room_name@ == rname);
        }
        let ri = match find_name_key(&self.masters, &room_name) {
            Some(ri) => ri,
            None => {
                proof {
                    lemma_alist_idx(m0.rooms, rname);
                    let w = alist_idx(m0.rooms, rname);
                    assert(self.masters@[w].0@ == rname);
                    assert(false);
                }
                return Err(ResponseErr::Session(SessionError::InvalidToken));
            },
        };
        proof {
            assert forall|w: int| 0 <= w < ri implies m0.rooms[w].0 != rname by {
                assert(self.masters@[w].0@ != rname);
            }
            lemma_alist_idx_of_first(m0.rooms, rname, ri as int);
            assert(self.masters@[ri as int].1@ == room0);
        }
        let ghost online2 = alist_remove(room0.online, msg.token@);
        let inst = room_at(&mut self.masters, ri);
        match find_token_key(&inst.online, &msg.token) {
            Some(oi) => {
                proof {
                    assert forall|w: int| 0 <= w < oi implies room0.online[w].0 != msg.token@ by {
                        assert(inst.online@[w].0@ != msg.token@);
                    }
                    lemma_alist_idx_of_first(room0.online, msg.token@, oi as int);
                }
                let ghost o_pre = inst.online@;
                inst.online.remove(oi);
                proof {
                    assert(inst.online@ == o_pre.remove(oi as int));
                    assert(online_entries_model(inst.online@).len() == online2.len());
                    assert(online_entries_model(inst.online@) =~= online2);
                }
            },
            None => {
                proof {
                    lemma_alist_idx(room0.online, msg.token@);
                    if alist_has(room0.online, msg.token@) {
                        let w = alist_idx(room0.online, msg.token@);
                        assert(inst.online@[w].0@ == msg.token@);
                    }
                    assert(online2 == room0.online);
                }
            },
        }
        let emptied = inst.online.len() == 0;
        proof {
            assert(inst@ == RoomModel { members: room0.members, online: online2 });
            assert(emptied == (online2.len() == 0));
        }
        if emptied {
            // Last connection gone: destroy the room and purge its index
            // entries.
            self.masters.remove(ri);
            proof {
                assert(rooms_model(self.masters@).len() == alist_remove(m0.rooms, rname).len());
                assert(rooms_model(self.masters@) =~= alist_remove(m0.rooms, rname));
            }
            let mut kept: Vec<(Vec<u8>, String)> = Vec::new();
            let mut j: usize = 0;
            proof {
                assert(m0.routes.skip(0) =~= m0.routes);
                assert(pairs_model(kept@) =~= Seq::empty());
                assert(alist_drop_value(m0.routes, rname) =~= pairs_model(kept@)
                    + alist_drop_value(m0.routes.skip(0), rname));
            }
            while j < self.routes.len()
                invariant
                    j <= self.routes@.len(),
                    m0.routes == pairs_model(self.routes@),
                    room_name@ == rname,
                    alist_drop_value(m0.routes, rname) =~= pairs_model(kept@) + alist_drop_value(
                        m0.routes.skip(j as int),
                        rname,
                    ),
                decreases self.routes@.len() - j,
            {
                proof {
                    assert(m0.routes.skip(j as int).len() > 0);
                    assert(m0.routes.skip(j as int)[0] == m0.routes[j as int]);
                    assert(m0.routes.skip(j as int).drop_first() =~= m0.routes.skip(j + 1 as int));
                }
                let keep = !(self.routes[j].1 == room_name);
                if keep {
                    let e0 = clone_token(&self.routes[j].0);
                    let e1 = self.routes[j].1.clone();
                    let ghost k_pre = kept@;
                    kept.push((e0, e1));
                    proof {
                        assert(pairs_model(k_pre).len() == k_pre.len());
                        assert forall|k: int|
                            0 <= k < k_pre.len() + 1 implies pairs_model(kept@)[k] == pairs_model(
                            k_pre,
                        ).push(m0.routes[j as int])[k] by {
                            if k < k_pre.len() {
                                assert(pairs_model(kept@)[k] == (kept@[k].0@, kept@[k].1@));
                                assert(pairs_model(k_pre)[k] == (k_pre[k].0@, k_pre[k].1@));
                            } else {
                                assert(kept@[k] == (e0, e1));
                            }
                        }
                        assert(pairs_model(kept@) =~= pairs_model(k_pre).push(
                            m0.routes[j as int],
                        ));
                        assert(alist_drop_value(m0.routes.skip(j as int), rname) == seq![
                            m0.routes[j as int],
                        ] + alist_drop_value(m0.routes.skip(j + 1 as int), rname));
                        assert(pairs_model(k_pre) + (seq![m0.routes[j as int]] + alist_drop_value(
                            m0.routes.skip(j + 1 as int),
                            rname,
                        )) =~= pairs_model(kept@) + alist_drop_value(
                            m0.routes.skip(j + 1 as int),
                            rname,
                        ));
                    }
                } else {
                    proof {
                        assert(m0.routes[j as int].1 == rname);
                        assert(alist_drop_value(m0.routes.skip(j as int), rname)
                            == alist_drop_value(m0.routes.skip(j + 1 as int), rname));
                    }
                }
                j = j + 1;
            }
            proof {
                assert(m0.routes.skip(self.routes@.len() as int) =~= Seq::empty());
                assert(alist_drop_value(
                    m0.routes.skip(self.routes@.len() as int),
                    rname,
                ) =~= Seq::<(Seq<u8>, Seq<char>)>::empty());
                assert(alist_drop_value(m0.routes, rname) =~= pairs_model(kept@));
            }
            self.routes = kept;
            proof {
                assert(issued_model(self.issued@) == m0.issued);
                assert(self@ == disconnect_model(m0, msg.token@).0);
            }
            let pushes: Vec<Push> = Vec::new();
            proof {
                assert(pushes_view(pushes@) =~= Seq::<crate::messages::PushModel>::empty());
            }
            Ok(pushes)
        } else {
            proof {
                assert(rooms_model(self.masters@) =~= alist_set(
                    m0.rooms,
                    rname,
                    RoomModel { members: room0.members, online: online2 },
                ));
                assert(pairs_model(self.routes@) == m0.routes);
                assert(issued_model(self.issued@) == m0.issued);
                assert(self@ == disconnect_model(m0, msg.token@).0);
            }
            let ghost r2 = RoomModel { members: room0.members, online: online2 };
            let inst_ref = &self.masters[ri].1;
            proof {
                assert(inst_ref@ == r2);
                assert(room_wf(r2)) by {
                    assert(model_wf(self@));
                    assert(self@.rooms[ri as int].1 == r2);
                }
            }
            let online_names_vec = collect_online_names(inst_ref);
            let mut pushes: Vec<Push> = Vec::new();
            proof {
                assert(pushes_view(pushes@) =~= Seq::<crate::messages::PushModel>::empty());
            }
            append_online_broadcast(&mut pushes, inst_ref, &online_names_vec);
            proof {
                assert(pushes_view(pushes@) =~= online_broadcast(r2));
            }
            Ok(pushes)
        }
    }

    /// The room an indexed token belongs to, if any.
    pub fn route_of(&self, token: &Vec<u8>) -> (r: Option<String>)
        ensures
            match r {
                Some(s) => alist_has(self@.routes, token@) && s@ == alist_get(
                    self@.routes,
                    token@,
                ),
                None => !alist_has(self@.routes, token@),
            },
    {
        let ghost m0 = self@;
        match find_token_key(&self.routes, token) {
            Some(i) => {
                proof {
                    assert forall|w: int| 0 <= w < i implies m0.routes[w].0 != token@ by {
                        assert(self.routes@[w].0@ != token@);
                    }
                    lemma_alist_idx_of_first(m0.routes, token@, i as int);
                }
                Some(self.routes[i].1.clone())
            },
            None => {
                proof {
                    lemma_alist_idx(m0.routes, token@);
                    if alist_has(m0.routes, token@) {
                        let w = alist_idx(m0.routes, token@);
                        assert(self.routes@[w].0@ == token@);
                    }
                }
                None
            },
        }
    }

    /// Resolve a game action's token before the engine is consulted: the
    /// token's room and the requester's connection id. Fails with
    /// `InvalidToken` for an unindexed token and with `AuthenticationFailed`
    /// for an indexed token that holds no live connection.
    pub fn dispatch_begin(&self, msg: &Werewolf) -> (r: Result<(String, u64), SessionError>)
        requires
            self.wf(),
        ensures
            match r {
                Ok(rc) => {
                    &&& alist_has(self@.routes, msg.token@)
                    &&& rc.0@ == alist_get(self@.routes, msg.token@)
                    &&& alist_has(alist_get(self@.rooms, rc.0@).online, msg.token@)
                    &&& rc.1 == alist_get(
                        alist_get(self@.rooms, rc.0@).online,
                        msg.token@,
                    ).conn
                },
                Err(e) => {
                    ||| (e == SessionError::InvalidToken && !alist_has(
                        self@.routes,
                        msg.token@,
                    ))
                    ||| (e == SessionError::AuthenticationFailed && alist_has(
                        self@.routes,
                        msg.token@,
                    ) && !alist_has(
                        alist_get(self@.rooms, alist_get(self@.routes, msg.token@)).online,
                        msg.token@,
                    ))
                },
            },
    {
        let ghost m0 = self@;
        let i = match find_token_key(&self.routes, &msg.token) {
            Some(i) => i,
            None => {
                proof {
                    lemma_alist_idx(m0.routes, msg.token@);
                    if alist_has(m0.routes, msg.token@) {
                        let w = alist_idx(m0.routes, msg.token@);
                        assert(self.routes@[w].0@ == msg.token@);
                    }
                }
                return Err(SessionError::InvalidToken);
            },
        };
        proof {
            assert forall|w: int| 0 <= w < i implies m0.routes[w].0 != msg.token@ by {
                assert(self.routes@[w].0@ != msg.token@);
            }
            lemma_alist_idx_of_first(m0.routes, msg.token@, i as int);
            lemma_routes_target(m0, msg.token@);
        }
        let room_name = self.routes[i].1.clone();
        let ghost rname = alist_get(m0.routes, msg.token@);
        let ghost room0 = alist_get(m0.rooms, rname);
        let ri = match find_name_key(&self.masters, &room_name) {
            Some(ri) => ri,
            None => {
                proof {
                    lemma_alist_idx(m0.rooms, rname);
                    let w = alist_idx(m0.rooms, rname);
                    assert(self.masters@[w].0@ == rname);
                    assert(false);
                }
                return Err(SessionError::InvalidToken);
            },
        };
        proof {
            assert forall|w: int| 0 <= w < ri implies m0.rooms[w].0 != rname by {
                assert(self.masters@[w].0@ != rname);
            }
            lemma_alist_idx_of_first(m0.rooms, rname, ri as int);
            assert(self.masters@[ri as int].1@ == room0);
        }
        match find_token_key(&self.masters[ri].1.online, &msg.token) {
            Some(oi) => {
                proof {
                    assert forall|w: int| 0 <= w < oi implies room0.online[w].0 != msg.token@ by {
                        assert(self.masters@[ri as int].1.online@[w].0@ != msg.token@);
                    }
                    lemma_alist_idx_of_first(room0.online, msg.token@, oi as int);
                }
                Ok((room_name, self.masters[ri].1.online[oi].1.conn))
            },
            None => {
                proof {
                    lemma_alist_idx(room0.online, msg.token@);
                    if alist_has(room0.online, msg.token@) {
                        let w = alist_idx(room0.online, msg.token@);
                        assert(self.masters@[ri as int].1.online@[w].0@ == msg.token@);
                    }
                }
                Err(SessionError::AuthenticationFailed)
            },
        }
    }

    /// Tokens of the room's currently connected players, in arrival order;
    /// nothing when no such room exists.
    pub fn online_tokens(&self, room: &String) -> (r: Option<Vec<Vec<u8>>>)
        ensures
            match r {
                Some(v) => alist_has(self@.rooms, room@) && issued_model(v@) == online_keys(
                    alist_get(self@.rooms, room@),
                ),
                None => !alist_has(self@.rooms, room@),
            },
    {
        let ghost m0 = self@;
        match find_name_key(&self.masters, room) {
            Some(ri) => {
                proof {
                    assert forall|w: int| 0 <= w < ri implies m0.rooms[w].0 != room@ by {
                        assert(self.masters@[w].0@ != room@);
                    }
                    lemma_alist_idx_of_first(m0.rooms, room@, ri as int);
                }
                let ghost room0 = alist_get(m0.rooms, room@);
                let inst = &self.masters[ri].1;
                proof {
                    assert(inst@ == room0);
                }
                let mut out: Vec<Vec<u8>> = Vec::new();
                let mut k: usize = 0;
                while k < inst.online.len()
                    invariant
                        k <= inst.online@.len(),
                        inst@ == room0,
                        issued_model(out@) =~= online_keys(room0).take(k as int),
                    decreases inst.online@.len() - k,
                {
                    let t = clone_token(&inst.online[k].0);
                    proof {
                        assert(t@ == online_keys(room0)[k as int]);
                    }
                    let ghost o_pre = out@;
                    out.push(t);
                    proof {
                        assert(online_keys(room0).len() == inst.online@.len());
                        assert(issued_model(o_pre).len() == k as int);
                        assert(o_pre.len() == k as int);
                        assert forall|w: int|
                            0 <= w < k + 1 implies issued_model(out@)[w] == online_keys(
                            room0,
                        ).take(k + 1 as int)[w] by {
                            if w < k {
                                assert(issued_model(out@)[w] == o_pre[w]@);
                                assert(issued_model(o_pre)[w] == o_pre[w]@);
                            } else {
                                assert(out@[w]@ == online_keys(room0)[w]);
                            }
                        }
                        assert(issued_model(out@) =~= online_keys(room0).take(k + 1 as int));
                    }
                    k = k + 1;
                }
                proof {
                    assert(online_keys(room0).take(inst.online@.len() as int) =~= online_keys(
                        room0,
                    ));
                }
                Some(out)
            },
            None => {
                proof {
                    lemma_alist_idx(m0.rooms, room@);
                    if alist_has(m0.rooms, room@) {
                        let w = alist_idx(m0.rooms, room@);
                        assert(self.masters@[w].0@ == room@);
                    }
                }
                None
            },
        }
    }

    /// Deliver freshly rendered per-viewer snapshots after a game action
    /// under `msg.token`: each viewer still connected to the token's room
    /// receives its snapshot exactly once if it differs from the last one
    /// pushed to it, and nothing otherwise. Fails with `InvalidToken` for an
    /// unindexed token, mutating nothing.
    pub fn dispatch_updates(&mut self, msg: &Werewolf, states: &Vec<(Vec<u8>, String)>) -> (r:
        Result<Vec<Push>, SessionError>)
        requires
            old(self).wf(),
        ensures
            final(self).wf(),
            final(self)@ == dispatch_model(old(self)@, msg.token@, pairs_model(states@)).0,
            match (r, dispatch_model(old(self)@, msg.token@, pairs_model(states@)).1) {
                (Ok(p), Ok(pm)) => pushes_view(p@) == pm,
                (Err(e), Err(em)) => e@ == em,
                _ => false,
            },
    {
        let ghost m0 = self@;
        let ghost sts = pairs_model(states@);
        proof {
            lemma_dispatch_wf(m0, msg.token@, sts);
        }
        let i = match find_token_key(&self.routes, &msg.token) {
            Some(i) => i,
            None => {
                proof {
                    lemma_alist_idx(m0.routes, msg.token@);
                    if alist_has(m0.routes, msg.token@) {
                        let w = alist_idx(m0.routes, msg.token@);
                        assert(self.routes@[w].0@ == msg.token@);
                    }
                }
                return Err(SessionError::InvalidToken);
            },
        };
        proof {
            assert forall|w: int| 0 <= w < i implies m0.routes[w].0 != msg.token@ by {
                assert(self.routes@[w].0@ != msg.token@);
            }
            lemma_alist_idx_of_first(m0.routes, msg.token@, i as int);
            lemma_routes_target(m0, msg.token@);
        }
        let room_name = self.routes[i].1.clone();
        let ghost rname = alist_get(m0.routes, msg.token@);
        let ghost room0 = alist_get(m0.rooms, rname);
        let ri = match find_name_key(&self.masters, &room_name) {
            Some(ri) => ri,
            None => {
                proof {
                    lemma_alist_idx(m0.rooms, rname);
                    let w = alist_idx(m0.rooms, rname);
                    assert(self.masters@[w].0@ == rname);
                    assert(false);
                }
                return Err(SessionError::InvalidToken);
            },
        };
        proof {
            assert forall|w: int| 0 <= w < ri implies m0.rooms[w].0 != rname by {
                assert(self.masters@[w].0@ != rname);
            }
            lemma_alist_idx_of_first(m0.rooms, rname, ri as int);
            assert(self.masters@[ri as int].1@ == room0);
        }
        let ghost total = apply_states(room0, sts);
        let inst = room_at(&mut self.masters, ri);
        let mut pushes: Vec<Push> = Vec::new();
        let mut k: usize = 0;
        proof {
            assert(sts.skip(0) =~= sts);
            assert(pushes_view(pushes@) =~= Seq::<crate::messages::PushModel>::empty());
        }
        while k < states.len()
            invariant
                k <= states@.len(),
                sts == pairs_model(states@),
                apply_states(inst@, sts.skip(k as int)).0 == total.0,
                pushes_view(pushes@) + apply_states(inst@, sts.skip(k as int)).1 == total.1,
            decreases states@.len() - k,
        {
            let ghost pre_room = inst@;
            let ghost tk = sts[k as int].0;
            let ghost sk = sts[k as int].1;
            proof {
                assert(sts.skip(k as int).len() > 0);
                assert(sts.skip(k as int)[0] == sts[k as int]);
                assert(sts.skip(k as int).drop_first() =~= sts.skip(k + 1 as int));
                assert(tk == states@[k as int].0@ && sk == states@[k as int].1@);
            }
            match find_token_key(&inst.online, &states[k].0) {
                None => {
                    proof {
                        lemma_alist_idx(pre_room.online, tk);
                        if alist_has(pre_room.online, tk) {
                            let w = alist_idx(pre_room.online, tk);
                            assert(inst.online@[w].0@ == tk);
                        }
                        assert(state_step(pre_room, tk, sk) == (pre_room, Seq::<
                            crate::messages::PushModel,
                        >::empty()));
                        assert(Seq::<crate::messages::PushModel>::empty() + apply_states(
                            pre_room,
                            sts.skip(k + 1 as int),
                        ).1 =~= apply_states(pre_room, sts.skip(k + 1 as int)).1);
                    }
                },
                Some(oi) => {
                    proof {
                        assert forall|w: int| 0 <= w < oi implies pre_room.online[w].0 != tk by {
                            assert(inst.online@[w].0@ != tk);
                        }
                        lemma_alist_idx_of_first(pre_room.online, tk, oi as int);
                        assert(alist_get(pre_room.online, tk) == inst.online@[oi as int].1@);
                    }
                    let same = match &inst.online[oi].1.prev_state {
                        Some(p) => *p == states[k].1,
                        None => false,
                    };
                    proof {
                        assert(same == (alist_get(pre_room.online, tk).prev == Some(sk)));
                    }
                    if same {
                        proof {
                            assert(state_step(pre_room, tk, sk) == (pre_room, Seq::<
                                crate::messages::PushModel,
                            >::empty()));
                            assert(Seq::<crate::messages::PushModel>::empty() + apply_states(
                                pre_room,
                                sts.skip(k + 1 as int),
                            ).1 =~= apply_states(pre_room, sts.skip(k + 1 as int)).1);
                        }
                    } else {
                        let c = inst.online[oi].1.conn;
                        let tok_c = clone_token(&states[k].0);
                        let snap = states[k].1.clone();
                        let ghost c2 = ConnectionModel { conn: c, prev: Some(sk) };
                        inst.online[oi] = (tok_c, Connection { conn: c, prev_state: Some(snap) });
                        proof {
                            assert(online_entries_model(inst.online@) =~= alist_set(
                                pre_room.online,
                                tk,
                                c2,
                            ));
                            assert(inst@ == state_step(pre_room, tk, sk).0);
                        }
                        let p = Push {
                            conn: c,
                            body: Response::Success(ResponseOk::State(states[k].1.clone())),
                        };
                        proof {
                            assert(p@ == (
                                c,
                                crate::messages::ResponseModel::Success(
                                    crate::messages::ResponseOkModel::State(sk),
                                ),
                            ));
                            assert(state_step(pre_room, tk, sk).1 =~= seq![p@]);
                        }
                        let ghost p_pre = pushes@;
                        pushes.push(p);
                        proof {
                            assert(pushes_view(p_pre).len() == p_pre.len());
                            assert forall|w: int|
                                0 <= w < p_pre.len() + 1 implies pushes_view(pushes@)[w]
                                == pushes_view(p_pre).push(p@)[w] by {
                                if w < p_pre.len() {
                                    assert(pushes_view(pushes@)[w] == p_pre[w]@);
                                    assert(pushes_view(p_pre)[w] == p_pre[w]@);
                                } else {
                                    assert(pushes_view(pushes@)[w] == p@);
                                }
                            }
                            assert(pushes_view(pushes@) =~= pushes_view(p_pre).push(p@));
                            assert(pushes_view(p_pre) + (seq![p@] + apply_states(
                                inst@,
                                sts.skip(k + 1 as int),
                            ).1) =~= pushes_view(pushes@) + apply_states(
                                inst@,
                                sts.skip(k + 1 as int),
                            ).1);
                        }
                    }
                },
            }
            k = k + 1;
        }
        proof {
            assert(sts.skip(states@.len() as int) =~= Seq::<(Seq<u8>, Seq<char>)>::empty());
            assert(apply_states(inst@, Seq::empty()) == (inst@, Seq::<
                crate::messages::PushModel,
            >::empty()));
            assert(total.0 == inst@);
            assert(pushes_view(pushes@) + Seq::<crate::messages::PushModel>::empty()
                =~= pushes_view(pushes@));
            assert(total.1 == pushes_view(pushes@));
        }
        proof {
            assert(rooms_model(self.masters@) =~= alist_set(m0.rooms, rname, total.0));
            assert(pairs_model(self.routes@) == m0.routes);
            assert(issued_model(self.issued@) == m0.issued);
            assert(self@ == dispatch_model(m0, msg.token@, sts).0);
        }
        Ok(pushes)
    }
}

} // verus!
