use base64::Engine;
use werewolf_router::messages::{
    Connect, Disconnect, Identifier, Push, Response, ResponseErr, ResponseOk, SessionError,
    Werewolf,
};
use werewolf_router::router::MasterRouter;
use werewolf_router::token::{decode_token, encode_token, TOKEN_LEN};

fn token(n: u8) -> Vec<u8> {
    vec![n; TOKEN_LEN]
}

fn b64(bytes: &[u8]) -> String {
    base64::engine::general_purpose::STANDARD.encode(bytes)
}

fn auth_ok(conn: u64, tok: &[u8], room: &str, name: &str) -> Push {
    Push {
        conn,
        body: Response::Success(ResponseOk::AuthenticationSuccess {
            token: b64(tok),
            master: room.to_string(),
            name: name.to_string(),
        }),
    }
}

fn online(conn: u64, names: &[&str]) -> Push {
    Push {
        conn,
        body: Response::Success(ResponseOk::Online(
            names.iter().map(|s| s.to_string()).collect(),
        )),
    }
}

fn members(conn: u64, names: &[&str]) -> Push {
    Push {
        conn,
        body: Response::Success(ResponseOk::Members(
            names.iter().map(|s| s.to_string()).collect(),
        )),
    }
}

fn state(conn: u64, snap: &str) -> Push {
    Push {
        conn,
        body: Response::Success(ResponseOk::State(snap.to_string())),
    }
}

#[test]
fn signup_creates_room_and_notifies() {
    let mut router = MasterRouter::new();
    let t1 = token(1);
    let (tok, pushes) = router
        .signup("r".to_string(), "alice".to_string(), 1, t1.clone())
        .unwrap();
    assert_eq!(tok, t1);
    assert_eq!(
        pushes,
        vec![
            auth_ok(1, &t1, "r", "alice"),
            online(1, &["alice"]),
            members(1, &["alice"]),
        ]
    );
    assert!(router.name_taken(&"r".to_string(), &"alice".to_string()));
    assert!(!router.name_taken(&"r".to_string(), &"bob".to_string()));
}

#[test]
fn second_signup_notifies_everyone() {
    let mut router = MasterRouter::new();
    let t1 = token(1);
    let t2 = token(2);
    router
        .signup("r".to_string(), "alice".to_string(), 1, t1.clone())
        .unwrap();
    let (tok, pushes) = router
        .signup("r".to_string(), "bob".to_string(), 2, t2.clone())
        .unwrap();
    assert_eq!(tok, t2);
    assert_eq!(
        pushes,
        vec![
            auth_ok(2, &t2, "r", "bob"),
            online(1, &["alice", "bob"]),
            online(2, &["alice", "bob"]),
            members(1, &["alice", "bob"]),
            members(2, &["alice", "bob"]),
        ]
    );
}

#[test]
fn duplicate_name_is_rejected_and_room_unchanged() {
    let mut router = MasterRouter::new();
    let t1 = token(1);
    router
        .signup("room1".to_string(), "alice".to_string(), 1, t1.clone())
        .unwrap();
    let err = router
        .signup("room1".to_string(), "alice".to_string(), 2, token(2))
        .unwrap_err();
    assert_eq!(
        err,
        ResponseErr::Session(SessionError::NameAlreadyRegistered("alice".to_string()))
    );
    // The room's membership is unchanged: a third signup still sees exactly
    // one earlier member.
    let (_, pushes) = router
        .signup("room1".to_string(), "carol".to_string(), 3, token(3))
        .unwrap();
    assert_eq!(pushes[3], members(1, &["alice", "carol"]));
}

#[test]
fn reused_or_malformed_engine_token_is_rejected() {
    let mut router = MasterRouter::new();
    let t1 = token(1);
    router
        .signup("r".to_string(), "alice".to_string(), 1, t1.clone())
        .unwrap();
    // A colliding token is a registry invariant violation.
    let err = router
        .signup("r".to_string(), "bob".to_string(), 2, t1.clone())
        .unwrap_err();
    assert_eq!(err, ResponseErr::Session(SessionError::AuthenticationFailed));
    // So is one of the wrong size.
    let err = router
        .signup("r".to_string(), "bob".to_string(), 2, vec![9u8; 31])
        .unwrap_err();
    assert_eq!(err, ResponseErr::Session(SessionError::AuthenticationFailed));
}

#[test]
fn reconnect_returns_same_token() {
    let mut router = MasterRouter::new();
    let t1 = token(1);
    let t2 = token(2);
    let (_, first_pushes) = router
        .signup("room1".to_string(), "alice".to_string(), 1, t1.clone())
        .unwrap();
    // The token string issued at signup is the standard base64 encoding.
    match &first_pushes[0].body {
        Response::Success(ResponseOk::AuthenticationSuccess { token, .. }) => {
            assert_eq!(token, &b64(&t1));
        }
        other => panic!("expected authentication push, got {:?}", other),
    }
    router
        .signup("room1".to_string(), "bob".to_string(), 2, t2.clone())
        .unwrap();
    router.disconnect(&Disconnect { token: t1.clone() }).unwrap();
    // Reconnect with the issued string returns the very same token.
    let (tok, pushes) = router.reconnect(&b64(&t1), 3).unwrap();
    assert_eq!(tok, t1);
    assert_eq!(
        pushes,
        vec![
            auth_ok(3, &t1, "room1", "alice"),
            online(2, &["bob", "alice"]),
            online(3, &["bob", "alice"]),
            members(3, &["alice", "bob"]),
        ]
    );
}

#[test]
fn malformed_token_strings_are_rejected_without_mutation() {
    let mut router = MasterRouter::new();
    let t1 = token(1);
    router
        .signup("r".to_string(), "alice".to_string(), 1, t1.clone())
        .unwrap();
    // 31 and 33 decoded bytes, and text that is not base64 at all.
    for bad in [
        b64(&vec![7u8; 31]),
        b64(&vec![7u8; 33]),
        "not base64!!!".to_string(),
    ] {
        let err = router.reconnect(&bad, 9).unwrap_err();
        assert_eq!(err, ResponseErr::Session(SessionError::InvalidToken));
    }
    // Nothing was mutated: alice is still the room's one connection.
    let (_, pushes) = router
        .signup("r".to_string(), "bob".to_string(), 2, token(2))
        .unwrap();
    assert_eq!(pushes[1], online(1, &["alice", "bob"]));
}

#[test]
fn unknown_token_cannot_reconnect_or_disconnect() {
    let mut router = MasterRouter::new();
    let err = router.reconnect(&b64(&token(5)), 1).unwrap_err();
    assert_eq!(err, ResponseErr::Session(SessionError::InvalidToken));
    let err = router
        .disconnect(&Disconnect { token: token(5) })
        .unwrap_err();
    assert_eq!(err, ResponseErr::Session(SessionError::InvalidToken));
}

#[test]
fn two_clients_one_room_scenario() {
    let mut router = MasterRouter::new();
    let t1 = token(1);
    let t2 = token(2);
    router
        .signup("r".to_string(), "alice".to_string(), 1, t1.clone())
        .unwrap();
    router
        .signup("r".to_string(), "bob".to_string(), 2, t2.clone())
        .unwrap();

    // A state-changing action: both connections receive one identical push.
    let act = Werewolf {
        token: t1.clone(),
        body: "actionX".to_string(),
    };
    let (room, requester_conn) = router.dispatch_begin(&act).unwrap();
    assert_eq!(room, "r");
    assert_eq!(requester_conn, 1);
    let snapshots = vec![(t1.clone(), "s1".to_string()), (t2.clone(), "s1".to_string())];
    let pushes = router.dispatch_updates(&act, &snapshots).unwrap();
    assert_eq!(pushes, vec![state(1, "s1"), state(2, "s1")]);

    // The same per-viewer snapshots again: fully suppressed.
    let pushes = router.dispatch_updates(&act, &snapshots).unwrap();
    assert_eq!(pushes, vec![]);

    // A changed snapshot is pushed exactly once per connection.
    let snapshots2 = vec![(t1.clone(), "s2".to_string()), (t2.clone(), "s2".to_string())];
    let pushes = router.dispatch_updates(&act, &snapshots2).unwrap();
    assert_eq!(pushes, vec![state(1, "s2"), state(2, "s2")]);

    // Disconnecting alice tells bob the new online set.
    let pushes = router.disconnect(&Disconnect { token: t1.clone() }).unwrap();
    assert_eq!(pushes, vec![online(2, &["bob"])]);

    // Disconnecting bob destroys the room...
    let pushes = router.disconnect(&Disconnect { token: t2.clone() }).unwrap();
    assert_eq!(pushes, vec![]);

    // ...and the old tokens are gone for good.
    for t in [t1, t2] {
        let err = router.reconnect(&b64(&t), 7).unwrap_err();
        assert_eq!(err, ResponseErr::Session(SessionError::InvalidToken));
    }
    assert!(router.online_tokens(&"r".to_string()).is_none());
}

#[test]
fn dispatch_requires_live_connection() {
    let mut router = MasterRouter::new();
    let t1 = token(1);
    let t2 = token(2);
    router
        .signup("r".to_string(), "alice".to_string(), 1, t1.clone())
        .unwrap();
    router
        .signup("r".to_string(), "bob".to_string(), 2, t2.clone())
        .unwrap();
    router.disconnect(&Disconnect { token: t1.clone() }).unwrap();
    // Alice's token is still indexed (she may reconnect) but holds no live
    // connection.
    let act = Werewolf {
        token: t1.clone(),
        body: "a".to_string(),
    };
    assert_eq!(
        router.dispatch_begin(&act).unwrap_err(),
        SessionError::AuthenticationFailed
    );
    // An unindexed token is invalid outright.
    let act = Werewolf {
        token: token(9),
        body: "a".to_string(),
    };
    assert_eq!(
        router.dispatch_begin(&act).unwrap_err(),
        SessionError::InvalidToken
    );
}

#[test]
fn state_snapshots_are_per_viewer() {
    let mut router = MasterRouter::new();
    let t1 = token(1);
    let t2 = token(2);
    router
        .signup("r".to_string(), "alice".to_string(), 1, t1.clone())
        .unwrap();
    router
        .signup("r".to_string(), "bob".to_string(), 2, t2.clone())
        .unwrap();
    let act = Werewolf {
        token: t2.clone(),
        body: "a".to_string(),
    };
    // Each viewer gets its own rendering; only changed ones are delivered.
    let pushes = router
        .dispatch_updates(
            &act,
            &vec![(t1.clone(), "view-a".to_string()), (t2.clone(), "view-b".to_string())],
        )
        .unwrap();
    assert_eq!(pushes, vec![state(1, "view-a"), state(2, "view-b")]);
    let pushes = router
        .dispatch_updates(
            &act,
            &vec![(t1.clone(), "view-a".to_string()), (t2.clone(), "view-c".to_string())],
        )
        .unwrap();
    assert_eq!(pushes, vec![state(2, "view-c")]);
}

#[test]
fn online_tokens_lists_live_connections() {
    let mut router = MasterRouter::new();
    let t1 = token(1);
    let t2 = token(2);
    router
        .signup("r".to_string(), "alice".to_string(), 1, t1.clone())
        .unwrap();
    router
        .signup("r".to_string(), "bob".to_string(), 2, t2.clone())
        .unwrap();
    assert_eq!(
        router.online_tokens(&"r".to_string()).unwrap(),
        vec![t1.clone(), t2.clone()]
    );
    router.disconnect(&Disconnect { token: t1 }).unwrap();
    assert_eq!(router.online_tokens(&"r".to_string()).unwrap(), vec![t2]);
}

#[test]
fn connect_entry_point_dispatches() {
    let mut router = MasterRouter::new();
    let t1 = token(1);
    let msg = Connect {
        id: Identifier::Signup {
            name: "alice".to_string(),
            master: "r".to_string(),
        },
        conn: 1,
    };
    let (tok, _) = router.connect(msg, Some(t1.clone())).unwrap();
    assert_eq!(tok, t1);
    // A signup without an engine-issued token is an invariant violation.
    let msg = Connect {
        id: Identifier::Signup {
            name: "bob".to_string(),
            master: "r".to_string(),
        },
        conn: 2,
    };
    assert_eq!(
        router.connect(msg, None).unwrap_err(),
        ResponseErr::Session(SessionError::AuthenticationFailed)
    );
    // Reconnect by token string goes through the same entry point.
    let msg = Connect {
        id: Identifier::Token(b64(&t1)),
        conn: 3,
    };
    let (tok, _) = router.connect(msg, None).unwrap();
    assert_eq!(tok, t1);
}

#[test]
fn token_codec_round_trip() {
    let bytes: Vec<u8> = (0..32u8).collect();
    let s = encode_token(&bytes);
    assert_eq!(s, b64(&bytes));
    assert_eq!(decode_token(&s).unwrap(), bytes);
    assert_eq!(
        decode_token(&"***".to_string()).unwrap_err(),
        SessionError::InvalidToken
    );
    assert_eq!(
        decode_token(&b64(&vec![1u8; 33])).unwrap_err(),
        SessionError::InvalidToken
    );
}

#[test]
fn reconnect_replaces_a_live_connection() {
    let mut router = MasterRouter::new();
    let t1 = token(1);
    let t2 = token(2);
    router
        .signup("r".to_string(), "alice".to_string(), 1, t1.clone())
        .unwrap();
    router
        .signup("r".to_string(), "bob".to_string(), 2, t2.clone())
        .unwrap();
    // Alice reconnects while her first connection is still registered: the
    // connection is replaced in place, so pushes for her token now go to the
    // new connection id.
    let (tok, pushes) = router.reconnect(&b64(&t1), 3).unwrap();
    assert_eq!(tok, t1);
    assert_eq!(
        pushes,
        vec![
            auth_ok(3, &t1, "r", "alice"),
            online(3, &["alice", "bob"]),
            online(2, &["alice", "bob"]),
            members(3, &["alice", "bob"]),
        ]
    );
    let act = Werewolf {
        token: t1.clone(),
        body: "a".to_string(),
    };
    let pushes = router
        .dispatch_updates(
            &act,
            &vec![(t1.clone(), "s".to_string()), (t2.clone(), "s".to_string())],
        )
        .unwrap();
    assert_eq!(pushes, vec![state(3, "s"), state(2, "s")]);
}

#[test]
fn reconnect_clears_snapshot_history() {
    let mut router = MasterRouter::new();
    let t1 = token(1);
    let t2 = token(2);
    router
        .signup("r".to_string(), "alice".to_string(), 1, t1.clone())
        .unwrap();
    router
        .signup("r".to_string(), "bob".to_string(), 2, t2.clone())
        .unwrap();
    let act = Werewolf {
        token: t1.clone(),
        body: "a".to_string(),
    };
    let snapshots = vec![(t1.clone(), "s1".to_string()), (t2.clone(), "s1".to_string())];
    router.dispatch_updates(&act, &snapshots).unwrap();
    // After a disconnect and reconnect the new connection has no snapshot
    // history, so the unchanged state is delivered to it once more, while
    // bob's is still suppressed.
    router.disconnect(&Disconnect { token: t1.clone() }).unwrap();
    router.reconnect(&b64(&t1), 3).unwrap();
    let pushes = router.dispatch_updates(&act, &snapshots).unwrap();
    assert_eq!(pushes, vec![state(3, "s1")]);
}

#[test]
fn rooms_are_independent() {
    let mut router = MasterRouter::new();
    let t1 = token(1);
    let t2 = token(2);
    router
        .signup("r1".to_string(), "alice".to_string(), 1, t1.clone())
        .unwrap();
    router
        .signup("r2".to_string(), "alice".to_string(), 2, t2.clone())
        .unwrap();
    // The same player name may exist in different rooms.
    assert!(router.name_taken(&"r1".to_string(), &"alice".to_string()));
    assert!(router.name_taken(&"r2".to_string(), &"alice".to_string()));
    // Tearing one room down leaves the other intact.
    router.disconnect(&Disconnect { token: t1 }).unwrap();
    assert!(router.online_tokens(&"r1".to_string()).is_none());
    assert_eq!(router.online_tokens(&"r2".to_string()).unwrap(), vec![t2]);
}
