use graphql_test::auth::SessionId;
use graphql_test::signals::models::{Room, RoomsStorage};
use graphql_test::signals::{
    get_user_id, random_user_id, MutationRoot, SessionStep, SignalError, SignalQueries,
    SignalSubscriptions, SESSION_ID_LEN, user_id_from_samples,
};

fn sid(s: &str) -> SessionId {
    SessionId(s.to_string())
}

fn sorted(mut v: Vec<String>) -> Vec<String> {
    v.sort();
    v
}

#[test]
fn room_membership_basics() {
    let mut room = Room::new();
    assert!(room.is_empty());
    assert!(room.insert("a".to_string()));
    assert!(!room.insert("a".to_string()));
    assert!(room.insert("b".to_string()));
    assert!(room.contains("a"));
    assert_eq!(room.users(), vec!["a", "b"]);
    assert!(room.remove("a"));
    assert!(!room.remove("a"));
    assert_eq!(room.users(), vec!["b"]);
    assert!(!room.is_empty());
}

#[test]
fn unauthorized_requests_are_refused() {
    let mut rooms = RoomsStorage::new();
    assert_eq!(get_user_id(None).err(), Some(SignalError::Unauthorized));
    assert_eq!(SignalSubscriptions::signals(&mut rooms, None), Err(SignalError::Unauthorized));
    assert_eq!(
        SignalSubscriptions::room(&mut rooms, None, "r".to_string()).err(),
        Some(SignalError::Unauthorized)
    );
    assert_eq!(
        MutationRoot::signal(&rooms, None, "p", "hi".to_string()).err(),
        Some(SignalError::Unauthorized)
    );
    assert_eq!(SignalError::Unauthorized.message(), "Unauthorized");
}

#[test]
fn rooms_need_listening_first() {
    let mut rooms = RoomsStorage::new();
    let alice = sid("alice");
    let res = SignalSubscriptions::room(&mut rooms, Some(&alice), "r".to_string());
    assert_eq!(res.err(), Some(SignalError::NotListening));
    assert_eq!(SignalError::NotListening.message(), "You have to listen to signals first");
    assert!(SignalQueries::rooms(&rooms).is_empty());
}

#[test]
fn listening_ends_with_the_last_stream() {
    let mut rooms = RoomsStorage::new();
    let alice = sid("alice");
    assert_eq!(SignalSubscriptions::signals(&mut rooms, Some(&alice)), Ok(true));
    assert_eq!(SignalSubscriptions::signals(&mut rooms, Some(&alice)), Ok(false));
    assert!(rooms.is_listening("alice"));
    assert_eq!(SignalQueries::users(&rooms), vec!["alice"]);
    // one of two streams closes: one is left
    let out = rooms.stop_listening("alice", 1);
    assert!(!out.user_removed);
    assert!(rooms.is_listening("alice"));
    // the last one closes
    let out = rooms.stop_listening("alice", 0);
    assert!(out.user_removed);
    assert!(!rooms.is_listening("alice"));
    assert!(SignalQueries::users(&rooms).is_empty());
}

#[test]
fn joining_and_leaving_a_room() {
    let mut rooms = RoomsStorage::new();
    let alice = sid("alice");
    let bob = sid("bob");
    SignalSubscriptions::signals(&mut rooms, Some(&alice)).unwrap();
    SignalSubscriptions::signals(&mut rooms, Some(&bob)).unwrap();

    let join = SignalSubscriptions::room(&mut rooms, Some(&alice), "r".to_string()).unwrap();
    assert!(join.created);
    assert_eq!(join.snapshot.unwrap().users, vec!["alice"]);
    let join = SignalSubscriptions::room(&mut rooms, Some(&bob), "r".to_string()).unwrap();
    assert!(!join.created);
    assert_eq!(join.snapshot.unwrap().users, vec!["alice", "bob"]);
    // joining twice changes nothing and tells nobody
    let join = rooms.join_room("r".to_string(), "bob".to_string());
    assert!(!join.created);
    assert!(join.snapshot.is_none());
    assert_eq!(SignalQueries::rooms(&rooms), vec!["r"]);

    let leave = rooms.leave_room("r", "alice");
    assert_eq!(leave.snapshot.unwrap().users, vec!["bob"]);
    assert!(!leave.room_removed);
    let leave = rooms.leave_room("r", "alice");
    assert!(leave.snapshot.is_none());
    let leave = rooms.leave_room("r", "bob");
    assert!(leave.snapshot.unwrap().users.is_empty());
    assert!(leave.room_removed);
    assert!(SignalQueries::rooms(&rooms).is_empty());
    let leave = rooms.leave_room("r", "bob");
    assert!(leave.snapshot.is_none());
    assert!(!leave.room_removed);
}

#[test]
fn departing_user_leaves_every_room() {
    let mut rooms = RoomsStorage::new();
    rooms.listen("alice".to_string());
    rooms.listen("bob".to_string());
    rooms.join_room("r1".to_string(), "alice".to_string());
    rooms.join_room("r2".to_string(), "alice".to_string());
    rooms.join_room("r2".to_string(), "bob".to_string());
    rooms.join_room("r3".to_string(), "bob".to_string());

    let out = rooms.stop_listening("alice", 0);
    assert!(out.user_removed);
    let mut updates: Vec<(String, Vec<String>, bool)> =
        out.updates.into_iter().map(|u| (u.room_id, u.room.users, u.removed)).collect();
    updates.sort();
    assert_eq!(
        updates,
        vec![
            ("r1".to_string(), vec![], true),
            ("r2".to_string(), vec!["bob".to_string()], false),
        ]
    );
    assert_eq!(sorted(SignalQueries::rooms(&rooms)), vec!["r2", "r3"]);
    assert_eq!(SignalQueries::users(&rooms), vec!["bob"]);
}

#[test]
fn signal_goes_only_to_listening_peers() {
    let mut rooms = RoomsStorage::new();
    let alice = sid("alice");
    rooms.listen("bob".to_string());
    let sig = MutationRoot::signal(&rooms, Some(&alice), "bob", "offer".to_string())
        .unwrap()
        .unwrap();
    assert_eq!(sig.payload, "offer");
    assert_eq!(sig.peer_id, "alice");
    assert!(MutationRoot::signal(&rooms, Some(&alice), "carol", "offer".to_string())
        .unwrap()
        .is_none());
}

#[test]
fn existing_session_is_answered_as_it_is() {
    let alice = sid("alice");
    match MutationRoot::create_session_id(Some(&alice)) {
        SessionStep::Existing(u) => {
            assert_eq!(u.user_id, "alice");
            assert!(u.token.is_none());
        }
        SessionStep::Issue(_) => panic!("a new id for an existing session"),
    }
}

#[test]
fn new_session_gets_random_alphanumeric_id() {
    match MutationRoot::create_session_id(None) {
        SessionStep::Issue(id) => {
            assert_eq!(id.len(), SESSION_ID_LEN);
            assert_eq!(SESSION_ID_LEN, 24);
            assert!(id.chars().all(|c| c.is_ascii_alphanumeric()));
        }
        SessionStep::Existing(_) => panic!("no session was given"),
    }
    let a = random_user_id(40);
    let b = random_user_id(40);
    assert_eq!(a.len(), 40);
    assert!(a.chars().all(|c| c.is_ascii_alphanumeric()));
    assert_ne!(a, b);
    assert_eq!(random_user_id(0), "");
}

#[test]
fn issued_session_carries_token_and_cookie() {
    let (session, cookie) = MutationRoot::issued_session("u1".to_string(), "t.k.n".to_string());
    assert_eq!(session.user_id, "u1");
    assert_eq!(session.token.as_deref(), Some("t.k.n"));
    assert_eq!(cookie, "signaling-session-id=t.k.n; Max-Age=172800000; SameSite=Lax; HttpOnly");
}

#[test]
fn user_id_is_the_samples_read_as_characters() {
    assert_eq!(user_id_from_samples(&vec![b'a', b'Z', b'7']), "aZ7");
    assert_eq!(user_id_from_samples(&Vec::new()), "");
}
