use slychat::chatroom::SimpleChatRoom;
use slychat::server::Server;
use slychat::session::{session_step, SessionEvent, SessionState};
use slychat::types::{APIRequest, APIResponse, Response, UserKey};

fn server() -> Server<SimpleChatRoom> {
    Server::build()
}

fn login(server: &mut Server<SimpleChatRoom>, name: &str, key: Vec<u8>) -> SessionState {
    let (state, resp) = session_step(
        server,
        SessionState::AwaitingLogin,
        SessionEvent::Inbound(APIRequest::LoginRequest(UserKey {
            user: name.to_string(),
            public: key,
        })),
    );
    assert_eq!(resp, Some(APIResponse::LoginResponse(Response::Success(()))));
    assert_eq!(state, SessionState::Active(name.to_string()));
    state
}

#[test]
fn message_reaches_recipient_unmodified() {
    let mut s = server();
    let alice = login(&mut s, "alice", vec![1]);
    let bob = login(&mut s, "bob", vec![2]);
    let ct = vec![0xde, 0xad, 0xbe, 0xef];

    let (alice, resp) = session_step(
        &mut s,
        alice,
        SessionEvent::Inbound(APIRequest::SendMessageRequest("bob".to_string(), ct.clone())),
    );
    assert_eq!(resp, Some(APIResponse::SendMessageResponse(Response::Success(()))));
    assert_eq!(alice, SessionState::Active("alice".to_string()));

    let delivery = s.next_message(&"bob".to_string()).expect("bob has a message queued");
    let (bob, push) = session_step(&mut s, bob, SessionEvent::Delivery(delivery));
    assert_eq!(push, Some(APIResponse::PublishMessage(ct)));
    assert_eq!(bob, SessionState::Active("bob".to_string()));
}

#[test]
fn duplicate_login_closes_the_new_session_only() {
    let mut s = server();
    let alice = login(&mut s, "alice", vec![1]);

    let (state, resp) = session_step(
        &mut s,
        SessionState::AwaitingLogin,
        SessionEvent::Inbound(APIRequest::LoginRequest(UserKey {
            user: "alice".to_string(),
            public: vec![9],
        })),
    );
    assert_eq!(state, SessionState::Closed);
    assert_eq!(
        resp,
        Some(APIResponse::LoginResponse(Response::Error(
            "User already registered.".to_string()
        )))
    );

    // The original session is unaffected: alice is still registered with
    // her original key.
    let (alice, resp) = session_step(
        &mut s,
        alice,
        SessionEvent::Inbound(APIRequest::RefreshRoomKeysRequest),
    );
    assert_eq!(alice, SessionState::Active("alice".to_string()));
    assert_eq!(
        resp,
        Some(APIResponse::RefreshRoomKeysResponse(Response::Success(vec![UserKey {
            user: "alice".to_string(),
            public: vec![1],
        }])))
    );
}

#[test]
fn refresh_lists_every_member_including_self() {
    let mut s = server();
    let alice = login(&mut s, "alice", vec![1]);
    login(&mut s, "bob", vec![2]);

    let (_, resp) = session_step(
        &mut s,
        alice,
        SessionEvent::Inbound(APIRequest::RefreshRoomKeysRequest),
    );
    match resp {
        Some(APIResponse::RefreshRoomKeysResponse(Response::Success(keys))) => {
            let names: Vec<String> = keys.iter().map(|k| k.user.clone()).collect();
            assert_eq!(names, vec!["alice", "bob"]);
        }
        other => panic!("unexpected response: {:?}", other),
    }
}

#[test]
fn disconnect_unregisters_exactly_once_and_frees_the_name() {
    let mut s = server();
    let alice = login(&mut s, "alice", vec![1]);

    let (closed, resp) = session_step(&mut s, alice, SessionEvent::Disconnected);
    assert_eq!(closed, SessionState::Closed);
    assert_eq!(resp, None);

    // The slot is immediately available again.
    let _alice2 = login(&mut s, "alice", vec![2]);

    // The closed session is terminal: stepping it again touches nothing, in
    // particular it does not unregister the new alice.
    let (closed, resp) = session_step(&mut s, closed, SessionEvent::Disconnected);
    assert_eq!(closed, SessionState::Closed);
    assert_eq!(resp, None);
    assert!(s.roomkeys_for(&"alice".to_string()).is_ok());
}

#[test]
fn logout_closes_and_unregisters() {
    let mut s = server();
    let alice = login(&mut s, "alice", vec![1]);
    let (state, resp) = session_step(&mut s, alice, SessionEvent::Inbound(APIRequest::Logout));
    assert_eq!(state, SessionState::Closed);
    assert_eq!(resp, None);
    assert!(s.register_user(&"alice".to_string(), vec![2]).is_ok());
}

#[test]
fn login_while_active_is_refused_without_state_change() {
    let mut s = server();
    let alice = login(&mut s, "alice", vec![1]);
    let (state, resp) = session_step(
        &mut s,
        alice,
        SessionEvent::Inbound(APIRequest::LoginRequest(UserKey {
            user: "carol".to_string(),
            public: vec![3],
        })),
    );
    assert_eq!(state, SessionState::Active("alice".to_string()));
    assert_eq!(
        resp,
        Some(APIResponse::LoginResponse(Response::Error("Already logged in.".to_string())))
    );
    // carol was not registered by that request.
    assert!(s.register_user(&"carol".to_string(), vec![3]).is_ok());
}

#[test]
fn first_message_must_be_a_login() {
    let mut s = server();
    let (state, resp) = session_step(
        &mut s,
        SessionState::AwaitingLogin,
        SessionEvent::Inbound(APIRequest::RefreshRoomKeysRequest),
    );
    assert_eq!(state, SessionState::Closed);
    assert_eq!(resp, None);

    let (state, resp) = session_step(
        &mut s,
        SessionState::AwaitingLogin,
        SessionEvent::Disconnected,
    );
    assert_eq!(state, SessionState::Closed);
    assert_eq!(resp, None);
}

#[test]
fn unimplemented_room_requests_get_explicit_errors() {
    let mut s = server();
    let alice = login(&mut s, "alice", vec![1]);

    let (alice, resp) = session_step(
        &mut s,
        alice,
        SessionEvent::Inbound(APIRequest::ListRoomsRequest),
    );
    assert_eq!(
        resp,
        Some(APIResponse::ListRoomsResponse(Response::Error("Not supported.".to_string())))
    );

    let (alice, resp) = session_step(
        &mut s,
        alice,
        SessionEvent::Inbound(APIRequest::JoinRoomRequest("general".to_string())),
    );
    assert_eq!(
        resp,
        Some(APIResponse::JoinRoomResponse(Response::Error("Not supported.".to_string())))
    );

    let (alice, resp) = session_step(&mut s, alice, SessionEvent::Inbound(APIRequest::LeaveRoom));
    assert_eq!(
        resp,
        Some(APIResponse::JoinRoomResponse(Response::Error("Not supported.".to_string())))
    );
    assert_eq!(alice, SessionState::Active("alice".to_string()));
}

#[test]
fn send_to_absent_recipient_reports_the_error() {
    let mut s = server();
    let alice = login(&mut s, "alice", vec![1]);
    let (_, resp) = session_step(
        &mut s,
        alice,
        SessionEvent::Inbound(APIRequest::SendMessageRequest("ghost".to_string(), vec![1])),
    );
    assert_eq!(
        resp,
        Some(APIResponse::SendMessageResponse(Response::Error(
            "Recipient is not in your chatroom.".to_string()
        )))
    );
}
