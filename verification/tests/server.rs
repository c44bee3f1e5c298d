use slychat::chatroom::{ChatRoomError, SimpleChatRoom};
use slychat::server::{Server, ServerError, DEFAULT_CAPACITY};

fn server() -> Server<SimpleChatRoom> {
    Server::build()
}

#[test]
fn register_user_is_exclusive_per_name() {
    let mut s = server();
    assert!(s.register_user(&"alice".to_string(), vec![1]).is_ok());
    assert_eq!(
        s.register_user(&"alice".to_string(), vec![2]),
        Err(ServerError::DuplicateUser)
    );
    assert_eq!(
        s.register_user(&"alice".to_string(), vec![1]),
        Err(ServerError::DuplicateUser)
    );
}

#[test]
fn registered_user_sits_in_the_waiting_room() {
    let mut s = server();
    s.register_user(&"alice".to_string(), vec![1]).unwrap();
    let room = s.get_active_room(&"alice".to_string()).unwrap();
    assert_eq!(room.0, "waiting");
}

#[test]
fn unknown_user_has_no_active_room() {
    let s = server();
    assert_eq!(
        s.get_active_room(&"ghost".to_string()),
        Err(ServerError::NotAssigned)
    );
}

#[test]
fn unregister_frees_the_slot_immediately() {
    let mut s = server();
    s.register_user(&"alice".to_string(), vec![1]).unwrap();
    s.unregister_user(&"alice".to_string());
    assert!(s.register_user(&"alice".to_string(), vec![2]).is_ok());
}

#[test]
fn unregister_is_idempotent() {
    let mut s = server();
    s.register_user(&"alice".to_string(), vec![1]).unwrap();
    s.unregister_user(&"alice".to_string());
    s.unregister_user(&"alice".to_string());
    s.unregister_user(&"ghost".to_string());
    assert!(s.register_user(&"alice".to_string(), vec![2]).is_ok());
}

#[test]
fn waiting_room_capacity_bounds_registrations() {
    let mut s = server();
    for i in 0..DEFAULT_CAPACITY {
        assert!(s.register_user(&format!("user{}", i), vec![]).is_ok());
    }
    assert_eq!(
        s.register_user(&"straggler".to_string(), vec![]),
        Err(ServerError::ChatRoomError(ChatRoomError::Full))
    );
}

#[test]
fn roomkeys_for_lists_every_member_including_caller() {
    let mut s = server();
    s.register_user(&"alice".to_string(), vec![1]).unwrap();
    s.register_user(&"bob".to_string(), vec![2]).unwrap();
    let keys = s.roomkeys_for(&"alice".to_string()).unwrap();
    let names: Vec<String> = keys.iter().map(|k| k.user.clone()).collect();
    assert_eq!(names, vec!["alice", "bob"]);
    assert_eq!(keys[0].public, vec![1]);
    assert_eq!(keys[1].public, vec![2]);
    assert_eq!(
        s.roomkeys_for(&"ghost".to_string()),
        Err(ServerError::NotAssigned)
    );
}

#[test]
fn route_delivers_between_co_members() {
    let mut s = server();
    s.register_user(&"alice".to_string(), vec![1]).unwrap();
    s.register_user(&"bob".to_string(), vec![2]).unwrap();
    s.route(&"alice".to_string(), &"bob".to_string(), vec![42, 43]).unwrap();
    let m = s.next_message(&"bob".to_string()).unwrap();
    assert_eq!(m.recipient, "bob");
    assert_eq!(m.ciphertext, vec![42, 43]);
    assert_eq!(s.next_message(&"bob".to_string()), None);
    assert_eq!(s.next_message(&"alice".to_string()), None);
}

#[test]
fn route_refuses_unregistered_parties() {
    let mut s = server();
    s.register_user(&"alice".to_string(), vec![1]).unwrap();
    assert_eq!(
        s.route(&"ghost".to_string(), &"alice".to_string(), vec![1]),
        Err(ServerError::NotAssigned)
    );
    assert_eq!(
        s.route(&"alice".to_string(), &"ghost".to_string(), vec![1]),
        Err(ServerError::NotCoMember)
    );
}

#[test]
fn create_chatroom_refuses_duplicates() {
    let mut s = server();
    assert!(s.create_chatroom("general".to_string(), 16).is_ok());
    assert_eq!(
        s.create_chatroom("general".to_string(), 16),
        Err("Chatroom could not be created.")
    );
    assert_eq!(
        s.create_chatroom("waiting".to_string(), 16),
        Err("Chatroom could not be created.")
    );
}

#[test]
fn delete_chatroom_guards_the_registry() {
    let mut s = server();
    s.create_chatroom("general".to_string(), 16).unwrap();
    assert!(s.delete_chatroom("general".to_string()).is_ok());
    assert_eq!(
        s.delete_chatroom("general".to_string()),
        Err("Chatroom not found.")
    );
    assert_eq!(
        s.delete_chatroom("waiting".to_string()),
        Err("The waiting room cannot be deleted.")
    );
}

#[test]
fn messages_from_one_sender_arrive_in_send_order() {
    let mut s = server();
    s.register_user(&"alice".to_string(), vec![1]).unwrap();
    s.register_user(&"bob".to_string(), vec![2]).unwrap();
    for i in 0..4u8 {
        s.route(&"alice".to_string(), &"bob".to_string(), vec![i]).unwrap();
    }
    for i in 0..4u8 {
        assert_eq!(s.next_message(&"bob".to_string()).unwrap().ciphertext, vec![i]);
    }
}
