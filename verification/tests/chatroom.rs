use slychat::chatroom::{ChatRoom, ChatRoomError, SimpleChatRoom, ROOM_OUTBOX_CAPACITY};
use slychat::types::OutboundMessage;

fn room_with(users: &[&str]) -> SimpleChatRoom {
    let mut room = SimpleChatRoom::build("general".to_string(), 8);
    for u in users {
        room.register_user(&u.to_string(), vec![1, 2, 3]).unwrap();
    }
    room
}

#[test]
fn join_then_roomkeys_lists_the_pair_once() {
    let mut room = SimpleChatRoom::build("general".to_string(), 8);
    room.register_user(&"alice".to_string(), vec![10, 11]).unwrap();
    let keys = room.get_roomkeys();
    let hits: Vec<_> = keys
        .iter()
        .filter(|k| k.user == "alice" && k.public == vec![10, 11])
        .collect();
    assert_eq!(hits.len(), 1);
}

#[test]
fn leave_then_roomkeys_never_lists_the_pair() {
    let mut room = room_with(&["alice", "bob"]);
    room.unregister_user(&"alice".to_string()).unwrap();
    let keys = room.get_roomkeys();
    assert!(keys.iter().all(|k| k.user != "alice"));
    assert_eq!(keys.len(), 1);
}

#[test]
fn roomkeys_keeps_registration_order() {
    let room = room_with(&["carol", "alice", "bob"]);
    let names: Vec<String> = room.get_roomkeys().into_iter().map(|k| k.user).collect();
    assert_eq!(names, vec!["carol", "alice", "bob"]);
}

#[test]
fn duplicate_join_is_refused() {
    let mut room = room_with(&["alice"]);
    assert_eq!(
        room.register_user(&"alice".to_string(), vec![9]),
        Err(ChatRoomError::AlreadyMember)
    );
    assert_eq!(room.member_count(), 1);
}

#[test]
fn full_room_refuses_joins() {
    let mut room = SimpleChatRoom::build("tiny".to_string(), 1);
    room.register_user(&"alice".to_string(), vec![]).unwrap();
    assert_eq!(
        room.register_user(&"bob".to_string(), vec![]),
        Err(ChatRoomError::Full)
    );
}

#[test]
fn leaving_twice_is_an_error() {
    let mut room = room_with(&["alice"]);
    room.unregister_user(&"alice".to_string()).unwrap();
    assert_eq!(
        room.unregister_user(&"alice".to_string()),
        Err(ChatRoomError::NotMember)
    );
}

#[test]
fn publish_to_unknown_recipient_is_refused() {
    let mut room = room_with(&["alice"]);
    let msg = OutboundMessage { recipient: "ghost".to_string(), ciphertext: vec![1] };
    assert_eq!(room.publish_message(msg), Err(ChatRoomError::UnknownRecipient));
}

#[test]
fn outbox_is_fifo_per_recipient() {
    let mut room = room_with(&["alice"]);
    for i in 0..5u8 {
        let msg = OutboundMessage { recipient: "alice".to_string(), ciphertext: vec![i] };
        room.publish_message(msg).unwrap();
    }
    for i in 0..5u8 {
        let m = room.next_message(&"alice".to_string()).unwrap();
        assert_eq!(m.ciphertext, vec![i]);
    }
    assert_eq!(room.next_message(&"alice".to_string()), None);
}

#[test]
fn full_outbox_refuses_without_losing_anything() {
    let mut room = room_with(&["alice"]);
    let alice = "alice".to_string();
    for i in 0..ROOM_OUTBOX_CAPACITY {
        let msg = OutboundMessage {
            recipient: alice.clone(),
            ciphertext: vec![(i % 256) as u8],
        };
        room.publish_message(msg).unwrap();
    }
    let overflow = OutboundMessage { recipient: alice.clone(), ciphertext: vec![99] };
    assert_eq!(room.publish_message(overflow), Err(ChatRoomError::OutboxFull));
    // The outbox is unchanged: same size, oldest message still first, no
    // overwrite at the back.
    let mut drained = 0;
    let mut last = Vec::new();
    while let Some(m) = room.next_message(&alice) {
        if drained == 0 {
            assert_eq!(m.ciphertext, vec![0]);
        }
        last = m.ciphertext;
        drained += 1;
    }
    assert_eq!(drained, ROOM_OUTBOX_CAPACITY);
    assert_eq!(last, vec![((ROOM_OUTBOX_CAPACITY - 1) % 256) as u8]);
}

#[test]
fn next_message_for_non_member_is_none() {
    let mut room = room_with(&["alice"]);
    assert_eq!(room.next_message(&"ghost".to_string()), None);
}
