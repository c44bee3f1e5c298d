//! The room registry: a bounded-capacity set of members, each with a public
//! key and a bounded outbox of messages awaiting delivery.
//!
//! A room is a passive data structure: it has no concurrency control of its
//! own and is only mutated from within the server's critical sections.

use vstd::prelude::*;

use crate::types::{MsgV, OutboundMessage, UserKey, UserKeyV};

verus! {

/// Upper bound on the number of messages a single member's outbox may hold.
/// A full outbox is a backpressure signal: enqueueing into it fails fast
/// rather than blocking or silently dropping.
pub const ROOM_OUTBOX_CAPACITY: usize = 1024;

/// The ways a room operation can be refused. All of these are recoverable:
/// they are surfaced as error responses and the connection stays open.
#[derive(Debug, Clone, Copy, PartialEq, Eq, Structural)]
pub enum ChatRoomError {
    /// The room already holds as many members as its capacity allows.
    Full,
    /// The username is already a member of the room.
    AlreadyMember,
    /// The username is not a member of the room.
    NotMember,
    /// The message's recipient is not a member of the room.
    UnknownRecipient,
    /// The recipient's outbox is at capacity.
    OutboxFull,
}

impl ChatRoomError {
    /// The error message reported to clients for this error.
    pub open spec fn spec_message(&self) -> Seq<char> {
        match self {
            ChatRoomError::Full => "Chatroom is full."@,
            ChatRoomError::AlreadyMember => "User already exists in chatroom."@,
            ChatRoomError::NotMember => "User does not exist in chatroom."@,
            ChatRoomError::UnknownRecipient => "Recipient is not in the chatroom."@,
            ChatRoomError::OutboxFull => "Recipient's outbox is full."@,
        }
    }

    /// Renders the error as the message sent back to the client.
    pub fn message(&self) -> (r: String)
        ensures
            r@ == self.spec_message(),
    {
        match self {
            ChatRoomError::Full => "Chatroom is full.".to_owned(),
            ChatRoomError::AlreadyMember => "User already exists in chatroom.".to_owned(),
            ChatRoomError::NotMember => "User does not exist in chatroom.".to_owned(),
            ChatRoomError::UnknownRecipient => "Recipient is not in the chatroom.".to_owned(),
            ChatRoomError::OutboxFull => "Recipient's outbox is full.".to_owned(),
        }
    }
}

/// Mathematical view of one room member: username, public key, and the
/// queue of messages awaiting delivery to that user, oldest first.
#[verifier::ext_equal]
pub struct MemberV {
    pub user: Seq<char>,
    pub public: Seq<u8>,
    pub outbox: Seq<MsgV>,
}

/// Mathematical view of a room. `members` is ordered by registration.
#[verifier::ext_equal]
pub struct RoomV {
    pub id: Seq<char>,
    pub capacity: nat,
    pub members: Seq<MemberV>,
}

/// Well-formedness of a room: usernames are distinct, the member count
/// respects the room capacity, and every outbox respects the outbox bound.
pub open spec fn room_wf(r: RoomV) -> bool {
    &&& forall|i: int, j: int|
        0 <= i < r.members.len() && 0 <= j < r.members.len() && i != j
            ==> r.members[i].user != r.members[j].user
    &&& r.members.len() <= r.capacity
    &&& forall|i: int|
        0 <= i < r.members.len() ==> (#[trigger] r.members[i]).outbox.len()
            <= ROOM_OUTBOX_CAPACITY
}

/// Whether `user` is a member of the room.
pub open spec fn room_has_user(r: RoomV, user: Seq<char>) -> bool {
    exists|i: int| 0 <= i < r.members.len() && (#[trigger] r.members[i]).user == user
}

/// The position of `user` in the member list. Meaningful only when
/// `room_has_user` holds; unique when the room is well formed.
pub open spec fn room_user_index(r: RoomV, user: Seq<char>) -> int {
    choose|i: int| 0 <= i < r.members.len() && (#[trigger] r.members[i]).user == user
}

/// The room after `user` joins with key `key`: appended to the member list
/// with an empty outbox.
pub open spec fn room_join(r: RoomV, user: Seq<char>, key: Seq<u8>) -> RoomV {
    RoomV {
        id: r.id,
        capacity: r.capacity,
        members: r.members.push(MemberV { user, public: key, outbox: Seq::empty() }),
    }
}

/// The room after `user` leaves: that member's entry is removed, the order
/// of the others kept.
pub open spec fn room_leave(r: RoomV, user: Seq<char>) -> RoomV {
    RoomV {
        id: r.id,
        capacity: r.capacity,
        members: r.members.remove(room_user_index(r, user)),
    }
}

/// The room after `m` is queued at the back of its recipient's outbox.
pub open spec fn room_enqueue(r: RoomV, m: MsgV) -> RoomV {
    let i = room_user_index(r, m.recipient);
    RoomV {
        id: r.id,
        capacity: r.capacity,
        members: r.members.update(
            i,
            MemberV {
                user: r.members[i].user,
                public: r.members[i].public,
                outbox: r.members[i].outbox.push(m),
            },
        ),
    }
}

/// The room after the oldest message of `user`'s outbox is taken out.
pub open spec fn room_dequeue(r: RoomV, user: Seq<char>) -> RoomV {
    let i = room_user_index(r, user);
    RoomV {
        id: r.id,
        capacity: r.capacity,
        members: r.members.update(
            i,
            MemberV {
                user: r.members[i].user,
                public: r.members[i].public,
                outbox: r.members[i].outbox.drop_first(),
            },
        ),
    }
}

/// The `(username, publicKey)` pairs of the room, in registration order.
pub open spec fn room_keys(r: RoomV) -> Seq<UserKeyV> {
    Seq::new(r.members.len(), |i: int| UserKeyV { user: r.members[i].user, public: r.members[i].public })
}

/// A room of the relay. Joining, leaving, key listing and per-member message
/// queues, all specified against the [`RoomV`] view.
pub trait ChatRoom: Sized + View<V = RoomV> {
    /// The room's identifier.
    fn room_id(&self) -> (r: &String)
        ensures
            r@ == self@.id,
    ;

    /// The number of members currently in the room.
    fn member_count(&self) -> (r: usize)
        ensures
            r == self@.members.len(),
    ;

    /// Creates an empty room with the given identifier and capacity.
    fn build(id: String, capacity: usize) -> (r: Self)
        ensures
            r@ == (RoomV { id: id@, capacity: capacity as nat, members: Seq::<MemberV>::empty() }),
            room_wf(r@),
    ;

    /// Adds `username` with public key `key`, refusing a duplicate name or a
    /// full room.
    fn register_user(&mut self, username: &String, key: Vec<u8>) -> (r: Result<(), ChatRoomError>)
        requires
            room_wf(old(self)@),
        ensures
            room_wf(final(self)@),
            r is Ok <==> !room_has_user(old(self)@, username@) && old(self)@.members.len() < old(
                self,
            )@.capacity,
            r is Ok ==> final(self)@ == room_join(old(self)@, username@, key@),
            r is Err ==> final(self)@ == old(self)@,
            r matches Err(ChatRoomError::AlreadyMember) <==> room_has_user(old(self)@, username@),
            r matches Err(ChatRoomError::Full) <==> !room_has_user(old(self)@, username@) && old(
                self,
            )@.members.len() >= old(self)@.capacity,
    ;

    /// Removes `username` and that member's outbox; an absent name is an
    /// error, not a no-op.
    fn unregister_user(&mut self, username: &String) -> (r: Result<(), ChatRoomError>)
        requires
            room_wf(old(self)@),
        ensures
            room_wf(final(self)@),
            r is Ok <==> room_has_user(old(self)@, username@),
            r is Ok ==> final(self)@ == room_leave(old(self)@, username@),
            r is Err ==> final(self)@ == old(self)@ && r matches Err(ChatRoomError::NotMember),
    ;

    /// Snapshot of who can be addressed in this room: every member's
    /// `(username, publicKey)` pair, in registration order.
    fn get_roomkeys(&self) -> (r: Vec<UserKey>)
        ensures
            r.deep_view() == room_keys(self@),
    ;

    /// Queues `message` at the back of its recipient's outbox, failing fast
    /// (never blocking, never dropping) on an unknown recipient or a full
    /// outbox. On failure the room — in particular the outbox — is unchanged.
    fn publish_message(&mut self, message: OutboundMessage) -> (r: Result<(), ChatRoomError>)
        requires
            room_wf(old(self)@),
        ensures
            room_wf(final(self)@),
            r is Ok <==> room_has_user(old(self)@, message.recipient@) && room_user_outbox(
                old(self)@,
                message.recipient@,
            ).len() < ROOM_OUTBOX_CAPACITY,
            r is Ok ==> final(self)@ == room_enqueue(old(self)@, message@),
            r is Err ==> final(self)@ == old(self)@,
            r matches Err(ChatRoomError::UnknownRecipient) <==> !room_has_user(
                old(self)@,
                message.recipient@,
            ),
            r matches Err(ChatRoomError::OutboxFull) <==> room_has_user(
                old(self)@,
                message.recipient@,
            ) && room_user_outbox(old(self)@, message.recipient@).len() >= ROOM_OUTBOX_CAPACITY,
    ;

    /// Takes the oldest queued message for `username` out of that member's
    /// outbox, if any.
    fn next_message(&mut self, username: &String) -> (r: Option<OutboundMessage>)
        requires
            room_wf(old(self)@),
        ensures
            room_wf(final(self)@),
            r is Some <==> room_has_user(old(self)@, username@) && room_user_outbox(
                old(self)@,
                username@,
            ).len() > 0,
            r matches Some(m) ==> m@ == room_user_outbox(old(self)@, username@).first()
                && final(self)@ == room_dequeue(old(self)@, username@),
            r is None ==> final(self)@ == old(self)@,
    ;
}

/// The outbox of `user` in the room; empty if `user` is not a member.
pub open spec fn room_user_outbox(r: RoomV, user: Seq<char>) -> Seq<MsgV> {
    if room_has_user(r, user) {
        r.members[room_user_index(r, user)].outbox
    } else {
        Seq::empty()
    }
}

/// One member as stored: the username, its public key, and the queued
/// messages awaiting that user, oldest first.
pub struct RoomMember {
    pub user: String,
    pub public: Vec<u8>,
    pub outbox: Vec<OutboundMessage>,
}

impl View for RoomMember {
    type V = MemberV;

    open spec fn view(&self) -> MemberV {
        MemberV {
            user: self.user@,
            public: self.public@,
            outbox: Seq::new(self.outbox@.len(), |i: int| self.outbox@[i]@),
        }
    }
}

/// The one room implementation of the relay: members kept in registration
/// order in a vector.
pub struct SimpleChatRoom {
    pub id: String,
    pub capacity: usize,
    pub members: Vec<RoomMember>,
}

impl View for SimpleChatRoom {
    type V = RoomV;

    open spec fn view(&self) -> RoomV {
        RoomV {
            id: self.id@,
            capacity: self.capacity as nat,
            members: Seq::new(self.members@.len(), |i: int| self.members@[i]@),
        }
    }
}

impl SimpleChatRoom {
    /// Looks up the position of `username` in the member list.
    fn find_member(&self, username: &String) -> (r: Option<usize>)
        ensures
            r is Some <==> room_has_user(self@, username@),
            r matches Some(i) ==> i < self@.members.len() && self@.members[i as int].user
                == username@,
    {
        let n = self.members.len();
        for i in 0..n
            invariant
                n == self@.members.len(),
                forall|j: int| 0 <= j < i ==> (#[trigger] self@.members[j]).user != username@,
        {
            if self.members[i].user == *username {
                proof {
                    assert(self@.members[i as int].user == username@);
                }
                return Some(i);
            }
        }
        None
    }
}

impl ChatRoom for SimpleChatRoom {
    fn room_id(&self) -> (r: &String) {
        &self.id
    }

    fn member_count(&self) -> (r: usize) {
        self.members.len()
    }

    fn build(id: String, capacity: usize) -> (r: Self) {
        let r = SimpleChatRoom { id, capacity, members: Vec::new() };
        proof {
            assert(r@.members =~= Seq::<MemberV>::empty());
        }
        r
    }

    fn register_user(&mut self, username: &String, key: Vec<u8>) -> (r: Result<(), ChatRoomError>) {
        match self.find_member(username) {
            Some(_) => Err(ChatRoomError::AlreadyMember),
            None => {
                if self.members.len() >= self.capacity {
                    Err(ChatRoomError::Full)
                } else {
                    let member = RoomMember {
                        user: username.clone(),
                        public: key,
                        outbox: Vec::new(),
                    };
                    self.members.push(member);
                    proof {
                        assert(self@.members =~~= room_join(old(self)@, username@, key@).members);
                    }
                    Ok(())
                }
            },
        }
    }

    fn unregister_user(&mut self, username: &String) -> (r: Result<(), ChatRoomError>) {
        match self.find_member(username) {
            None => Err(ChatRoomError::NotMember),
            Some(i) => {
                self.members.remove(i);
                proof {
                    lemma_room_user_index(old(self)@, username@, i as int);
                    assert(self@.members =~= room_leave(old(self)@, username@).members);
                }
                Ok(())
            },
        }
    }

    fn get_roomkeys(&self) -> (r: Vec<UserKey>) {
        let n = self.members.len();
        let mut keys: Vec<UserKey> = Vec::new();
        for i in 0..n
            invariant
                n == self@.members.len(),
                keys@.len() == i,
                forall|j: int|
                    0 <= j < i ==> (#[trigger] keys@[j])@.user == self@.members[j].user
                        && keys@[j]@.public == self@.members[j].public,
        {
            let member = &self.members[i];
            let public = member.public.clone();
            proof {
                assert(public@ =~= member.public@);
            }
            keys.push(UserKey { user: member.user.clone(), public });
        }
        proof {
            assert forall|j: int| 0 <= j < n implies keys.deep_view()[j] == room_keys(self@)[j] by {
                assert(keys.deep_view()[j] == keys@[j]@);
            }
            assert(keys.deep_view() =~= room_keys(self@));
        }
        keys
    }

    fn publish_message(&mut self, message: OutboundMessage) -> (r: Result<(), ChatRoomError>) {
        match self.find_member(&message.recipient) {
            None => Err(ChatRoomError::UnknownRecipient),
            Some(i) => {
                proof {
                    lemma_room_user_index(old(self)@, message.recipient@, i as int);
                }
                if self.members[i].outbox.len() >= ROOM_OUTBOX_CAPACITY {
                    Err(ChatRoomError::OutboxFull)
                } else {
                    let ghost pre = self@;
                    let member = &mut self.members[i];
                    member.outbox.push(message);
                    proof {
                        assert(self@.members =~~= room_enqueue(pre, message@).members);
                    }
                    Ok(())
                }
            },
        }
    }

    fn next_message(&mut self, username: &String) -> (r: Option<OutboundMessage>) {
        match self.find_member(username) {
            None => None,
            Some(i) => {
                proof {
                    lemma_room_user_index(old(self)@, username@, i as int);
                }
                if self.members[i].outbox.len() == 0 {
                    None
                } else {
                    let ghost pre = self@;
                    let member = &mut self.members[i];
                    let m = member.outbox.remove(0);
                    proof {
                        assert(self@.members[i as int].outbox =~= pre.members[
                            i as int
                        ].outbox.drop_first());
                        assert(self@.members =~~= room_dequeue(pre, username@).members);
                    }
                    Some(m)
                }
            },
        }
    }
}

/// In a well-formed room the member index of a user is the only index
/// holding that username.
pub proof fn lemma_room_user_index(r: RoomV, user: Seq<char>, i: int)
    requires
        room_wf(r),
        0 <= i < r.members.len(),
        r.members[i].user == user,
    ensures
        room_has_user(r, user),
        room_user_index(r, user) == i,
{
    assert(room_has_user(r, user));
    let j = room_user_index(r, user);
    assert(0 <= j < r.members.len() && r.members[j].user == user);
}

/// Law: joining a room and then listing its keys shows the joined
/// `(username, publicKey)` pair at exactly one position.
pub proof fn lemma_join_then_roomkeys(r: RoomV, user: Seq<char>, key: Seq<u8>)
    requires
        room_wf(r),
        !room_has_user(r, user),
        r.members.len() < r.capacity,
    ensures
        ({
            let keys = room_keys(room_join(r, user, key));
            exists|i: int|
                {
                    &&& 0 <= i < keys.len()
                    &&& keys[i] == (UserKeyV { user, public: key })
                    &&& forall|j: int|
                        0 <= j < keys.len() && (#[trigger] keys[j]).user == user ==> j == i
                }
        }),
{
    let joined = room_join(r, user, key);
    let keys = room_keys(joined);
    let n = r.members.len() as int;
    assert(keys[n] == (UserKeyV { user, public: key }));
    assert(forall|j: int| 0 <= j < keys.len() && (#[trigger] keys[j]).user == user ==> j == n)
        by {
        assert forall|j: int|
            0 <= j < keys.len() && (#[trigger] keys[j]).user == user implies j == n by {
            if j < n {
                assert(r.members[j].user == user);
                assert(room_has_user(r, user));
            }
        }
    }
    assert(0 <= n < keys.len() && keys[n] == (UserKeyV { user, public: key }) && forall|j: int|
        0 <= j < keys.len() && (#[trigger] keys[j]).user == user ==> j == n);
}

/// Law: leaving a room and then listing its keys never shows the departed
/// username.
pub proof fn lemma_leave_then_roomkeys(r: RoomV, user: Seq<char>)
    requires
        room_wf(r),
        room_has_user(r, user),
    ensures
        ({
            let keys = room_keys(room_leave(r, user));
            forall|i: int| 0 <= i < keys.len() ==> (#[trigger] keys[i]).user != user
        }),
{
    let i = room_user_index(r, user);
    assert(0 <= i < r.members.len() && r.members[i].user == user);
    let left = room_leave(r, user);
    assert forall|j: int| 0 <= j < left.members.len() implies (#[trigger] left.members[j]).user
        != user by {
        if j < i {
            assert(left.members[j] == r.members[j]);
        } else {
            assert(left.members[j] == r.members[j + 1]);
        }
    }
}

} // verus!
