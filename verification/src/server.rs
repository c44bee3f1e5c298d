//! The server core: single authoritative owner of all rooms and of the
//! user-to-room assignment.
//!
//! Every mutation goes through one `&mut self` operation; the embedding
//! program serializes those operations behind one exclusive lock, held for
//! the duration of a single operation and never across I/O. The atomicity of
//! the duplicate-name check in [`Server::register_user`] rests on that.

use vstd::prelude::*;

use crate::chatroom::{
    room_enqueue, room_has_user, room_join, room_keys, room_leave, room_user_outbox, room_wf,
    ChatRoom, ChatRoomError, MemberV, RoomV, ROOM_OUTBOX_CAPACITY,
};
use crate::types::{MsgV, OutboundMessage, UserKey};

verus! {

/// Capacity of the room every user is placed in at registration.
pub const DEFAULT_CAPACITY: usize = 64;

/// Identifier of the room every user is placed in at registration, created
/// when the server is built and never deleted.
pub open spec fn waiting_room_id() -> Seq<char> {
    "waiting"@
}

/// The identifier of the waiting room, as a string.
pub fn waiting_room_name() -> (r: String)
    ensures
        r@ == waiting_room_id(),
{
    "waiting".to_owned()
}

/// The ways a server operation can be refused.
#[derive(Debug, Clone, Copy, PartialEq, Eq, Structural)]
pub enum ServerError {
    /// The username is already registered, here or in any room.
    DuplicateUser,
    /// The username is not assigned to any room.
    NotAssigned,
    /// The recipient is not a member of the sender's room.
    NotCoMember,
    /// A room operation failed; the cause is carried along.
    ChatRoomError(ChatRoomError),
}

impl From<ChatRoomError> for ServerError {
    fn from(e: ChatRoomError) -> (r: Self) {
        ServerError::ChatRoomError(e)
    }
}

impl vstd::std_specs::convert::FromSpecImpl<ChatRoomError> for ServerError {
    open spec fn obeys_from_spec() -> bool {
        true
    }

    open spec fn from_spec(e: ChatRoomError) -> Self {
        ServerError::ChatRoomError(e)
    }
}

impl ServerError {
    /// The error message reported to clients for this error.
    pub open spec fn spec_message(&self) -> Seq<char> {
        match self {
            ServerError::DuplicateUser => "User already registered."@,
            ServerError::NotAssigned => "Invalid Chatroom"@,
            ServerError::NotCoMember => "Recipient is not in your chatroom."@,
            ServerError::ChatRoomError(e) => e.spec_message(),
        }
    }

    /// Renders the error as the message sent back to the client.
    pub fn message(&self) -> (r: String)
        ensures
            r@ == self.spec_message(),
    {
        match self {
            ServerError::DuplicateUser => "User already registered.".to_owned(),
            ServerError::NotAssigned => "Invalid Chatroom".to_owned(),
            ServerError::NotCoMember => "Recipient is not in your chatroom.".to_owned(),
            ServerError::ChatRoomError(e) => e.message(),
        }
    }
}

/// A username, as keyed in the server's registries.
#[derive(Debug, PartialEq, Eq, Hash, Clone)]
pub struct UserId(pub String);

impl View for UserId {
    type V = Seq<char>;

    open spec fn view(&self) -> Seq<char> {
        self.0@
    }
}

impl From<String> for UserId {
    fn from(s: String) -> (r: Self) {
        UserId(s)
    }
}

impl vstd::std_specs::convert::FromSpecImpl<String> for UserId {
    open spec fn obeys_from_spec() -> bool {
        true
    }

    open spec fn from_spec(s: String) -> Self {
        UserId(s)
    }
}

/// A room identifier, as keyed in the server's room table.
#[derive(Debug, PartialEq, Eq, Hash, Clone)]
pub struct ChatRoomId(pub String);

impl View for ChatRoomId {
    type V = Seq<char>;

    open spec fn view(&self) -> Seq<char> {
        self.0@
    }
}

impl From<String> for ChatRoomId {
    fn from(s: String) -> (r: Self) {
        ChatRoomId(s)
    }
}

impl vstd::std_specs::convert::FromSpecImpl<String> for ChatRoomId {
    open spec fn obeys_from_spec() -> bool {
        true
    }

    open spec fn from_spec(s: String) -> Self {
        ChatRoomId(s)
    }
}

/// Mathematical view of the server: the rooms, and the assignment of each
/// registered user to the one room holding that user.
#[verifier::ext_equal]
pub struct ServerV {
    pub rooms: Seq<RoomV>,
    pub assignment: Seq<(Seq<char>, Seq<char>)>,
}

/// Whether `user` is assigned to some room.
pub open spec fn assigned(s: ServerV, user: Seq<char>) -> bool {
    exists|i: int| 0 <= i < s.assignment.len() && (#[trigger] s.assignment[i]).0 == user
}

/// The position of `user`'s assignment pair. Unique when the server is well
/// formed.
pub open spec fn assignment_index(s: ServerV, user: Seq<char>) -> int {
    choose|i: int| 0 <= i < s.assignment.len() && (#[trigger] s.assignment[i]).0 == user
}

/// The identifier of the room `user` is assigned to.
pub open spec fn assigned_room(s: ServerV, user: Seq<char>) -> Seq<char> {
    s.assignment[assignment_index(s, user)].1
}

/// Whether a room with identifier `id` exists.
pub open spec fn has_room(s: ServerV, id: Seq<char>) -> bool {
    exists|i: int| 0 <= i < s.rooms.len() && (#[trigger] s.rooms[i]).id == id
}

/// The position of the room with identifier `id`. Unique when the server is
/// well formed.
pub open spec fn room_index(s: ServerV, id: Seq<char>) -> int {
    choose|i: int| 0 <= i < s.rooms.len() && (#[trigger] s.rooms[i]).id == id
}

/// The room with identifier `id`.
pub open spec fn server_room(s: ServerV, id: Seq<char>) -> RoomV {
    s.rooms[room_index(s, id)]
}

/// Whether the assignment holds exactly the pair `(user, room)`.
pub open spec fn is_assigned_to(s: ServerV, user: Seq<char>, room: Seq<char>) -> bool {
    exists|i: int|
        0 <= i < s.assignment.len() && (#[trigger] s.assignment[i]).0 == user && s.assignment[
            i
        ].1 == room
}

/// Well-formedness of the server state:
/// - every room is well formed and room identifiers are distinct;
/// - the waiting room exists;
/// - no user has two assignments;
/// - every assignment points at an existing room of which the user is a
///   member;
/// - every member of every room is assigned to exactly that room (room
///   membership is exclusive).
pub open spec fn server_wf(s: ServerV) -> bool {
    &&& forall|i: int| 0 <= i < s.rooms.len() ==> room_wf(#[trigger] s.rooms[i])
    &&& forall|i: int, j: int|
        0 <= i < s.rooms.len() && 0 <= j < s.rooms.len() && i != j ==> (
        #[trigger] s.rooms[i]).id != (#[trigger] s.rooms[j]).id
    &&& has_room(s, waiting_room_id())
    &&& forall|i: int, j: int|
        0 <= i < s.assignment.len() && 0 <= j < s.assignment.len() && i != j ==> (
        #[trigger] s.assignment[i]).0 != (#[trigger] s.assignment[j]).0
    &&& forall|i: int|
        0 <= i < s.assignment.len() ==> has_room(s, (#[trigger] s.assignment[i]).1)
            && room_has_user(server_room(s, s.assignment[i].1), s.assignment[i].0)
    &&& forall|ri: int, mi: int|
        0 <= ri < s.rooms.len() && 0 <= mi < s.rooms[ri].members.len() ==> is_assigned_to(
            s,
            (#[trigger] s.rooms[ri].members[mi]).user,
            s.rooms[ri].id,
        )
}

/// Whether a registration of `user` succeeds from state `s`: the name is
/// free everywhere and the waiting room has space.
pub open spec fn register_ok(s: ServerV, user: Seq<char>) -> bool {
    &&& !assigned(s, user)
    &&& server_room(s, waiting_room_id()).members.len() < server_room(
        s,
        waiting_room_id(),
    ).capacity
}

/// The server after a successful registration of `user` with key `key`:
/// joined to the waiting room and recorded in the assignment.
pub open spec fn spec_register(s: ServerV, user: Seq<char>, key: Seq<u8>) -> ServerV {
    let w = room_index(s, waiting_room_id());
    ServerV {
        rooms: s.rooms.update(w, room_join(s.rooms[w], user, key)),
        assignment: s.assignment.push((user, waiting_room_id())),
    }
}

/// The server after `user` is unregistered: removed from its room and from
/// the assignment; unchanged if `user` was not assigned.
pub open spec fn spec_unregister(s: ServerV, user: Seq<char>) -> ServerV {
    if !assigned(s, user) {
        s
    } else {
        let rid = assigned_room(s, user);
        let ri = room_index(s, rid);
        ServerV {
            rooms: s.rooms.update(ri, room_leave(s.rooms[ri], user)),
            assignment: s.assignment.remove(assignment_index(s, user)),
        }
    }
}

/// The server after message `m` is queued into its recipient's outbox, in
/// the recipient's assigned room.
pub open spec fn spec_route(s: ServerV, m: MsgV) -> ServerV {
    let ri = room_index(s, assigned_room(s, m.recipient));
    ServerV {
        rooms: s.rooms.update(ri, room_enqueue(s.rooms[ri], m)),
        assignment: s.assignment,
    }
}

/// The outbox of `user` in its assigned room; empty when `user` is not
/// assigned.
pub open spec fn server_outbox(s: ServerV, user: Seq<char>) -> Seq<MsgV> {
    if assigned(s, user) {
        room_user_outbox(server_room(s, assigned_room(s, user)), user)
    } else {
        Seq::empty()
    }
}

/// The server after the oldest queued message of `user` is taken out.
pub open spec fn spec_dequeue(s: ServerV, user: Seq<char>) -> ServerV {
    let ri = room_index(s, assigned_room(s, user));
    ServerV {
        rooms: s.rooms.update(ri, crate::chatroom::room_dequeue(s.rooms[ri], user)),
        assignment: s.assignment,
    }
}

/// In a well-formed server the assignment position of a user is the only
/// one holding that username.
pub proof fn lemma_assignment_index(s: ServerV, user: Seq<char>, i: int)
    requires
        server_wf(s),
        0 <= i < s.assignment.len(),
        s.assignment[i].0 == user,
    ensures
        assigned(s, user),
        assignment_index(s, user) == i,
{
    assert(assigned(s, user));
    let j = assignment_index(s, user);
    assert(0 <= j < s.assignment.len() && s.assignment[j].0 == user);
}

/// In a well-formed server the position of a room identifier is the only
/// one holding that identifier.
pub proof fn lemma_room_index(s: ServerV, id: Seq<char>, i: int)
    requires
        server_wf(s),
        0 <= i < s.rooms.len(),
        s.rooms[i].id == id,
    ensures
        has_room(s, id),
        room_index(s, id) == i,
{
    assert(has_room(s, id));
    let j = room_index(s, id);
    assert(0 <= j < s.rooms.len() && s.rooms[j].id == id);
}

/// In a well-formed server an unassigned name is a member of no room.
pub proof fn lemma_unassigned_not_member(s: ServerV, user: Seq<char>, ri: int)
    requires
        server_wf(s),
        !assigned(s, user),
        0 <= ri < s.rooms.len(),
    ensures
        !room_has_user(s.rooms[ri], user),
{
    if room_has_user(s.rooms[ri], user) {
        let mi = choose|mi: int|
            0 <= mi < s.rooms[ri].members.len() && (#[trigger] s.rooms[ri].members[mi]).user
                == user;
        assert(is_assigned_to(s, s.rooms[ri].members[mi].user, s.rooms[ri].id));
    }
}

/// The process-wide shared state: the room table and the user-to-room
/// assignment. All mutation happens through one operation at a time.
pub struct Server<G: ChatRoom> {
    pub chat_rooms: Vec<G>,
    pub chatroom_registry: Vec<(String, String)>,
}

impl<G: ChatRoom> View for Server<G> {
    type V = ServerV;

    open spec fn view(&self) -> ServerV {
        ServerV {
            rooms: Seq::new(self.chat_rooms@.len(), |i: int| self.chat_rooms@[i]@),
            assignment: Seq::new(
                self.chatroom_registry@.len(),
                |i: int| (self.chatroom_registry@[i].0@, self.chatroom_registry@[i].1@),
            ),
        }
    }
}

impl<G: ChatRoom> Server<G> {
    /// Looks up the position of `user`'s assignment pair.
    fn find_user_index(&self, user: &String) -> (r: Option<usize>)
        ensures
            r is Some <==> assigned(self@, user@),
            r matches Some(i) ==> i < self@.assignment.len() && self@.assignment[i as int].0
                == user@,
    {
        let n = self.chatroom_registry.len();
        for i in 0..n
            invariant
                n == self@.assignment.len(),
                forall|j: int| 0 <= j < i ==> (#[trigger] self@.assignment[j]).0 != user@,
        {
            if self.chatroom_registry[i].0 == *user {
                proof {
                    assert(self@.assignment[i as int].0 == user@);
                }
                return Some(i);
            }
        }
        None
    }

    /// Looks up the position of the room with identifier `id`.
    fn find_room_index(&self, id: &String) -> (r: Option<usize>)
        ensures
            r is Some <==> has_room(self@, id@),
            r matches Some(i) ==> i < self@.rooms.len() && self@.rooms[i as int].id == id@,
    {
        let n = self.chat_rooms.len();
        for i in 0..n
            invariant
                n == self@.rooms.len(),
                forall|j: int| 0 <= j < i ==> (#[trigger] self@.rooms[j]).id != id@,
        {
            if *self.chat_rooms[i].room_id() == *id {
                proof {
                    assert(self@.rooms[i as int].id == id@);
                }
                return Some(i);
            }
        }
        None
    }

    /// Creates the server with its empty waiting room and no users.
    pub fn build() -> (r: Self)
        ensures
            server_wf(r@),
            r@.assignment == Seq::<(Seq<char>, Seq<char>)>::empty(),
            r@.rooms.len() == 1,
            r@.rooms[0] == (RoomV {
                id: waiting_room_id(),
                capacity: DEFAULT_CAPACITY as nat,
                members: Seq::<MemberV>::empty(),
            }),
    {
        let mut server = Server { chat_rooms: Vec::new(), chatroom_registry: Vec::new() };
        proof {
            assert(server@.rooms =~= Seq::<RoomV>::empty());
            assert(server@.assignment =~= Seq::<(Seq<char>, Seq<char>)>::empty());
        }
        let created = server.create_chatroom(waiting_room_name(), DEFAULT_CAPACITY);
        proof {
            assert(created is Ok);
            let v = server@;
            assert(v.rooms.len() == 1 && v.assignment.len() == 0);
            assert(v.rooms[0].id == waiting_room_id());
            assert(has_room(v, waiting_room_id()));
            assert(forall|i: int| 0 <= i < v.rooms.len() ==> room_wf(#[trigger] v.rooms[i]));
            assert(server_wf(v));
        }
        server
    }

    /// Creates a room under a fresh identifier, refusing a duplicate one.
    ///
    /// The precondition lists the well-formedness clauses one by one rather
    /// than asking for `server_wf`, because [`Server::build`] calls this
    /// before the waiting room exists; full well-formedness is preserved
    /// whenever it held on entry.
    pub fn create_chatroom(&mut self, chatroom_name: String, capacity: usize) -> (r: Result<
        (),
        &'static str,
    >)
        requires
            forall|i: int|
                0 <= i < old(self)@.rooms.len() ==> room_wf(#[trigger] old(self)@.rooms[i]),
            forall|i: int, j: int|
                0 <= i < old(self)@.rooms.len() && 0 <= j < old(self)@.rooms.len() && i != j ==> (
                #[trigger] old(self)@.rooms[i]).id != (#[trigger] old(self)@.rooms[j]).id,
            forall|i: int, j: int|
                0 <= i < old(self)@.assignment.len() && 0 <= j < old(self)@.assignment.len() && i
                    != j ==> (#[trigger] old(self)@.assignment[i]).0 != (#[trigger] old(
                    self,
                )@.assignment[j]).0,
            forall|i: int|
                0 <= i < old(self)@.assignment.len() ==> has_room(
                    old(self)@,
                    (#[trigger] old(self)@.assignment[i]).1,
                ) && room_has_user(
                    server_room(old(self)@, old(self)@.assignment[i].1),
                    old(self)@.assignment[i].0,
                ),
            forall|ri: int, mi: int|
                0 <= ri < old(self)@.rooms.len() && 0 <= mi < old(self)@.rooms[ri].members.len()
                    ==> is_assigned_to(
                    old(self)@,
                    (#[trigger] old(self)@.rooms[ri].members[mi]).user,
                    old(self)@.rooms[ri].id,
                ),
        ensures
            r is Ok <==> !has_room(old(self)@, chatroom_name@),
            r is Ok ==> final(self)@ == (ServerV {
                rooms: old(self)@.rooms.push(
                    RoomV {
                        id: chatroom_name@,
                        capacity: capacity as nat,
                        members: Seq::<MemberV>::empty(),
                    },
                ),
                assignment: old(self)@.assignment,
            }),
            r is Err ==> final(self)@ == old(self)@,
            r matches Err(e) ==> e@ == "Chatroom could not be created."@,
            server_wf(old(self)@) ==> server_wf(final(self)@),
    {
        match self.find_room_index(&chatroom_name) {
            Some(_) => Err("Chatroom could not be created."),
            None => {
                let ghost pre = self@;
                let chatroom = G::build(chatroom_name, capacity);
                self.chat_rooms.push(chatroom);
                proof {
                    assert(self@.rooms =~= pre.rooms.push(chatroom@));
                    assert(self@.assignment =~= pre.assignment);
                    lemma_create_preserves_wf(pre, self@, chatroom@);
                }
                Ok(())
            },
        }
    }
}

impl<G: ChatRoom> Server<G> {
    /// Registers `user` with key `public`: checks in one atomic operation
    /// that the name is free across all rooms, joins the user to the waiting
    /// room, and records the assignment. Exactly one of any set of
    /// registrations under one name can succeed; the others are refused as
    /// duplicates.
    pub fn register_user(&mut self, user: &String, public: Vec<u8>) -> (r: Result<(), ServerError>)
        requires
            server_wf(old(self)@),
        ensures
            server_wf(final(self)@),
            r is Ok <==> register_ok(old(self)@, user@),
            r is Ok ==> final(self)@ == spec_register(old(self)@, user@, public@),
            r is Err ==> final(self)@ == old(self)@,
            r matches Err(ServerError::DuplicateUser) <==> assigned(old(self)@, user@),
            r matches Err(ServerError::ChatRoomError(ChatRoomError::Full)) <==> !assigned(
                old(self)@,
                user@,
            ) && !register_ok(old(self)@, user@),
    {
        if self.find_user_index(user).is_some() {
            return Err(ServerError::DuplicateUser);
        }
        let wname = waiting_room_name();
        let w = match self.find_room_index(&wname) {
            Some(w) => w,
            None => {
                proof {
                    assert(false);
                }
                return Err(ServerError::NotAssigned);
            },
        };
        proof {
            lemma_room_index(self@, waiting_room_id(), w as int);
            lemma_unassigned_not_member(self@, user@, w as int);
        }
        let ghost pre = self@;
        let room = &mut self.chat_rooms[w];
        let res = room.register_user(user, public);
        match res {
            Ok(()) => {
                self.chatroom_registry.push((user.clone(), wname));
                proof {
                    assert(self@.rooms =~= pre.rooms.update(
                        w as int,
                        room_join(pre.rooms[w as int], user@, public@),
                    ));
                    assert(self@.assignment =~= pre.assignment.push((user@, waiting_room_id())));
                    assert(self@ =~= spec_register(pre, user@, public@));
                    lemma_register_preserves_wf(pre, self@, user@, public@);
                }
                Ok(())
            },
            Err(e) => {
                proof {
                    assert(e == ChatRoomError::Full);
                    assert(self@.rooms =~= pre.rooms);
                    assert(self@.assignment =~= pre.assignment);
                    assert(self@ =~= pre);
                }
                Err(ServerError::from(e))
            },
        }
    }

    /// Removes `user` from its room and from the assignment. Safe to call on
    /// disconnect or explicit logout: unregistering an absent name is a
    /// no-op, not an error, so disconnect cleanup is idempotent.
    pub fn unregister_user(&mut self, user: &String)
        requires
            server_wf(old(self)@),
        ensures
            server_wf(final(self)@),
            final(self)@ == spec_unregister(old(self)@, user@),
            !assigned(final(self)@, user@),
    {
        let i = match self.find_user_index(user) {
            None => {
                return ;
            },
            Some(i) => i,
        };
        proof {
            lemma_assignment_index(self@, user@, i as int);
        }
        let rid = self.chatroom_registry[i].1.clone();
        proof {
            assert(rid@ == assigned_room(self@, user@));
        }
        let ri = match self.find_room_index(&rid) {
            Some(ri) => ri,
            None => {
                proof {
                    assert(has_room(self@, self@.assignment[i as int].1));
                    assert(false);
                }
                return ;
            },
        };
        proof {
            lemma_room_index(self@, rid@, ri as int);
            assert(room_has_user(self@.rooms[ri as int], user@));
        }
        let ghost pre = self@;
        let room = &mut self.chat_rooms[ri];
        let res = room.unregister_user(user);
        proof {
            assert(res is Ok);
        }
        self.chatroom_registry.remove(i);
        proof {
            assert(self@.rooms =~= pre.rooms.update(
                ri as int,
                room_leave(pre.rooms[ri as int], user@),
            ));
            assert(self@.assignment =~= pre.assignment.remove(i as int));
            assert(self@ =~= spec_unregister(pre, user@));
            lemma_unregister_preserves_wf(pre, self@, user@);
            lemma_unregister_frees_name(pre, user@);
        }
    }
}

impl<G: ChatRoom> Server<G> {
    /// The identifier of the room `username` is currently assigned to.
    pub fn get_active_room(&self, username: &String) -> (r: Result<ChatRoomId, ServerError>)
        requires
            server_wf(self@),
        ensures
            r is Ok <==> assigned(self@, username@),
            r matches Ok(c) ==> c@ == assigned_room(self@, username@),
            r matches Err(e) ==> e == ServerError::NotAssigned,
    {
        match self.find_user_index(username) {
            None => Err(ServerError::NotAssigned),
            Some(i) => {
                proof {
                    lemma_assignment_index(self@, username@, i as int);
                }
                Ok(ChatRoomId(self.chatroom_registry[i].1.clone()))
            },
        }
    }

    /// The key listing of `username`'s room: the `(username, publicKey)`
    /// pair of every member, the caller included, in registration order.
    pub fn roomkeys_for(&self, username: &String) -> (r: Result<Vec<UserKey>, ServerError>)
        requires
            server_wf(self@),
        ensures
            r is Ok <==> assigned(self@, username@),
            r matches Ok(v) ==> v.deep_view() == room_keys(
                server_room(self@, assigned_room(self@, username@)),
            ),
            r matches Err(e) ==> e == ServerError::NotAssigned,
    {
        let i = match self.find_user_index(username) {
            None => {
                return Err(ServerError::NotAssigned);
            },
            Some(i) => i,
        };
        proof {
            lemma_assignment_index(self@, username@, i as int);
        }
        let rid = self.chatroom_registry[i].1.clone();
        let ri = match self.find_room_index(&rid) {
            Some(ri) => ri,
            None => {
                proof {
                    assert(has_room(self@, self@.assignment[i as int].1));
                    assert(false);
                }
                return Err(ServerError::NotAssigned);
            },
        };
        proof {
            lemma_room_index(self@, rid@, ri as int);
        }
        Ok(self.chat_rooms[ri].get_roomkeys())
    }

    /// Queues `ciphertext` for `to_user`, provided sender and recipient are
    /// registered members of one and the same room and the recipient's
    /// outbox has space. Cross-room delivery is refused; a full outbox is a
    /// fast error, never a block and never a silent drop.
    pub fn route(&mut self, from_user: &String, to_user: &String, ciphertext: Vec<u8>) -> (r:
        Result<(), ServerError>)
        requires
            server_wf(old(self)@),
        ensures
            server_wf(final(self)@),
            r is Err ==> final(self)@ == old(self)@,
            r matches Err(ServerError::NotAssigned) <==> !assigned(old(self)@, from_user@),
            r matches Err(ServerError::NotCoMember) <==> assigned(old(self)@, from_user@) && !(
            assigned(old(self)@, to_user@) && assigned_room(old(self)@, to_user@) == assigned_room(
                old(self)@,
                from_user@,
            )),
            r is Ok <==> assigned(old(self)@, from_user@) && assigned(old(self)@, to_user@)
                && assigned_room(old(self)@, to_user@) == assigned_room(old(self)@, from_user@)
                && server_outbox(old(self)@, to_user@).len() < ROOM_OUTBOX_CAPACITY,
            r is Ok ==> final(self)@ == spec_route(
                old(self)@,
                MsgV { recipient: to_user@, ciphertext: ciphertext@ },
            ),
            r matches Err(ServerError::ChatRoomError(ChatRoomError::OutboxFull)) <==> assigned(
                old(self)@,
                from_user@,
            ) && assigned(old(self)@, to_user@) && assigned_room(old(self)@, to_user@)
                == assigned_room(old(self)@, from_user@) && server_outbox(
                old(self)@,
                to_user@,
            ).len() >= ROOM_OUTBOX_CAPACITY,
    {
        let fi = match self.find_user_index(from_user) {
            None => {
                return Err(ServerError::NotAssigned);
            },
            Some(fi) => fi,
        };
        let ti = match self.find_user_index(to_user) {
            None => {
                return Err(ServerError::NotCoMember);
            },
            Some(ti) => ti,
        };
        proof {
            lemma_assignment_index(self@, from_user@, fi as int);
            lemma_assignment_index(self@, to_user@, ti as int);
        }
        if self.chatroom_registry[fi].1 != self.chatroom_registry[ti].1 {
            return Err(ServerError::NotCoMember);
        }
        let rid = self.chatroom_registry[ti].1.clone();
        let ri = match self.find_room_index(&rid) {
            Some(ri) => ri,
            None => {
                proof {
                    assert(has_room(self@, self@.assignment[ti as int].1));
                    assert(false);
                }
                return Err(ServerError::NotCoMember);
            },
        };
        proof {
            lemma_room_index(self@, rid@, ri as int);
            assert(room_has_user(self@.rooms[ri as int], to_user@));
        }
        let ghost pre = self@;
        let room = &mut self.chat_rooms[ri];
        let res = room.publish_message(
            OutboundMessage { recipient: to_user.clone(), ciphertext },
        );
        match res {
            Ok(()) => {
                proof {
                    assert(self@.rooms =~= pre.rooms.update(
                        ri as int,
                        room_enqueue(
                            pre.rooms[ri as int],
                            MsgV { recipient: to_user@, ciphertext: ciphertext@ },
                        ),
                    ));
                    assert(self@.assignment =~= pre.assignment);
                    assert(self@ =~= spec_route(
                        pre,
                        MsgV { recipient: to_user@, ciphertext: ciphertext@ },
                    ));
                    lemma_enqueue_preserves_wf(
                        pre,
                        self@,
                        ri as int,
                        MsgV { recipient: to_user@, ciphertext: ciphertext@ },
                    );
                }
                Ok(())
            },
            Err(e) => {
                proof {
                    assert(e == ChatRoomError::OutboxFull);
                    assert(self@.rooms =~= pre.rooms);
                    assert(self@.assignment =~= pre.assignment);
                    assert(self@ =~= pre);
                }
                Err(ServerError::from(e))
            },
        }
    }

    /// Takes the oldest message queued for `username` out of that user's
    /// outbox, if any: the poll a connection serves its pushes from.
    pub fn next_message(&mut self, username: &String) -> (r: Option<OutboundMessage>)
        requires
            server_wf(old(self)@),
        ensures
            server_wf(final(self)@),
            r is Some <==> server_outbox(old(self)@, username@).len() > 0,
            r matches Some(m) ==> m@ == server_outbox(old(self)@, username@).first()
                && final(self)@ == spec_dequeue(old(self)@, username@),
            r is None ==> final(self)@ == old(self)@,
    {
        let i = match self.find_user_index(username) {
            None => {
                return None;
            },
            Some(i) => i,
        };
        proof {
            lemma_assignment_index(self@, username@, i as int);
        }
        let rid = self.chatroom_registry[i].1.clone();
        let ri = match self.find_room_index(&rid) {
            Some(ri) => ri,
            None => {
                proof {
                    assert(has_room(self@, self@.assignment[i as int].1));
                    assert(false);
                }
                return None;
            },
        };
        proof {
            lemma_room_index(self@, rid@, ri as int);
            assert(room_has_user(self@.rooms[ri as int], username@));
        }
        let ghost pre = self@;
        let room = &mut self.chat_rooms[ri];
        let res = room.next_message(username);
        match res {
            Some(m) => {
                proof {
                    assert(self@.rooms =~= pre.rooms.update(
                        ri as int,
                        crate::chatroom::room_dequeue(pre.rooms[ri as int], username@),
                    ));
                    assert(self@.assignment =~= pre.assignment);
                    assert(self@ =~= spec_dequeue(pre, username@));
                    lemma_dequeue_preserves_wf(pre, self@, ri as int, username@);
                }
                Some(m)
            },
            None => {
                proof {
                    assert(self@.rooms =~= pre.rooms);
                    assert(self@.assignment =~= pre.assignment);
                    assert(self@ =~= pre);
                }
                None
            },
        }
    }

    /// Deletes an empty room. The waiting room and rooms that still have
    /// members stay; an unknown identifier is an error.
    pub fn delete_chatroom(&mut self, chatroom_name: String) -> (r: Result<(), &'static str>)
        requires
            server_wf(old(self)@),
        ensures
            server_wf(final(self)@),
            r is Ok <==> has_room(old(self)@, chatroom_name@) && chatroom_name@
                != waiting_room_id() && server_room(old(self)@, chatroom_name@).members.len() == 0,
            r is Ok ==> final(self)@ == (ServerV {
                rooms: old(self)@.rooms.remove(room_index(old(self)@, chatroom_name@)),
                assignment: old(self)@.assignment,
            }),
            r is Err ==> final(self)@ == old(self)@,
            !has_room(old(self)@, chatroom_name@) ==> (r matches Err(e) && e@
                == "Chatroom not found."@),
            has_room(old(self)@, chatroom_name@) && chatroom_name@ == waiting_room_id() ==> (
            r matches Err(e) && e@ == "The waiting room cannot be deleted."@),
            has_room(old(self)@, chatroom_name@) && chatroom_name@ != waiting_room_id()
                && server_room(old(self)@, chatroom_name@).members.len() != 0 ==> (
            r matches Err(e) && e@ == "Chatroom is not empty."@),
    {
        let ri = match self.find_room_index(&chatroom_name) {
            None => {
                return Err("Chatroom not found.");
            },
            Some(ri) => ri,
        };
        proof {
            lemma_room_index(self@, chatroom_name@, ri as int);
        }
        if chatroom_name == waiting_room_name() {
            return Err("The waiting room cannot be deleted.");
        }
        if self.chat_rooms[ri].member_count() != 0 {
            return Err("Chatroom is not empty.");
        }
        let ghost pre = self@;
        self.chat_rooms.remove(ri);
        proof {
            assert(self@.rooms =~= pre.rooms.remove(ri as int));
            assert(self@.assignment =~= pre.assignment);
            lemma_delete_preserves_wf(pre, self@, ri as int);
        }
        Ok(())
    }
}

/// Enqueueing into one member's outbox of one room keeps the server well
/// formed: the member lists, identifiers and assignment are untouched.
proof fn lemma_enqueue_preserves_wf(pre: ServerV, post: ServerV, ri: int, m: MsgV)
    requires
        server_wf(pre),
        0 <= ri < pre.rooms.len(),
        room_has_user(pre.rooms[ri], m.recipient),
        crate::chatroom::room_user_outbox(pre.rooms[ri], m.recipient).len()
            < ROOM_OUTBOX_CAPACITY,
        post == (ServerV {
            rooms: pre.rooms.update(ri, room_enqueue(pre.rooms[ri], m)),
            assignment: pre.assignment,
        }),
    ensures
        server_wf(post),
{
    let old_room = pre.rooms[ri];
    let new_room = room_enqueue(old_room, m);
    let mi = crate::chatroom::room_user_index(old_room, m.recipient);
    assert(0 <= mi < old_room.members.len() && old_room.members[mi].user == m.recipient);
    assert(new_room.id == old_room.id && new_room.capacity == old_room.capacity);
    assert(new_room.members.len() == old_room.members.len());
    assert(forall|k: int|
        0 <= k < new_room.members.len() ==> (#[trigger] new_room.members[k]).user
            == old_room.members[k].user);
    assert(room_wf(new_room)) by {
        assert(new_room.members[mi].outbox.len() == old_room.members[mi].outbox.len() + 1);
        assert(forall|k: int|
            0 <= k < new_room.members.len() && k != mi ==> new_room.members[k]
                == old_room.members[k]);
    }
    lemma_same_shape_preserves_wf(pre, post);
}

/// Dequeueing from one member's outbox of one room keeps the server well
/// formed.
proof fn lemma_dequeue_preserves_wf(pre: ServerV, post: ServerV, ri: int, user: Seq<char>)
    requires
        server_wf(pre),
        0 <= ri < pre.rooms.len(),
        room_has_user(pre.rooms[ri], user),
        crate::chatroom::room_user_outbox(pre.rooms[ri], user).len() > 0,
        post == (ServerV {
            rooms: pre.rooms.update(ri, crate::chatroom::room_dequeue(pre.rooms[ri], user)),
            assignment: pre.assignment,
        }),
    ensures
        server_wf(post),
{
    let old_room = pre.rooms[ri];
    let new_room = crate::chatroom::room_dequeue(old_room, user);
    let mi = crate::chatroom::room_user_index(old_room, user);
    assert(0 <= mi < old_room.members.len() && old_room.members[mi].user == user);
    assert(new_room.members.len() == old_room.members.len());
    assert(forall|k: int|
        0 <= k < new_room.members.len() ==> (#[trigger] new_room.members[k]).user
            == old_room.members[k].user);
    assert(room_wf(new_room)) by {
        assert(new_room.members[mi].outbox.len() <= old_room.members[mi].outbox.len());
        assert(forall|k: int|
            0 <= k < new_room.members.len() && k != mi ==> new_room.members[k]
                == old_room.members[k]);
    }
    lemma_same_shape_preserves_wf(pre, post);
}

/// A server whose rooms keep their identifiers, member usernames and
/// well-formedness, and whose assignment is unchanged, stays well formed.
proof fn lemma_same_shape_preserves_wf(pre: ServerV, post: ServerV)
    requires
        server_wf(pre),
        post.assignment == pre.assignment,
        post.rooms.len() == pre.rooms.len(),
        forall|i: int|
            0 <= i < post.rooms.len() ==> (#[trigger] post.rooms[i]).id == pre.rooms[i].id,
        forall|i: int| 0 <= i < post.rooms.len() ==> room_wf(#[trigger] post.rooms[i]),
        forall|i: int|
            0 <= i < post.rooms.len() ==> (#[trigger] post.rooms[i]).members.len() == pre.rooms[
                i
            ].members.len(),
        forall|i: int, k: int|
            0 <= i < post.rooms.len() && 0 <= k < post.rooms[i].members.len() ==> (
            #[trigger] post.rooms[i].members[k]).user == pre.rooms[i].members[k].user,
    ensures
        server_wf(post),
{
    assert(has_room(post, waiting_room_id())) by {
        let wi = room_index(pre, waiting_room_id());
        assert(post.rooms[wi].id == waiting_room_id());
    }
    assert forall|i: int|
        0 <= i < post.assignment.len() implies has_room(post, (#[trigger] post.assignment[i]).1)
        && room_has_user(server_room(post, post.assignment[i].1), post.assignment[i].0) by {
        let rid = pre.assignment[i].1;
        let ri = room_index(pre, rid);
        assert(has_room(pre, rid) && room_has_user(server_room(pre, rid), pre.assignment[i].0));
        assert(0 <= ri < pre.rooms.len() && pre.rooms[ri].id == rid);
        assert(post.rooms[ri].id == rid);
        lemma_distinct_room_index(post, rid, ri);
        let mi = choose|k: int|
            0 <= k < pre.rooms[ri].members.len() && (#[trigger] pre.rooms[ri].members[k]).user
                == pre.assignment[i].0;
        assert(post.rooms[ri].members[mi].user == pre.assignment[i].0);
        assert(room_has_user(post.rooms[ri], pre.assignment[i].0));
    }
    assert forall|ri: int, mi: int|
        0 <= ri < post.rooms.len() && 0 <= mi < post.rooms[ri].members.len() implies is_assigned_to(
        post,
        (#[trigger] post.rooms[ri].members[mi]).user,
        post.rooms[ri].id,
    ) by {
        assert(post.rooms[ri].members[mi].user == pre.rooms[ri].members[mi].user);
        assert(is_assigned_to(pre, pre.rooms[ri].members[mi].user, pre.rooms[ri].id));
        assert(post.rooms[ri].id == pre.rooms[ri].id);
    }
}

/// Removing an empty room keeps the server well formed: no assignment and
/// no member can refer to a room without members.
proof fn lemma_delete_preserves_wf(pre: ServerV, post: ServerV, di: int)
    requires
        server_wf(pre),
        0 <= di < pre.rooms.len(),
        pre.rooms[di].members.len() == 0,
        pre.rooms[di].id != waiting_room_id(),
        post == (ServerV { rooms: pre.rooms.remove(di), assignment: pre.assignment }),
    ensures
        server_wf(post),
{
    assert(forall|i: int|
        0 <= i < post.rooms.len() ==> (#[trigger] post.rooms[i]) == (if i < di {
            pre.rooms[i]
        } else {
            pre.rooms[i + 1]
        }));
    assert forall|i: int, j: int|
        0 <= i < post.rooms.len() && 0 <= j < post.rooms.len() && i != j implies (
    #[trigger] post.rooms[i]).id != (#[trigger] post.rooms[j]).id by {
        let i0 = if i < di {
            i
        } else {
            i + 1
        };
        let j0 = if j < di {
            j
        } else {
            j + 1
        };
        assert(post.rooms[i].id == pre.rooms[i0].id);
        assert(post.rooms[j].id == pre.rooms[j0].id);
    }
    assert(has_room(post, waiting_room_id())) by {
        let wi = room_index(pre, waiting_room_id());
        assert(0 <= wi < pre.rooms.len() && pre.rooms[wi].id == waiting_room_id());
        assert(wi != di);
        let wi2 = if wi < di {
            wi
        } else {
            wi - 1
        };
        assert(post.rooms[wi2].id == waiting_room_id());
    }
    assert forall|i: int|
        0 <= i < post.assignment.len() implies has_room(post, (#[trigger] post.assignment[i]).1)
        && room_has_user(server_room(post, post.assignment[i].1), post.assignment[i].0) by {
        let rid = pre.assignment[i].1;
        let ri = room_index(pre, rid);
        assert(has_room(pre, rid) && room_has_user(server_room(pre, rid), pre.assignment[i].0));
        assert(0 <= ri < pre.rooms.len() && pre.rooms[ri].id == rid);
        assert(ri != di);
        let ri2 = if ri < di {
            ri
        } else {
            ri - 1
        };
        assert(post.rooms[ri2] == pre.rooms[ri]);
        lemma_distinct_room_index(post, rid, ri2);
    }
    assert forall|ri: int, mi: int|
        0 <= ri < post.rooms.len() && 0 <= mi < post.rooms[ri].members.len() implies is_assigned_to(
        post,
        (#[trigger] post.rooms[ri].members[mi]).user,
        post.rooms[ri].id,
    ) by {
        let ri0 = if ri < di {
            ri
        } else {
            ri + 1
        };
        assert(post.rooms[ri] == pre.rooms[ri0]);
        assert(is_assigned_to(pre, pre.rooms[ri0].members[mi].user, pre.rooms[ri0].id));
    }
}

/// Law: a successful registration takes the name; from the resulting state
/// any further registration of the same name is refused as a duplicate,
/// whatever key it brings, until the name is unregistered.
pub proof fn lemma_register_exclusive(s: ServerV, user: Seq<char>, key: Seq<u8>)
    requires
        server_wf(s),
        register_ok(s, user),
    ensures
        assigned(spec_register(s, user, key), user),
        !register_ok(spec_register(s, user, key), user),
{
    let post = spec_register(s, user, key);
    let n = s.assignment.len() as int;
    assert(post.assignment[n].0 == user);
    assert(assigned(post, user));
}

/// Law: a registration of one name leaves every other registered name
/// registered; success of one concurrent handshake cannot unseat another.
pub proof fn lemma_register_preserves_assigned(
    s: ServerV,
    user: Seq<char>,
    other: Seq<char>,
    key: Seq<u8>,
)
    requires
        server_wf(s),
        register_ok(s, other),
        assigned(s, user),
    ensures
        assigned(spec_register(s, other, key), user),
{
    let post = spec_register(s, other, key);
    let i = choose|i: int| 0 <= i < s.assignment.len() && (#[trigger] s.assignment[i]).0 == user;
    assert(post.assignment[i].0 == user);
}

/// Law: after unregistering a name, that name is free: its slot is
/// immediately available for re-registration.
pub proof fn lemma_unregister_frees_name(s: ServerV, user: Seq<char>)
    requires
        server_wf(s),
    ensures
        !assigned(spec_unregister(s, user), user),
{
    if assigned(s, user) {
        let post = spec_unregister(s, user);
        let i = assignment_index(s, user);
        assert(0 <= i < s.assignment.len() && s.assignment[i].0 == user);
        assert forall|j: int| 0 <= j < post.assignment.len() implies (
        #[trigger] post.assignment[j]).0 != user by {
            if j < i {
                assert(post.assignment[j] == s.assignment[j]);
            } else {
                assert(post.assignment[j] == s.assignment[j + 1]);
            }
        }
    }
}

/// A successful registration keeps the server well formed.
proof fn lemma_register_preserves_wf(pre: ServerV, post: ServerV, user: Seq<char>, key: Seq<u8>)
    requires
        server_wf(pre),
        register_ok(pre, user),
        post == spec_register(pre, user, key),
    ensures
        server_wf(post),
{
    let w = room_index(pre, waiting_room_id());
    assert(0 <= w < pre.rooms.len() && pre.rooms[w].id == waiting_room_id());
    let joined = room_join(pre.rooms[w], user, key);
    let n = pre.assignment.len() as int;
    lemma_unassigned_not_member(pre, user, w);
    assert(room_wf(joined)) by {
        assert(forall|mi: int|
            0 <= mi < pre.rooms[w].members.len() ==> joined.members[mi] == pre.rooms[
                w
            ].members[mi]);
        assert(joined.members[joined.members.len() - 1].user == user);
        assert(joined.members[joined.members.len() - 1].outbox.len() == 0);
    }
    assert(forall|i: int| 0 <= i < post.rooms.len() ==> room_wf(#[trigger] post.rooms[i]));
    assert(forall|i: int|
        0 <= i < post.rooms.len() ==> (#[trigger] post.rooms[i]).id == pre.rooms[i].id);
    assert(has_room(post, waiting_room_id())) by {
        assert(post.rooms[w].id == waiting_room_id());
    }
    assert forall|i: int, j: int|
        0 <= i < post.assignment.len() && 0 <= j < post.assignment.len() && i != j implies (
    #[trigger] post.assignment[i]).0 != (#[trigger] post.assignment[j]).0 by {
        if i < n && j < n {
            assert(post.assignment[i] == pre.assignment[i]);
            assert(post.assignment[j] == pre.assignment[j]);
        } else if i == n {
            assert(post.assignment[j] == pre.assignment[j]);
            assert(!assigned(pre, user));
            if post.assignment[j].0 == user {
                assert(assigned(pre, user));
            }
        } else {
            assert(post.assignment[i] == pre.assignment[i]);
            if post.assignment[i].0 == user {
                assert(assigned(pre, user));
            }
        }
    }
    assert forall|i: int|
        0 <= i < post.assignment.len() implies has_room(post, (#[trigger] post.assignment[i]).1)
        && room_has_user(server_room(post, post.assignment[i].1), post.assignment[i].0) by {
        if i < n {
            assert(post.assignment[i] == pre.assignment[i]);
            let rid = pre.assignment[i].1;
            let ri = room_index(pre, rid);
            assert(has_room(pre, rid) && room_has_user(server_room(pre, rid), pre.assignment[
                i
            ].0));
            assert(0 <= ri < pre.rooms.len() && pre.rooms[ri].id == rid);
            assert(post.rooms[ri].id == rid);
            lemma_distinct_room_index(post, rid, ri);
            if ri == w {
                let u = pre.assignment[i].0;
                let mi = choose|mi: int|
                    0 <= mi < pre.rooms[w].members.len() && (
                    #[trigger] pre.rooms[w].members[mi]).user == u;
                assert(joined.members[mi].user == u);
                assert(room_has_user(post.rooms[ri], u));
            } else {
                assert(post.rooms[ri] == pre.rooms[ri]);
            }
        } else {
            assert(post.assignment[i] == (user, waiting_room_id()));
            assert(post.rooms[w].id == waiting_room_id());
            lemma_distinct_room_index(post, waiting_room_id(), w);
            assert(joined.members[joined.members.len() - 1].user == user);
            assert(room_has_user(post.rooms[w], user));
        }
    }
    assert forall|ri: int, mi: int|
        0 <= ri < post.rooms.len() && 0 <= mi < post.rooms[ri].members.len() implies is_assigned_to(
        post,
        (#[trigger] post.rooms[ri].members[mi]).user,
        post.rooms[ri].id,
    ) by {
        if ri == w && mi == post.rooms[ri].members.len() - 1 {
            assert(post.rooms[ri].members[mi].user == user);
            assert(post.assignment[n] == (user, waiting_room_id()));
        } else {
            assert(post.rooms[ri].members[mi] == pre.rooms[ri].members[mi]);
            assert(is_assigned_to(pre, pre.rooms[ri].members[mi].user, pre.rooms[ri].id));
            let ai = choose|ai: int|
                0 <= ai < pre.assignment.len() && (#[trigger] pre.assignment[ai]).0 == pre.rooms[
                    ri
                ].members[mi].user && pre.assignment[ai].1 == pre.rooms[ri].id;
            assert(post.assignment[ai] == pre.assignment[ai]);
            assert(post.rooms[ri].id == pre.rooms[ri].id);
        }
    }
}

/// A successful unregistration keeps the server well formed.
proof fn lemma_unregister_preserves_wf(pre: ServerV, post: ServerV, user: Seq<char>)
    requires
        server_wf(pre),
        assigned(pre, user),
        post == spec_unregister(pre, user),
    ensures
        server_wf(post),
{
    let ai = assignment_index(pre, user);
    let rid = assigned_room(pre, user);
    let ri = room_index(pre, rid);
    assert(0 <= ai < pre.assignment.len() && pre.assignment[ai].0 == user);
    assert(has_room(pre, rid) && room_has_user(server_room(pre, rid), user));
    assert(0 <= ri < pre.rooms.len() && pre.rooms[ri].id == rid);
    let mi = crate::chatroom::room_user_index(pre.rooms[ri], user);
    assert(0 <= mi < pre.rooms[ri].members.len() && pre.rooms[ri].members[mi].user == user);
    let left = room_leave(pre.rooms[ri], user);
    assert(room_wf(left)) by {
        assert(forall|k: int|
            0 <= k < left.members.len() ==> left.members[k] == (if k < mi {
                pre.rooms[ri].members[k]
            } else {
                pre.rooms[ri].members[k + 1]
            }));
    }
    assert(forall|i: int| 0 <= i < post.rooms.len() ==> room_wf(#[trigger] post.rooms[i]));
    assert(forall|i: int|
        0 <= i < post.rooms.len() ==> (#[trigger] post.rooms[i]).id == pre.rooms[i].id);
    assert(has_room(post, waiting_room_id())) by {
        let wi = room_index(pre, waiting_room_id());
        assert(post.rooms[wi].id == waiting_room_id());
    }
    assert forall|i: int, j: int|
        0 <= i < post.assignment.len() && 0 <= j < post.assignment.len() && i != j implies (
    #[trigger] post.assignment[i]).0 != (#[trigger] post.assignment[j]).0 by {
        let i0 = if i < ai {
            i
        } else {
            i + 1
        };
        let j0 = if j < ai {
            j
        } else {
            j + 1
        };
        assert(post.assignment[i] == pre.assignment[i0]);
        assert(post.assignment[j] == pre.assignment[j0]);
    }
    assert forall|i: int|
        0 <= i < post.assignment.len() implies has_room(post, (#[trigger] post.assignment[i]).1)
        && room_has_user(server_room(post, post.assignment[i].1), post.assignment[i].0) by {
        let i0 = if i < ai {
            i
        } else {
            i + 1
        };
        assert(post.assignment[i] == pre.assignment[i0]);
        let u = pre.assignment[i0].0;
        let r0 = pre.assignment[i0].1;
        let ri0 = room_index(pre, r0);
        assert(has_room(pre, r0) && room_has_user(server_room(pre, r0), u));
        assert(0 <= ri0 < pre.rooms.len() && pre.rooms[ri0].id == r0);
        assert(post.rooms[ri0].id == r0);
        lemma_distinct_room_index(post, r0, ri0);
        assert(u != user);
        if ri0 == ri {
            let mi0 = choose|k: int|
                0 <= k < pre.rooms[ri].members.len() && (#[trigger] pre.rooms[ri].members[k]).user
                    == u;
            assert(pre.rooms[ri].members[mi0].user == u);
            assert(mi0 != mi);
            let k = if mi0 < mi {
                mi0
            } else {
                mi0 - 1
            };
            assert(left.members[k].user == u);
            assert(room_has_user(post.rooms[ri], u));
        } else {
            assert(post.rooms[ri0] == pre.rooms[ri0]);
        }
    }
    assert forall|ri2: int, mi2: int|
        0 <= ri2 < post.rooms.len() && 0 <= mi2 < post.rooms[ri2].members.len() implies is_assigned_to(
        post,
        (#[trigger] post.rooms[ri2].members[mi2]).user,
        post.rooms[ri2].id,
    ) by {
        let u = post.rooms[ri2].members[mi2].user;
        let mi0 = if ri2 == ri && mi2 >= mi {
            mi2 + 1
        } else {
            mi2
        };
        assert(post.rooms[ri2].members[mi2] == pre.rooms[ri2].members[mi0]);
        assert(is_assigned_to(pre, u, pre.rooms[ri2].id));
        let ai0 = choose|k: int|
            0 <= k < pre.assignment.len() && (#[trigger] pre.assignment[k]).0 == u
                && pre.assignment[k].1 == pre.rooms[ri2].id;
        assert(ai0 != ai) by {
            if ai0 == ai {
                assert(u == user);
                if ri2 == ri {
                    assert(pre.rooms[ri].members[mi0].user == user);
                    assert(mi0 != mi);
                    assert(room_wf(pre.rooms[ri]));
                } else {
                    assert(pre.assignment[ai].1 == pre.rooms[ri2].id);
                    assert(pre.rooms[ri].id == rid);
                }
            }
        }
        let k = if ai0 < ai {
            ai0
        } else {
            ai0 - 1
        };
        assert(post.assignment[k] == pre.assignment[ai0]);
        assert(post.rooms[ri2].id == pre.rooms[ri2].id);
    }
}

/// Pushing a fresh, empty, well-formed room onto a server keeps every
/// well-formedness clause.
proof fn lemma_create_preserves_wf(pre: ServerV, post: ServerV, room: RoomV)
    requires
        forall|i: int| 0 <= i < pre.rooms.len() ==> room_wf(#[trigger] pre.rooms[i]),
        forall|i: int, j: int|
            0 <= i < pre.rooms.len() && 0 <= j < pre.rooms.len() && i != j ==> (
            #[trigger] pre.rooms[i]).id != (#[trigger] pre.rooms[j]).id,
        forall|i: int, j: int|
            0 <= i < pre.assignment.len() && 0 <= j < pre.assignment.len() && i != j ==> (
            #[trigger] pre.assignment[i]).0 != (#[trigger] pre.assignment[j]).0,
        forall|i: int|
            0 <= i < pre.assignment.len() ==> has_room(pre, (#[trigger] pre.assignment[i]).1)
                && room_has_user(
                server_room(pre, pre.assignment[i].1),
                pre.assignment[i].0,
            ),
        forall|ri: int, mi: int|
            0 <= ri < pre.rooms.len() && 0 <= mi < pre.rooms[ri].members.len() ==> is_assigned_to(
                pre,
                (#[trigger] pre.rooms[ri].members[mi]).user,
                pre.rooms[ri].id,
            ),
        !has_room(pre, room.id),
        room.members.len() == 0,
        room_wf(room),
        post == (ServerV { rooms: pre.rooms.push(room), assignment: pre.assignment }),
    ensures
        forall|i: int| 0 <= i < post.rooms.len() ==> room_wf(#[trigger] post.rooms[i]),
        forall|i: int, j: int|
            0 <= i < post.rooms.len() && 0 <= j < post.rooms.len() && i != j ==> (
            #[trigger] post.rooms[i]).id != (#[trigger] post.rooms[j]).id,
        forall|i: int, j: int|
            0 <= i < post.assignment.len() && 0 <= j < post.assignment.len() && i != j ==> (
            #[trigger] post.assignment[i]).0 != (#[trigger] post.assignment[j]).0,
        forall|i: int|
            0 <= i < post.assignment.len() ==> has_room(post, (#[trigger] post.assignment[i]).1)
                && room_has_user(
                server_room(post, post.assignment[i].1),
                post.assignment[i].0,
            ),
        forall|ri: int, mi: int|
            0 <= ri < post.rooms.len() && 0 <= mi < post.rooms[ri].members.len()
                ==> is_assigned_to(
                post,
                (#[trigger] post.rooms[ri].members[mi]).user,
                post.rooms[ri].id,
            ),
        has_room(pre, waiting_room_id()) ==> server_wf(post),
{
    let n = pre.rooms.len() as int;
    assert forall|i: int, j: int|
        0 <= i < post.rooms.len() && 0 <= j < post.rooms.len() && i != j implies (
    #[trigger] post.rooms[i]).id != (#[trigger] post.rooms[j]).id by {
        if i < n && j < n {
        } else if i == n {
            assert(post.rooms[j] == pre.rooms[j]);
            if post.rooms[i].id == post.rooms[j].id {
                assert(has_room(pre, room.id));
            }
        } else {
            assert(post.rooms[i] == pre.rooms[i]);
            if post.rooms[i].id == post.rooms[j].id {
                assert(has_room(pre, room.id));
            }
        }
    }
    assert forall|i: int|
        0 <= i < post.assignment.len() implies has_room(post, (#[trigger] post.assignment[i]).1)
        && room_has_user(server_room(post, post.assignment[i].1), post.assignment[i].0) by {
        let rid = pre.assignment[i].1;
        let ri = room_index(pre, rid);
        assert(0 <= ri < n && pre.rooms[ri].id == rid);
        assert(post.rooms[ri] == pre.rooms[ri]);
        assert(has_room(post, rid));
        lemma_distinct_room_index(post, rid, ri);
    }
    assert forall|ri: int, mi: int|
        0 <= ri < post.rooms.len() && 0 <= mi < post.rooms[ri].members.len() implies is_assigned_to(
        post,
        (#[trigger] post.rooms[ri].members[mi]).user,
        post.rooms[ri].id,
    ) by {
        if ri < n {
            assert(post.rooms[ri] == pre.rooms[ri]);
            assert(is_assigned_to(pre, pre.rooms[ri].members[mi].user, pre.rooms[ri].id));
        }
    }
    if has_room(pre, waiting_room_id()) {
        let wi = room_index(pre, waiting_room_id());
        assert(0 <= wi < n && pre.rooms[wi].id == waiting_room_id());
        assert(post.rooms[wi] == pre.rooms[wi]);
        assert(has_room(post, waiting_room_id()));
    }
}

/// With distinct room identifiers, the room index of an identifier present
/// at position `i` is `i`.
proof fn lemma_distinct_room_index(s: ServerV, id: Seq<char>, i: int)
    requires
        forall|x: int, y: int|
            0 <= x < s.rooms.len() && 0 <= y < s.rooms.len() && x != y ==> (
            #[trigger] s.rooms[x]).id != (#[trigger] s.rooms[y]).id,
        0 <= i < s.rooms.len(),
        s.rooms[i].id == id,
    ensures
        has_room(s, id),
        room_index(s, id) == i,
{
    assert(has_room(s, id));
    let j = room_index(s, id);
    assert(0 <= j < s.rooms.len() && s.rooms[j].id == id);
}

} // verus!
