//! The per-connection session: a state machine from handshake to shutdown.
//!
//! The embedding program owns the socket and the timing: it reads framed
//! requests, polls the user's outbox, and feeds whichever is ready first as
//! an event into [`session_step`], writing back whatever response the step
//! hands out. Every decision — dispatch, state transitions, registry calls —
//! is taken here, under contract.

use vstd::prelude::*;

use crate::chatroom::{room_keys, ChatRoom, ChatRoomError, ROOM_OUTBOX_CAPACITY};
use crate::server::{
    assigned, assigned_room, register_ok, server_outbox, server_room, server_wf, spec_register,
    spec_route, spec_unregister, Server, ServerError, ServerV,
};
use crate::types::{
    APIRequest, APIResponse, MsgV, OutboundMessage, Response, RespV, ResponseV, UserKey,
};

verus! {

/// The state of one connection's session.
///
/// `AwaitingLogin` accepts nothing but a login request; `Active` carries the
/// username the session registered; `Closed` is terminal, and the session's
/// user — if it had one — has been unregistered on the way in.
#[derive(Debug, Clone, PartialEq)]
pub enum SessionState {
    AwaitingLogin,
    Active(String),
    Closed,
}

/// One thing a session can wake up on: a framed request from the socket, a
/// queued message for this session's user, or the transport failing (the
/// socket closed, a malformed frame, or a failed write).
#[derive(Debug, Clone, PartialEq)]
pub enum SessionEvent {
    Inbound(APIRequest),
    Delivery(OutboundMessage),
    Disconnected,
}

/// The error a login attempt is refused with: a duplicate name, or a full
/// waiting room.
pub open spec fn login_err(s: ServerV, user: Seq<char>) -> ServerError {
    if assigned(s, user) {
        ServerError::DuplicateUser
    } else {
        ServerError::ChatRoomError(ChatRoomError::Full)
    }
}

/// Whether routing a message from `from` to `to` succeeds: both are
/// registered in the same room and the recipient's outbox has space.
pub open spec fn route_ok(s: ServerV, from: Seq<char>, to: Seq<char>) -> bool {
    &&& assigned(s, from)
    &&& assigned(s, to)
    &&& assigned_room(s, to) == assigned_room(s, from)
    &&& server_outbox(s, to).len() < ROOM_OUTBOX_CAPACITY
}

/// The error a failed routing is refused with.
pub open spec fn route_err(s: ServerV, from: Seq<char>, to: Seq<char>) -> ServerError {
    if !assigned(s, from) {
        ServerError::NotAssigned
    } else if !(assigned(s, to) && assigned_room(s, to) == assigned_room(s, from)) {
        ServerError::NotCoMember
    } else {
        ServerError::ChatRoomError(ChatRoomError::OutboxFull)
    }
}

/// Drives a session one step: from the current state and one event to the
/// next state and the response (if any) to write back.
///
/// The contract is the state machine:
/// - `Closed` is terminal and touches nothing — in particular, the cleanup
///   below runs at most once per session;
/// - in `AwaitingLogin`, only a login request is accepted: on a free name it
///   registers the user and activates the session; on a refused one it
///   answers with the error and closes. Anything else closes silently.
/// - in `Active`, requests are dispatched against the registry, outbox
///   deliveries are wrapped as `PublishMessage` pushes, and a logout or a
///   transport failure closes the session, unregistering its user on the way
///   out — so a disconnect frees the name at once.
pub fn session_step<G: ChatRoom>(
    server: &mut Server<G>,
    state: SessionState,
    event: SessionEvent,
) -> (r: (SessionState, Option<APIResponse>))
    requires
        server_wf(old(server)@),
    ensures
        server_wf(final(server)@),
        match state {
            SessionState::Closed => r.0 is Closed && r.1 is None && final(server)@ == old(
                server,
            )@,
            SessionState::AwaitingLogin => match event {
                SessionEvent::Inbound(APIRequest::LoginRequest(uk)) => {
                    if register_ok(old(server)@, uk.user@) {
                        &&& r.0 matches SessionState::Active(u) && u@ == uk.user@
                        &&& r.1 matches Some(p) && p.deep_view() == RespV::LoginResponse(
                            ResponseV::Success(()),
                        )
                        &&& final(server)@ == spec_register(old(server)@, uk.user@, uk.public@)
                    } else {
                        &&& r.0 is Closed
                        &&& r.1 matches Some(p) && p.deep_view() == RespV::LoginResponse(
                            ResponseV::Error(login_err(old(server)@, uk.user@).spec_message()),
                        )
                        &&& final(server)@ == old(server)@
                    }
                },
                _ => r.0 is Closed && r.1 is None && final(server)@ == old(server)@,
            },
            SessionState::Active(u) => match event {
                SessionEvent::Inbound(req) => match req {
                    APIRequest::LoginRequest(_) => {
                        &&& r.0 == SessionState::Active(u)
                        &&& r.1 matches Some(p) && p.deep_view() == RespV::LoginResponse(
                            ResponseV::Error("Already logged in."@),
                        )
                        &&& final(server)@ == old(server)@
                    },
                    APIRequest::RefreshRoomKeysRequest => {
                        &&& r.0 == SessionState::Active(u)
                        &&& final(server)@ == old(server)@
                        &&& if assigned(old(server)@, u@) {
                            r.1 matches Some(p) && p.deep_view() == RespV::RefreshRoomKeysResponse(
                                ResponseV::Success(
                                    room_keys(
                                        server_room(old(server)@, assigned_room(old(server)@, u@)),
                                    ),
                                ),
                            )
                        } else {
                            r.1 matches Some(p) && p.deep_view() == RespV::RefreshRoomKeysResponse(
                                ResponseV::Error(ServerError::NotAssigned.spec_message()),
                            )
                        }
                    },
                    APIRequest::SendMessageRequest(to, ct) => {
                        &&& r.0 == SessionState::Active(u)
                        &&& if route_ok(old(server)@, u@, to@) {
                            &&& r.1 matches Some(p) && p.deep_view() == RespV::SendMessageResponse(
                                ResponseV::Success(()),
                            )
                            &&& final(server)@ == spec_route(
                                old(server)@,
                                MsgV { recipient: to@, ciphertext: ct@ },
                            )
                        } else {
                            &&& r.1 matches Some(p) && p.deep_view() == RespV::SendMessageResponse(
                                ResponseV::Error(route_err(old(server)@, u@, to@).spec_message()),
                            )
                            &&& final(server)@ == old(server)@
                        }
                    },
                    APIRequest::ListRoomsRequest => {
                        &&& r.0 == SessionState::Active(u)
                        &&& r.1 matches Some(p) && p.deep_view() == RespV::ListRoomsResponse(
                            ResponseV::Error("Not supported."@),
                        )
                        &&& final(server)@ == old(server)@
                    },
                    APIRequest::JoinRoomRequest(_) => {
                        &&& r.0 == SessionState::Active(u)
                        &&& r.1 matches Some(p) && p.deep_view() == RespV::JoinRoomResponse(
                            ResponseV::Error("Not supported."@),
                        )
                        &&& final(server)@ == old(server)@
                    },
                    APIRequest::LeaveRoom => {
                        &&& r.0 == SessionState::Active(u)
                        &&& r.1 matches Some(p) && p.deep_view() == RespV::JoinRoomResponse(
                            ResponseV::Error("Not supported."@),
                        )
                        &&& final(server)@ == old(server)@
                    },
                    APIRequest::Logout => {
                        &&& r.0 is Closed
                        &&& r.1 is None
                        &&& final(server)@ == spec_unregister(old(server)@, u@)
                    },
                },
                SessionEvent::Delivery(m) => {
                    &&& r.0 == SessionState::Active(u)
                    &&& r.1 matches Some(p) && p.deep_view() == RespV::PublishMessage(
                        m.ciphertext@,
                    )
                    &&& final(server)@ == old(server)@
                },
                SessionEvent::Disconnected => {
                    &&& r.0 is Closed
                    &&& r.1 is None
                    &&& final(server)@ == spec_unregister(old(server)@, u@)
                    &&& !assigned(final(server)@, u@)
                },
            },
        },
{
    match (state, event) {
        (SessionState::Closed, _) => (SessionState::Closed, None),
        (SessionState::AwaitingLogin, SessionEvent::Inbound(APIRequest::LoginRequest(uk))) => {
            match server.register_user(&uk.user, uk.public) {
                Ok(()) => (
                    SessionState::Active(uk.user),
                    Some(APIResponse::LoginResponse(Response::Success(()))),
                ),
                Err(e) => (
                    SessionState::Closed,
                    Some(APIResponse::LoginResponse(Response::Error(e.message()))),
                ),
            }
        },
        (SessionState::AwaitingLogin, _) => (SessionState::Closed, None),
        (SessionState::Active(u), SessionEvent::Inbound(req)) => match req {
            APIRequest::LoginRequest(_) => (
                SessionState::Active(u),
                Some(
                    APIResponse::LoginResponse(Response::Error("Already logged in.".to_owned())),
                ),
            ),
            APIRequest::RefreshRoomKeysRequest => {
                let resp = match server.roomkeys_for(&u) {
                    Ok(keys) => Response::Success(keys),
                    Err(e) => Response::Error(e.message()),
                };
                (SessionState::Active(u), Some(APIResponse::RefreshRoomKeysResponse(resp)))
            },
            APIRequest::SendMessageRequest(to, ct) => {
                let resp = match server.route(&u, &to, ct) {
                    Ok(()) => Response::Success(()),
                    Err(e) => Response::Error(e.message()),
                };
                (SessionState::Active(u), Some(APIResponse::SendMessageResponse(resp)))
            },
            APIRequest::ListRoomsRequest => (
                SessionState::Active(u),
                Some(APIResponse::ListRoomsResponse(Response::Error("Not supported.".to_owned()))),
            ),
            APIRequest::JoinRoomRequest(_) => (
                SessionState::Active(u),
                Some(APIResponse::JoinRoomResponse(Response::Error("Not supported.".to_owned()))),
            ),
            // The wire protocol has no response variant of its own for
            // leaving; the explicit refusal rides the room-membership
            // response, as joining does.
            APIRequest::LeaveRoom => (
                SessionState::Active(u),
                Some(APIResponse::JoinRoomResponse(Response::Error("Not supported.".to_owned()))),
            ),
            APIRequest::Logout => {
                server.unregister_user(&u);
                (SessionState::Closed, None)
            },
        },
        (SessionState::Active(u), SessionEvent::Delivery(m)) => (
            SessionState::Active(u),
            Some(APIResponse::PublishMessage(m.ciphertext)),
        ),
        (SessionState::Active(u), SessionEvent::Disconnected) => {
            server.unregister_user(&u);
            (SessionState::Closed, None)
        },
    }
}

} // verus!
