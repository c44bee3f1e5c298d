//! Wire-level message types shared by client and server, together with the
//! mathematical views the contracts of this crate are stated over.

use vstd::prelude::*;

verus! {

/// A username paired with that user's public key, as carried in login
/// requests and room-key listings.
#[derive(Debug, Clone, PartialEq)]
pub struct UserKey {
    pub user: String,
    pub public: Vec<u8>,
}

/// Mathematical view of a [`UserKey`].
#[verifier::ext_equal]
pub struct UserKeyV {
    pub user: Seq<char>,
    pub public: Seq<u8>,
}

impl View for UserKey {
    type V = UserKeyV;

    open spec fn view(&self) -> UserKeyV {
        UserKeyV { user: self.user@, public: self.public@ }
    }
}

impl DeepView for UserKey {
    type V = UserKeyV;

    open spec fn deep_view(&self) -> UserKeyV {
        self.view()
    }
}

/// A response payload: either a success value or an error message, never
/// both.
#[derive(Debug, Clone, PartialEq)]
pub enum Response<T> {
    Success(T),
    Error(String),
}

/// Mathematical view of a [`Response`].
#[verifier::ext_equal]
pub enum ResponseV<V> {
    Success(V),
    Error(Seq<char>),
}

impl<T: DeepView> DeepView for Response<T> {
    type V = ResponseV<T::V>;

    open spec fn deep_view(&self) -> ResponseV<T::V> {
        match self {
            Response::Success(t) => ResponseV::Success(t.deep_view()),
            Response::Error(s) => ResponseV::Error(s@),
        }
    }
}

/// A request framed by a client and dispatched by the server's session loop.
#[derive(Debug, Clone, PartialEq)]
pub enum APIRequest {
    LoginRequest(UserKey),
    RefreshRoomKeysRequest,
    SendMessageRequest(String, Vec<u8>),
    ListRoomsRequest,
    JoinRoomRequest(String),
    LeaveRoom,
    Logout,
}

/// Mathematical view of an [`APIRequest`].
#[verifier::ext_equal]
pub enum ReqV {
    LoginRequest(UserKeyV),
    RefreshRoomKeysRequest,
    SendMessageRequest(Seq<char>, Seq<u8>),
    ListRoomsRequest,
    JoinRoomRequest(Seq<char>),
    LeaveRoom,
    Logout,
}

impl DeepView for APIRequest {
    type V = ReqV;

    open spec fn deep_view(&self) -> ReqV {
        match self {
            APIRequest::LoginRequest(k) => ReqV::LoginRequest(k@),
            APIRequest::RefreshRoomKeysRequest => ReqV::RefreshRoomKeysRequest,
            APIRequest::SendMessageRequest(u, c) => ReqV::SendMessageRequest(u@, c@),
            APIRequest::ListRoomsRequest => ReqV::ListRoomsRequest,
            APIRequest::JoinRoomRequest(r) => ReqV::JoinRoomRequest(r@),
            APIRequest::LeaveRoom => ReqV::LeaveRoom,
            APIRequest::Logout => ReqV::Logout,
        }
    }
}

/// A response framed by the server: a reply to a request, or a
/// server-initiated `PublishMessage` push.
#[derive(Debug, Clone, PartialEq)]
pub enum APIResponse {
    LoginResponse(Response<()>),
    RefreshRoomKeysResponse(Response<Vec<UserKey>>),
    SendMessageResponse(Response<()>),
    PublishMessage(Vec<u8>),
    ListRoomsResponse(Response<Vec<String>>),
    JoinRoomResponse(Response<()>),
}

/// Mathematical view of an [`APIResponse`].
#[verifier::ext_equal]
pub enum RespV {
    LoginResponse(ResponseV<()>),
    RefreshRoomKeysResponse(ResponseV<Seq<UserKeyV>>),
    SendMessageResponse(ResponseV<()>),
    PublishMessage(Seq<u8>),
    ListRoomsResponse(ResponseV<Seq<Seq<char>>>),
    JoinRoomResponse(ResponseV<()>),
}

impl DeepView for APIResponse {
    type V = RespV;

    open spec fn deep_view(&self) -> RespV {
        match self {
            APIResponse::LoginResponse(r) => RespV::LoginResponse(r.deep_view()),
            APIResponse::RefreshRoomKeysResponse(r) => RespV::RefreshRoomKeysResponse(
                r.deep_view(),
            ),
            APIResponse::SendMessageResponse(r) => RespV::SendMessageResponse(r.deep_view()),
            APIResponse::PublishMessage(c) => RespV::PublishMessage(c@),
            APIResponse::ListRoomsResponse(r) => RespV::ListRoomsResponse(r.deep_view()),
            APIResponse::JoinRoomResponse(r) => RespV::JoinRoomResponse(r.deep_view()),
        }
    }
}

/// A message queued for one recipient, awaiting delivery to that user's
/// connection.
#[derive(Debug, Clone, PartialEq)]
pub struct OutboundMessage {
    pub recipient: String,
    pub ciphertext: Vec<u8>,
}

/// Mathematical view of an [`OutboundMessage`].
#[verifier::ext_equal]
pub struct MsgV {
    pub recipient: Seq<char>,
    pub ciphertext: Seq<u8>,
}

impl View for OutboundMessage {
    type V = MsgV;

    open spec fn view(&self) -> MsgV {
        MsgV { recipient: self.recipient@, ciphertext: self.ciphertext@ }
    }
}

impl DeepView for OutboundMessage {
    type V = MsgV;

    open spec fn deep_view(&self) -> MsgV {
        self.view()
    }
}

} // verus!
