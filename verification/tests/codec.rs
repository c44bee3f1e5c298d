use slychat::codec::{
    decode_request, decode_response, encode_request, encode_request_frame, encode_response,
    encode_response_frame, take_frame, FrameError, MAX_PAYLOAD_LEN,
};
use slychat::types::{APIRequest, APIResponse, Response, UserKey};

fn request_round_trip(m: APIRequest) {
    let payload = encode_request(&m).unwrap();
    assert_eq!(decode_request(&payload).unwrap(), m);
}

fn response_round_trip(m: APIResponse) {
    let payload = encode_response(&m).unwrap();
    assert_eq!(decode_response(&payload).unwrap(), m);
}

#[test]
fn request_variants_round_trip() {
    request_round_trip(APIRequest::LoginRequest(UserKey {
        user: "alice".to_string(),
        public: vec![1, 2, 3],
    }));
    request_round_trip(APIRequest::RefreshRoomKeysRequest);
    request_round_trip(APIRequest::SendMessageRequest("bob".to_string(), vec![9, 8, 7]));
    request_round_trip(APIRequest::ListRoomsRequest);
    request_round_trip(APIRequest::JoinRoomRequest("waiting".to_string()));
    request_round_trip(APIRequest::LeaveRoom);
    request_round_trip(APIRequest::Logout);
}

#[test]
fn request_with_non_ascii_name_round_trips() {
    request_round_trip(APIRequest::LoginRequest(UserKey {
        user: "ünïcødé 名前".to_string(),
        public: vec![0, 255, 128],
    }));
}

#[test]
fn response_variants_round_trip() {
    response_round_trip(APIResponse::LoginResponse(Response::Success(())));
    response_round_trip(APIResponse::LoginResponse(Response::Error("nope".to_string())));
    response_round_trip(APIResponse::RefreshRoomKeysResponse(Response::Success(vec![
        UserKey { user: "alice".to_string(), public: vec![1] },
        UserKey { user: "bob".to_string(), public: vec![2, 2] },
    ])));
    response_round_trip(APIResponse::RefreshRoomKeysResponse(Response::Error(
        "Invalid Chatroom".to_string(),
    )));
    response_round_trip(APIResponse::SendMessageResponse(Response::Success(())));
    response_round_trip(APIResponse::PublishMessage(vec![4, 5, 6]));
    response_round_trip(APIResponse::ListRoomsResponse(Response::Success(vec![
        "waiting".to_string(),
        "general".to_string(),
    ])));
    response_round_trip(APIResponse::ListRoomsResponse(Response::Error("no".to_string())));
    response_round_trip(APIResponse::JoinRoomResponse(Response::Error(
        "Not supported.".to_string(),
    )));
}

#[test]
fn empty_listing_round_trips() {
    response_round_trip(APIResponse::RefreshRoomKeysResponse(Response::Success(vec![])));
    response_round_trip(APIResponse::ListRoomsResponse(Response::Success(vec![])));
}

#[test]
fn framed_request_round_trips() {
    let m = APIRequest::SendMessageRequest("bob".to_string(), vec![1, 2, 3, 4]);
    let mut buf = encode_request_frame(&m).unwrap();
    let payload = take_frame(&mut buf).unwrap().expect("frame should be complete");
    assert!(buf.is_empty());
    assert_eq!(decode_request(&payload).unwrap(), m);
}

#[test]
fn partial_frame_waits_for_more_bytes() {
    let m = APIResponse::PublishMessage(vec![7; 32]);
    let frame = encode_response_frame(&m).unwrap();
    let mut buf: Vec<u8> = Vec::new();
    for (i, byte) in frame.iter().enumerate() {
        buf.push(*byte);
        if i + 1 < frame.len() {
            assert_eq!(take_frame(&mut buf).unwrap(), None);
        }
    }
    let payload = take_frame(&mut buf).unwrap().expect("complete at last byte");
    assert_eq!(decode_response(&payload).unwrap(), m);
}

#[test]
fn two_frames_in_one_buffer() {
    let m1 = APIRequest::RefreshRoomKeysRequest;
    let m2 = APIRequest::Logout;
    let mut buf = encode_request_frame(&m1).unwrap();
    buf.extend_from_slice(&encode_request_frame(&m2).unwrap());
    let p1 = take_frame(&mut buf).unwrap().unwrap();
    let p2 = take_frame(&mut buf).unwrap().unwrap();
    assert!(buf.is_empty());
    assert_eq!(decode_request(&p1).unwrap(), m1);
    assert_eq!(decode_request(&p2).unwrap(), m2);
}

#[test]
fn oversized_length_prefix_is_refused() {
    let too_long = (MAX_PAYLOAD_LEN as u32) + 1;
    let mut buf = too_long.to_be_bytes().to_vec();
    buf.push(0);
    assert_eq!(take_frame(&mut buf), Err(FrameError::TooLong));
}

#[test]
fn unknown_tag_is_malformed() {
    let payload = vec![42u8];
    assert_eq!(decode_request(&payload), Err(FrameError::Malformed));
    assert_eq!(decode_response(&payload), Err(FrameError::Malformed));
}

#[test]
fn empty_payload_is_malformed() {
    let payload: Vec<u8> = Vec::new();
    assert_eq!(decode_request(&payload), Err(FrameError::Malformed));
    assert_eq!(decode_response(&payload), Err(FrameError::Malformed));
}

#[test]
fn trailing_bytes_are_malformed() {
    let mut payload = encode_request(&APIRequest::Logout).unwrap();
    payload.push(0);
    assert_eq!(decode_request(&payload), Err(FrameError::Malformed));
}

#[test]
fn truncated_field_is_malformed() {
    let full = encode_request(&APIRequest::JoinRoomRequest("general".to_string())).unwrap();
    let payload = full[..full.len() - 1].to_vec();
    assert_eq!(decode_request(&payload), Err(FrameError::Malformed));
}

#[test]
fn invalid_utf8_in_string_field_is_malformed() {
    // Tag for a room join, then a 1-byte string that is not valid UTF-8.
    let payload = vec![4u8, 0, 0, 0, 1, 0xff];
    assert_eq!(decode_request(&payload), Err(FrameError::Malformed));
}

#[test]
fn oversized_payload_is_not_framed() {
    let m = APIRequest::SendMessageRequest("bob".to_string(), vec![0; MAX_PAYLOAD_LEN]);
    assert_eq!(encode_request_frame(&m), Err(FrameError::TooLong));
}
