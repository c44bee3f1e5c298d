use slychat::crypto::{
    decrypt, encrypt, encrypt_for_all, encrypt_then_decrypt, generate_key, keygen_round_trip,
    CryptoError, KeyData,
};
use slychat::types::{APIRequest, UserKey};
use std::str;

#[test]
fn encrypt_decrypt_message() {
    let initial_message = "test message";

    let key = KeyData::from_passphrase("test".as_bytes());
    let encrypted = encrypt(initial_message, &key.public).unwrap();
    let decrypted_message = decrypt(encrypted, &key.private, &key.passphrase).unwrap();

    let str_decrypted_message = str::from_utf8(&decrypted_message)
        .expect("Failed to decrypt message.")
        .replace("\x00", "");
    assert_eq!(initial_message, str_decrypted_message);
}

#[test]
fn round_trip_through_generated_key() {
    let keys = generate_key(Some("hello"));
    let message = "a short secret";
    let plain = encrypt_then_decrypt(message, &keys.public, &keys.private, &keys.passphrase)
        .expect("round trip failed");
    assert_eq!(plain, message.as_bytes());
}

#[test]
fn round_trip_with_empty_passphrase() {
    let keys = generate_key(None);
    assert!(keys.passphrase.is_empty());
    let plain = encrypt_then_decrypt("x", &keys.public, &keys.private, &keys.passphrase).unwrap();
    assert_eq!(plain, b"x");
}

#[test]
fn keygen_round_trip_checks_capacity() {
    assert_eq!(
        keygen_round_trip(Some("pw"), "fits easily").unwrap(),
        b"fits easily"
    );
    let long = "y".repeat(200);
    assert!(keygen_round_trip(Some("pw"), &long).is_none());
}

#[test]
fn oversized_message_is_rejected() {
    let keys = generate_key(Some("pw"));
    let long = "z".repeat(118);
    assert_eq!(encrypt(&long, &keys.public), Err(CryptoError::MessageTooLong));
    let boundary = "z".repeat(117);
    assert!(encrypt(&boundary, &keys.public).is_ok());
}

#[test]
fn invalid_public_key_is_rejected() {
    let garbage = vec![1u8, 2, 3, 4];
    assert_eq!(encrypt("msg", &garbage), Err(CryptoError::InvalidKey));
}

#[test]
fn wrong_passphrase_fails_decryption() {
    let keys = generate_key(Some("right"));
    let ct = encrypt("msg", &keys.public).unwrap();
    let wrong = b"wrong".to_vec();
    assert_eq!(
        decrypt(ct, &keys.private, &wrong),
        Err(CryptoError::DecryptionFailed)
    );
}

#[test]
fn corrupt_ciphertext_fails_decryption() {
    let keys = generate_key(Some("pw"));
    let ct = vec![0u8; 128];
    assert_eq!(
        decrypt(ct, &keys.private, &keys.passphrase),
        Err(CryptoError::DecryptionFailed)
    );
}

#[test]
fn encrypt_for_all_addresses_each_member() {
    let alice = generate_key(Some("a"));
    let bob = generate_key(Some("b"));
    let roomkeys = vec![
        UserKey { user: "alice".to_string(), public: alice.public.clone() },
        UserKey { user: "bob".to_string(), public: bob.public.clone() },
    ];
    let requests = encrypt_for_all("hi room", &roomkeys).unwrap();
    assert_eq!(requests.len(), 2);
    match &requests[0] {
        APIRequest::SendMessageRequest(to, ct) => {
            assert_eq!(to, "alice");
            let plain = decrypt(ct.clone(), &alice.private, &alice.passphrase).unwrap();
            assert_eq!(plain, b"hi room");
        }
        other => panic!("unexpected request: {:?}", other),
    }
    match &requests[1] {
        APIRequest::SendMessageRequest(to, ct) => {
            assert_eq!(to, "bob");
            let plain = decrypt(ct.clone(), &bob.private, &bob.passphrase).unwrap();
            assert_eq!(plain, b"hi room");
        }
        other => panic!("unexpected request: {:?}", other),
    }
}
