//! The crypto adapter: asymmetric keypair generation and per-message,
//! per-recipient public-key encryption, backed by OpenSSL's RSA with PKCS#1
//! padding.
//!
//! The primitives themselves are an external collaborator. What this module
//! states of them — and all that the rest of the crate relies on — is the
//! round trip: decrypting with the matching private key and passphrase gives
//! the message back. Encryption output is randomized (the padding draws fresh
//! randomness), so no contract names the ciphertext itself.

use vstd::prelude::*;
use vstd::string::StringSliceAdditionalSpecFns;
use vstd::utf8::encode_utf8;

use crate::types::{APIRequest, ReqV, UserKey, UserKeyV};

verus! {

/// The ways a cryptographic operation can fail. On the client these are
/// fatal for the one message only: it is reported and dropped.
#[derive(Debug, Clone, Copy, PartialEq, Eq, Structural)]
pub enum CryptoError {
    /// The key bytes do not hold a usable PEM-encoded key.
    InvalidKey,
    /// The plaintext exceeds the key's payload capacity. No chunking is
    /// done here: the caller must reject or split oversized messages.
    MessageTooLong,
    /// Wrong passphrase, wrong key, or corrupt ciphertext.
    DecryptionFailed,
}

/// That `public`, `private` and `passphrase` belong together: `private` is
/// the PEM of the private key matching `public`, encrypted at rest under
/// `passphrase`. Established by keypair generation, consumed by the round
/// trip.
pub uninterp spec fn key_matches(public: Seq<u8>, private: Seq<u8>, passphrase: Seq<u8>) -> bool;

/// What decrypting `ciphertext` with the private key PEM `private` under
/// `passphrase` yields; decryption is a function of these three alone.
/// Names the result of openssl's `Rsa::private_key_from_pem_passphrase`
/// followed by `private_decrypt` with PKCS#1 padding.
pub uninterp spec fn decryption_of(
    ciphertext: Seq<u8>,
    private: Seq<u8>,
    passphrase: Seq<u8>,
) -> Option<Seq<u8>>;

/// Whether `public` holds a PEM-encoded RSA public key, as openssl's
/// `Rsa::public_key_from_pem` accepts it.
pub uninterp spec fn valid_public_key(public: Seq<u8>) -> bool;

/// The modulus size of the key, in bytes. Names the result of openssl's
/// `Rsa::size` on the parsed key; PKCS#1 encryption accepts a plaintext of
/// at most this, less eleven bytes of padding.
pub uninterp spec fn key_size(public: Seq<u8>) -> nat;

/// A keypair as held by a client: the public key to hand out, the private
/// key PEM encrypted at rest under the passphrase, and the passphrase. The
/// server never sees the private material.
pub struct KeyData {
    pub public: Vec<u8>,
    pub private: Vec<u8>,
    pub passphrase: Vec<u8>,
}

impl KeyData {
    /// Generates a fresh 1024-bit RSA keypair whose private PEM is encrypted
    /// under `passphrase` with AES-128-CBC.
    ///
    /// Relies on openssl's `Rsa::generate`, `private_key_to_pem_passphrase`
    /// and `public_key_to_pem`: the exported pair matches, the public PEM
    /// parses back, and the modulus of a 1024-bit key is 128 bytes — which
    /// leaves 117 bytes of PKCS#1 payload capacity.
    #[verifier::external_body]
    pub fn from_passphrase(passphrase: &[u8]) -> (r: Self)
        ensures
            r.passphrase@ == passphrase@,
            key_matches(r.public@, r.private@, passphrase@),
            valid_public_key(r.public@),
            key_size(r.public@) == 128,
    {
        let rsa = openssl::rsa::Rsa::generate(1024).unwrap();
        KeyData {
            private: rsa
                .private_key_to_pem_passphrase(openssl::symm::Cipher::aes_128_cbc(), passphrase)
                .unwrap(),
            public: rsa.public_key_to_pem().unwrap(),
            passphrase: passphrase.to_vec(),
        }
    }
}

/// Encrypts `message` for the holder of `key`: whoever has the matching
/// private key and passphrase — and nobody else — gets the message bytes
/// back. Output is freshly randomized on every call.
///
/// Relies on openssl's `Rsa::public_key_from_pem` and `public_encrypt` with
/// PKCS#1 padding: encryption succeeds exactly on a parsable key and a
/// plaintext within its capacity, and decryption with the matching private
/// key inverts it.
#[verifier::external_body]
pub fn encrypt(message: &str, key: &Vec<u8>) -> (r: Result<Vec<u8>, CryptoError>)
    requires
        message.spec_bytes().len() <= 0x7fffffff,
    ensures
        r is Ok <==> (valid_public_key(key@) && message.spec_bytes().len() + 11 <= key_size(
            key@,
        )),
        r matches Ok(ct) ==> ct@.len() <= 0x7fffffff,
        r matches Ok(ct) ==> (forall|private: Seq<u8>, passphrase: Seq<u8>|
            key_matches(key@, private, passphrase) ==> decryption_of(ct@, private, passphrase)
                == Some(message.spec_bytes())),
        r matches Err(e) ==> e == (if !valid_public_key(key@) {
            CryptoError::InvalidKey
        } else {
            CryptoError::MessageTooLong
        }),
{
    let rsa = match openssl::rsa::Rsa::public_key_from_pem(key) {
        Ok(rsa) => rsa,
        Err(_) => {
            return Err(CryptoError::InvalidKey);
        },
    };
    let mut buf: Vec<u8> = vec![0; rsa.size() as usize];
    match rsa.public_encrypt(message.as_bytes(), &mut buf, openssl::rsa::Padding::PKCS1) {
        Ok(_) => Ok(buf),
        Err(_) => Err(CryptoError::MessageTooLong),
    }
}

/// Decrypts `encrypted` with the private key PEM `key` unlocked by
/// `passphrase`, failing on a wrong passphrase or corrupt ciphertext.
///
/// Relies on openssl's `Rsa::private_key_from_pem_passphrase` and
/// `private_decrypt` with PKCS#1 padding: a deterministic function of the
/// three inputs, named by [`decryption_of`].
#[verifier::external_body]
pub fn decrypt(encrypted: Vec<u8>, key: &Vec<u8>, passphrase: &Vec<u8>) -> (r: Result<
    Vec<u8>,
    CryptoError,
>)
    requires
        encrypted@.len() <= 0x7fffffff,
    ensures
        r is Ok <==> decryption_of(encrypted@, key@, passphrase@) is Some,
        r matches Ok(p) ==> Some(p@) == decryption_of(encrypted@, key@, passphrase@),
        r matches Err(e) ==> e == CryptoError::DecryptionFailed,
{
    let rsa = match openssl::rsa::Rsa::private_key_from_pem_passphrase(key, passphrase) {
        Ok(rsa) => rsa,
        Err(_) => {
            return Err(CryptoError::DecryptionFailed);
        },
    };
    let mut buf: Vec<u8> = vec![0; rsa.size() as usize];
    match rsa.private_decrypt(&encrypted, &mut buf, openssl::rsa::Padding::PKCS1) {
        Ok(n) => {
            buf.truncate(n);
            Ok(buf)
        },
        Err(_) => Err(CryptoError::DecryptionFailed),
    }
}

/// Generates a client keypair from an optional passphrase; a missing
/// passphrase is the empty one.
pub fn generate_key(passphrase_opt: Option<&str>) -> (r: KeyData)
    ensures
        key_matches(r.public@, r.private@, r.passphrase@),
        valid_public_key(r.public@),
        key_size(r.public@) == 128,
        r.passphrase@ == match passphrase_opt {
            Some(p) => p.spec_bytes(),
            None => Seq::<u8>::empty(),
        },
{
    let passphrase = match passphrase_opt {
        Some(p) => p.to_owned(),
        None => String::new(),
    };
    let r = KeyData::from_passphrase(passphrase.as_str().as_bytes());
    proof {
        if passphrase_opt is None {
            assert(passphrase@ =~= Seq::<char>::empty());
            assert(encode_utf8(passphrase@) =~= Seq::<u8>::empty());
        }
    }
    r
}

/// Law: the round trip — decrypting an encryption with the matching private
/// key and passphrase yields the message, for any message within the key's
/// payload capacity.
pub fn encrypt_then_decrypt(
    message: &str,
    public: &Vec<u8>,
    private: &Vec<u8>,
    passphrase: &Vec<u8>,
) -> (r: Option<Vec<u8>>)
    requires
        key_matches(public@, private@, passphrase@),
        valid_public_key(public@),
        message.spec_bytes().len() + 11 <= key_size(public@),
        message.spec_bytes().len() <= 0x7fffffff,
    ensures
        r is Some,
        r matches Some(p) ==> p@ == message.spec_bytes(),
{
    let ct = match encrypt(message, public) {
        Ok(ct) => ct,
        Err(_) => {
            proof {
                assert(false);
            }
            return None;
        },
    };
    match decrypt(ct, private, passphrase) {
        Ok(p) => Some(p),
        Err(_) => {
            proof {
                assert(false);
            }
            None
        },
    }
}

/// Generates a keypair from the passphrase and round-trips `message`
/// through it, checking the message against the key's capacity first: the
/// round-trip law, reachable without any assumption on the inputs.
pub fn keygen_round_trip(passphrase_opt: Option<&str>, message: &str) -> (r: Option<Vec<u8>>)
    ensures
        r matches Some(p) ==> p@ == message.spec_bytes(),
{
    let keys = generate_key(passphrase_opt);
    let bytes_len = message.as_bytes().len();
    if bytes_len <= 117 {
        encrypt_then_decrypt(message, &keys.public, &keys.private, &keys.passphrase)
    } else {
        None
    }
}

/// That `req` carries `message` encrypted for the member `k`: it addresses
/// `k`'s username, and its ciphertext decrypts to `message` under any
/// private key matching `k`'s public key.
pub open spec fn encrypts_for(req: ReqV, k: UserKeyV, message: Seq<u8>) -> bool {
    req matches ReqV::SendMessageRequest(to, ct) && to == k.user && (forall|
        private: Seq<u8>,
        passphrase: Seq<u8>,
    |
        key_matches(k.public, private, passphrase) ==> decryption_of(ct, private, passphrase)
            == Some(message))
}

/// Encrypts `message` once per room member — there is no shared room key —
/// and builds one send request per member, each addressed to that member
/// and readable by that member alone.
pub fn encrypt_for_all(message: &str, roomkeys: &Vec<UserKey>) -> (r: Result<
    Vec<APIRequest>,
    CryptoError,
>)
    requires
        message.spec_bytes().len() <= 0x7fffffff,
    ensures
        r is Ok <==> forall|i: int|
            0 <= i < roomkeys.deep_view().len() ==> valid_public_key(
                (#[trigger] roomkeys.deep_view()[i]).public,
            ) && message.spec_bytes().len() + 11 <= key_size(roomkeys.deep_view()[i].public),
        r matches Ok(v) ==> v.deep_view().len() == roomkeys.deep_view().len() && forall|i: int|
            0 <= i < v.deep_view().len() ==> encrypts_for(
                #[trigger] v.deep_view()[i],
                roomkeys.deep_view()[i],
                message.spec_bytes(),
            ),
{
    let n = roomkeys.len();
    let mut requests: Vec<APIRequest> = Vec::new();
    for i in 0..n
        invariant
            n == roomkeys.deep_view().len(),
            requests.deep_view().len() == i,
            message.spec_bytes().len() <= 0x7fffffff,
            forall|j: int|
                0 <= j < i ==> encrypts_for(
                    #[trigger] requests.deep_view()[j],
                    roomkeys.deep_view()[j],
                    message.spec_bytes(),
                ),
            forall|j: int|
                0 <= j < i ==> valid_public_key((#[trigger] roomkeys.deep_view()[j]).public)
                    && message.spec_bytes().len() + 11 <= key_size(
                    roomkeys.deep_view()[j].public,
                ),
    {
        let member = &roomkeys[i];
        proof {
            assert(roomkeys.deep_view()[i as int] == member@);
        }
        let ct = match encrypt(message, &member.public) {
            Ok(ct) => ct,
            Err(e) => {
                proof {
                    assert(!(valid_public_key(roomkeys.deep_view()[i as int].public)
                        && message.spec_bytes().len() + 11 <= key_size(
                        roomkeys.deep_view()[i as int].public,
                    )));
                }
                return Err(e);
            },
        };
        let to = member.user.clone();
        proof {
            assert(to@ == member@.user);
        }
        let ghost pre_dv = requests.deep_view();
        requests.push(APIRequest::SendMessageRequest(to, ct));
        proof {
            assert(requests.deep_view()[i as int] == ReqV::SendMessageRequest(member@.user, ct@));
            assert forall|j: int| 0 <= j < i + 1 implies encrypts_for(
                #[trigger] requests.deep_view()[j],
                roomkeys.deep_view()[j],
                message.spec_bytes(),
            ) by {
                if j < i as int {
                    assert(requests.deep_view()[j] == pre_dv[j]);
                } else {
                    assert(encrypts_for(
                        requests.deep_view()[i as int],
                        roomkeys.deep_view()[i as int],
                        message.spec_bytes(),
                    ));
                }
            }
        }
    }
    Ok(requests)
}

} // verus!
