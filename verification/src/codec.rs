//! The wire codec: length-delimited framing and a typed, self-describing
//! tagged encoding of every request and response variant.
//!
//! A frame is a 4-byte big-endian payload length followed by the payload.
//! The payload is one tagged variant: a tag byte, then the fields, each
//! length-prefixed. Strings travel as UTF-8. The encoders and decoders are
//! exact inverses, and the decoders accept nothing but a complete, canonical
//! encoding: a malformed payload is an error, with no partial recovery.

use vstd::prelude::*;
use vstd::arithmetic::div_mod::lemma_fundamental_div_mod_converse;
use vstd::string::StringSliceAdditionalSpecFns;
use vstd::utf8::{
    decode_utf8, decode_utf8_encode_utf8, encode_utf8, encode_utf8_decode_utf8,
    encode_utf8_valid_utf8, valid_utf8,
};

use crate::types::{APIRequest, APIResponse, ReqV, RespV, Response, ResponseV, UserKey, UserKeyV};

verus! {

/// The longest payload a frame may carry. A longer length prefix is refused
/// before any allocation: the guard against memory exhaustion by a hostile
/// peer.
pub const MAX_PAYLOAD_LEN: usize = 65536;

/// The ways framing or decoding fails. All of them are fatal to the
/// connection they occur on.
#[derive(Debug, Clone, Copy, PartialEq, Eq, Structural)]
pub enum FrameError {
    /// The length prefix exceeds the configured maximum, or a value is too
    /// large to encode.
    TooLong,
    /// The connection closed in the middle of a frame.
    Truncated,
    /// The payload is not the encoding of any known variant.
    Malformed,
}

/// The 4-byte big-endian encoding of `n`.
pub open spec fn be32(n: nat) -> Seq<u8>
    recommends
        n < 0x100000000,
{
    seq![
        ((n / 0x1000000) % 0x100) as u8,
        ((n / 0x10000) % 0x100) as u8,
        ((n / 0x100) % 0x100) as u8,
        (n % 0x100) as u8,
    ]
}

/// The value of 4 bytes read as big-endian.
pub open spec fn be32_val(b: Seq<u8>) -> nat
    recommends
        b.len() >= 4,
{
    (b[0] as nat) * 0x1000000 + (b[1] as nat) * 0x10000 + (b[2] as nat) * 0x100 + (b[3] as nat)
}

/// A value below `2^32` is the big-endian value of its own encoding.
pub proof fn lemma_be32_decompose(n: nat)
    requires
        n < 0x100000000,
    ensures
        be32(n).len() == 4,
        be32_val(be32(n)) == n,
{
    let b0 = (n / 0x1000000) % 0x100;
    let b1 = (n / 0x10000) % 0x100;
    let b2 = (n / 0x100) % 0x100;
    let b3 = n % 0x100;
    assert(n / 0x1000000 < 0x100) by (nonlinear_arith)
        requires
            n < 0x100000000,
    ;
    assert(b0 == n / 0x1000000);
    assert(n == 0x1000000 * (n / 0x1000000) + n % 0x1000000) by {
        vstd::arithmetic::div_mod::lemma_fundamental_div_mod(n as int, 0x1000000);
    }
    let r1 = n % 0x1000000;
    assert(r1 < 0x1000000);
    assert(r1 / 0x10000 < 0x100) by (nonlinear_arith)
        requires
            r1 < 0x1000000,
    ;
    assert(n / 0x10000 == (0x1000000 * (n / 0x1000000) + r1) / 0x10000);
    assert((0x1000000 * (n / 0x1000000) + r1) / 0x10000 == 0x100 * (n / 0x1000000) + r1
        / 0x10000) by (nonlinear_arith)
        requires
            r1 < 0x1000000,
    ;
    assert((n / 0x10000) % 0x100 == r1 / 0x10000) by (nonlinear_arith)
        requires
            n / 0x10000 == 0x100 * (n / 0x1000000) + r1 / 0x10000,
            r1 / 0x10000 < 0x100,
    ;
    assert(b1 == r1 / 0x10000);
    assert(r1 == 0x10000 * (r1 / 0x10000) + r1 % 0x10000) by {
        vstd::arithmetic::div_mod::lemma_fundamental_div_mod(r1 as int, 0x10000);
    }
    let r2 = r1 % 0x10000;
    assert(r2 < 0x10000);
    assert(r1 % 0x10000 == n % 0x10000) by (nonlinear_arith)
        requires
            r1 == n % 0x1000000,
    ;
    assert(r2 / 0x100 < 0x100) by (nonlinear_arith)
        requires
            r2 < 0x10000,
    ;
    assert(n / 0x100 == (0x1000000 * (n / 0x1000000) + 0x10000 * (r1 / 0x10000) + r2) / 0x100);
    assert((0x1000000 * (n / 0x1000000) + 0x10000 * (r1 / 0x10000) + r2) / 0x100 == 0x10000 * (n
        / 0x1000000) + 0x100 * (r1 / 0x10000) + r2 / 0x100) by (nonlinear_arith)
        requires
            r2 < 0x10000,
    ;
    assert((n / 0x100) % 0x100 == r2 / 0x100) by (nonlinear_arith)
        requires
            n / 0x100 == 0x10000 * (n / 0x1000000) + 0x100 * (r1 / 0x10000) + r2 / 0x100,
            r2 / 0x100 < 0x100,
    ;
    assert(b2 == r2 / 0x100);
    assert(r2 == 0x100 * (r2 / 0x100) + r2 % 0x100) by {
        vstd::arithmetic::div_mod::lemma_fundamental_div_mod(r2 as int, 0x100);
    }
    assert(r2 % 0x100 == n % 0x100) by (nonlinear_arith)
        requires
            r2 == n % 0x10000,
    ;
    assert(b3 == r2 % 0x100);
    assert(n == b0 * 0x1000000 + b1 * 0x10000 + b2 * 0x100 + b3);
}

/// The big-endian encoding of the value of any 4 bytes is those bytes.
pub proof fn lemma_be32_of_bytes(b0: u8, b1: u8, b2: u8, b3: u8)
    ensures
        be32(
            (b0 as nat) * 0x1000000 + (b1 as nat) * 0x10000 + (b2 as nat) * 0x100 + (b3 as nat),
        ) =~= seq![b0, b1, b2, b3],
{
    let n = (b0 as nat) * 0x1000000 + (b1 as nat) * 0x10000 + (b2 as nat) * 0x100 + (b3 as nat);
    let r1 = (b1 as nat) * 0x10000 + (b2 as nat) * 0x100 + (b3 as nat);
    lemma_fundamental_div_mod_converse(n as int, 0x1000000, b0 as int, r1 as int);
    assert(n / 0x1000000 == b0 as int && n % 0x1000000 == r1);
    assert((n / 0x1000000) % 0x100 == b0 as nat) by (nonlinear_arith)
        requires
            n / 0x1000000 == b0 as int,
            b0 < 0x100,
    ;
    let r2 = (b2 as nat) * 0x100 + (b3 as nat);
    lemma_fundamental_div_mod_converse(
        n as int,
        0x10000,
        ((b0 as nat) * 0x100 + (b1 as nat)) as int,
        r2 as int,
    );
    assert((n / 0x10000) % 0x100 == b1 as nat) by (nonlinear_arith)
        requires
            n / 0x10000 == (b0 as nat) * 0x100 + (b1 as nat),
            b1 < 0x100,
    ;
    lemma_fundamental_div_mod_converse(
        n as int,
        0x100,
        ((b0 as nat) * 0x10000 + (b1 as nat) * 0x100 + (b2 as nat)) as int,
        b3 as int,
    );
    assert((n / 0x100) % 0x100 == b2 as nat) by (nonlinear_arith)
        requires
            n / 0x100 == (b0 as nat) * 0x10000 + (b1 as nat) * 0x100 + (b2 as nat),
            b2 < 0x100,
    ;
    assert(n % 0x100 == b3 as nat);
}

/// Big-endian encoding is injective.
pub proof fn lemma_be32_injective(x: nat, y: nat)
    requires
        x < 0x100000000,
        y < 0x100000000,
        be32(x) == be32(y),
    ensures
        x == y,
{
    lemma_be32_decompose(x);
    lemma_be32_decompose(y);
}

/// That `piece` stands in `buf` beginning at `pos`.
pub open spec fn parses_at(buf: Seq<u8>, pos: int, piece: Seq<u8>) -> bool {
    &&& 0 <= pos
    &&& pos + piece.len() <= buf.len()
    &&& buf.subrange(pos, pos + piece.len()) == piece
}

/// A byte string is its own encoding standing at the start of itself.
pub proof fn lemma_parses_whole(buf: Seq<u8>, piece: Seq<u8>)
    requires
        buf == piece,
    ensures
        parses_at(buf, 0, piece),
{
    assert(buf.subrange(0, piece.len() as int) =~= piece);
}

/// A concatenation standing at `pos` is its parts standing in sequence.
pub proof fn lemma_parses_at_split(buf: Seq<u8>, pos: int, a: Seq<u8>, b: Seq<u8>)
    requires
        parses_at(buf, pos, a + b),
    ensures
        parses_at(buf, pos, a),
        parses_at(buf, pos + a.len(), b),
{
    let ab = a + b;
    assert forall|k: int| 0 <= k < a.len() implies buf.subrange(pos, pos + a.len())[k] == a[k] by {
        assert(buf.subrange(pos, pos + ab.len())[k] == ab[k]);
    }
    assert(buf.subrange(pos, pos + a.len()) =~= a);
    assert forall|k: int|
        0 <= k < b.len() implies buf.subrange(pos + a.len(), pos + a.len() + b.len())[k] == b[
        k] by {
        assert(buf.subrange(pos, pos + ab.len())[a.len() + k] == ab[a.len() + k]);
    }
    assert(buf.subrange(pos + a.len(), pos + a.len() + b.len()) =~= b);
}

/// Parts standing in sequence at `pos` are their concatenation standing at
/// `pos`.
pub proof fn lemma_parses_at_join(buf: Seq<u8>, pos: int, a: Seq<u8>, b: Seq<u8>)
    requires
        parses_at(buf, pos, a),
        parses_at(buf, pos + a.len(), b),
    ensures
        parses_at(buf, pos, a + b),
{
    assert(buf.subrange(pos, pos + (a + b).len()) =~= a + b);
}

/// Appends the 4-byte big-endian encoding of `n`.
fn write_u32(out: &mut Vec<u8>, n: u32)
    ensures
        final(out)@ == old(out)@ + be32(n as nat),
{
    out.push((n / 0x1000000 % 0x100) as u8);
    out.push((n / 0x10000 % 0x100) as u8);
    out.push((n / 0x100 % 0x100) as u8);
    out.push((n % 0x100) as u8);
    proof {
        assert(final(out)@ =~= old(out)@ + be32(n as nat));
    }
}

/// Reads the byte at `pos`.
fn read_u8(buf: &Vec<u8>, pos: usize) -> (r: Result<(u8, usize), FrameError>)
    ensures
        r is Ok <==> pos < buf@.len(),
        r matches Ok(p) ==> p.0 == buf@[pos as int] && p.1 == pos + 1,
        r matches Err(e) ==> e == FrameError::Malformed,
{
    if pos < buf.len() {
        Ok((buf[pos], pos + 1))
    } else {
        Err(FrameError::Malformed)
    }
}

/// Reads a 4-byte big-endian value at `pos`.
fn read_u32(buf: &Vec<u8>, pos: usize) -> (r: Result<(u32, usize), FrameError>)
    ensures
        r is Ok <==> pos + 4 <= buf@.len(),
        r matches Ok(p) ==> p.1 == pos + 4 && parses_at(buf@, pos as int, be32(p.0 as nat)),
        r matches Err(e) ==> e == FrameError::Malformed,
{
    if pos >= buf.len() || buf.len() - pos < 4 {
        return Err(FrameError::Malformed);
    }
    let b0 = buf[pos];
    let b1 = buf[pos + 1];
    let b2 = buf[pos + 2];
    let b3 = buf[pos + 3];
    let n: u32 = (b0 as u32) * 0x1000000 + (b1 as u32) * 0x10000 + (b2 as u32) * 0x100 + (
    b3 as u32);
    proof {
        lemma_be32_of_bytes(b0, b1, b2, b3);
        assert(buf@.subrange(pos as int, pos + 4) =~= seq![b0, b1, b2, b3]);
    }
    Ok((n, pos + 4))
}

/// The encoding of a byte string: its length, then its bytes.
pub open spec fn enc_bytes(b: Seq<u8>) -> Seq<u8>
    recommends
        b.len() < 0x100000000,
{
    be32(b.len()) + b
}

/// The encoding of a string: its UTF-8, length-prefixed.
pub open spec fn enc_str(s: Seq<char>) -> Seq<u8> {
    enc_bytes(encode_utf8(s))
}

/// The encoding of a `(username, publicKey)` pair.
pub open spec fn enc_userkey(k: UserKeyV) -> Seq<u8> {
    enc_str(k.user) + enc_bytes(k.public)
}

/// The encodings of a run of pairs, in order.
pub open spec fn enc_userkey_list(ks: Seq<UserKeyV>) -> Seq<u8>
    decreases ks.len(),
{
    if ks.len() == 0 {
        Seq::empty()
    } else {
        enc_userkey(ks[0]) + enc_userkey_list(ks.drop_first())
    }
}

/// The encoding of a pair listing: its count, then the pairs.
pub open spec fn enc_userkeys(ks: Seq<UserKeyV>) -> Seq<u8> {
    be32(ks.len()) + enc_userkey_list(ks)
}

/// The encodings of a run of strings, in order.
pub open spec fn enc_str_list(ss: Seq<Seq<char>>) -> Seq<u8>
    decreases ss.len(),
{
    if ss.len() == 0 {
        Seq::empty()
    } else {
        enc_str(ss[0]) + enc_str_list(ss.drop_first())
    }
}

/// The encoding of a string listing: its count, then the strings.
pub open spec fn enc_strs(ss: Seq<Seq<char>>) -> Seq<u8> {
    be32(ss.len()) + enc_str_list(ss)
}

/// Whether a byte string's length fits its length field.
pub open spec fn bytes_encodable(b: Seq<u8>) -> bool {
    b.len() < 0x100000000
}

/// Whether a string's UTF-8 length fits its length field.
pub open spec fn str_encodable(s: Seq<char>) -> bool {
    encode_utf8(s).len() < 0x100000000
}

/// Whether a pair's fields fit their length fields.
pub open spec fn userkey_encodable(k: UserKeyV) -> bool {
    str_encodable(k.user) && bytes_encodable(k.public)
}

/// Whether a pair listing fits its count and length fields.
pub open spec fn userkeys_encodable(ks: Seq<UserKeyV>) -> bool {
    ks.len() < 0x100000000 && (forall|i: int|
        0 <= i < ks.len() ==> userkey_encodable(#[trigger] ks[i]))
}

/// Whether a string listing fits its count and length fields.
pub open spec fn strs_encodable(ss: Seq<Seq<char>>) -> bool {
    ss.len() < 0x100000000 && (forall|i: int| 0 <= i < ss.len() ==> str_encodable(#[trigger] ss[i]))
}

/// Relies on `String::from_utf8`: it accepts exactly the valid UTF-8 byte
/// strings and yields the characters they encode.
#[verifier::external_body]
fn string_from_utf8(v: Vec<u8>) -> (r: Option<String>)
    ensures
        r is Some <==> valid_utf8(v@),
        r matches Some(s) ==> s@ == decode_utf8(v@),
{
    String::from_utf8(v).ok()
}

/// Appends the length-prefixed encoding of `b`, refusing a length that
/// overflows the length field.
fn write_bytes(out: &mut Vec<u8>, b: &Vec<u8>) -> (r: Result<(), FrameError>)
    ensures
        r is Ok <==> bytes_encodable(b@),
        r is Ok ==> final(out)@ == old(out)@ + enc_bytes(b@),
        r is Err ==> final(out)@ == old(out)@ && r matches Err(FrameError::TooLong),
{
    if b.len() > 0xffffffff {
        return Err(FrameError::TooLong);
    }
    write_u32(out, b.len() as u32);
    let ghost mid = out@;
    out.extend_from_slice(b.as_slice());
    proof {
        assert(out@ =~= mid + b@);
        assert(out@ =~= old(out)@ + enc_bytes(b@));
    }
    Ok(())
}

/// Appends the length-prefixed UTF-8 encoding of `s`, refusing a length
/// that overflows the length field.
fn write_str(out: &mut Vec<u8>, s: &String) -> (r: Result<(), FrameError>)
    ensures
        r is Ok <==> str_encodable(s@),
        r is Ok ==> final(out)@ == old(out)@ + enc_str(s@),
        r is Err ==> final(out)@ == old(out)@ && r matches Err(FrameError::TooLong),
{
    let bytes = s.as_str().as_bytes();
    if bytes.len() > 0xffffffff {
        return Err(FrameError::TooLong);
    }
    write_u32(out, bytes.len() as u32);
    let ghost mid = out@;
    out.extend_from_slice(bytes);
    proof {
        assert(out@ =~= mid + bytes@);
        assert(out@ =~= old(out)@ + enc_str(s@));
    }
    Ok(())
}

/// Reads a length-prefixed byte string at `pos`.
fn read_bytes(buf: &Vec<u8>, pos: usize) -> (r: Result<(Vec<u8>, usize), FrameError>)
    ensures
        r matches Ok(p) ==> bytes_encodable(p.0@) && parses_at(buf@, pos as int, enc_bytes(p.0@))
            && p.1 == pos + enc_bytes(p.0@).len(),
        r matches Err(e) ==> e == FrameError::Malformed,
        forall|b: Seq<u8>|
            bytes_encodable(b) && parses_at(buf@, pos as int, #[trigger] enc_bytes(b)) ==> (
            r matches Ok(p) && p.0@ == b && p.1 == pos + enc_bytes(b).len()),
{
    let (n, body) = match read_u32(buf, pos) {
        Ok(p) => p,
        Err(e) => {
            proof {
                assert forall|b: Seq<u8>|
                    bytes_encodable(b) && parses_at(
                        buf@,
                        pos as int,
                        #[trigger] enc_bytes(b),
                    ) implies false by {
                    lemma_parses_at_split(buf@, pos as int, be32(b.len()), b);
                }
            }
            return Err(e);
        },
    };
    let n_usize = n as usize;
    if buf.len() - body < n_usize {
        proof {
            assert forall|b: Seq<u8>|
                bytes_encodable(b) && parses_at(
                    buf@,
                    pos as int,
                    #[trigger] enc_bytes(b),
                ) implies false by {
                lemma_parses_at_split(buf@, pos as int, be32(b.len()), b);
                lemma_be32_injective(b.len(), n as nat);
            }
        }
        return Err(FrameError::Malformed);
    }
    let mut v: Vec<u8> = Vec::new();
    for k in 0..n_usize
        invariant
            body + n_usize <= buf@.len(),
            buf@.len() <= usize::MAX,
            v@ =~= buf@.subrange(body as int, body + k),
    {
        v.push(buf[body + k]);
        proof {
            assert(v@ =~= buf@.subrange(body as int, body + k + 1));
        }
    }
    proof {
        assert(parses_at(buf@, pos as int, enc_bytes(v@))) by {
            assert(v@.len() == n as nat);
            assert(parses_at(buf@, pos as int, be32(v@.len())));
            assert(parses_at(buf@, body as int, v@));
            lemma_parses_at_join(buf@, pos as int, be32(v@.len()), v@);
        }
        assert forall|b: Seq<u8>|
            bytes_encodable(b) && parses_at(buf@, pos as int, #[trigger] enc_bytes(b)) implies v@
            == b by {
            lemma_parses_at_split(buf@, pos as int, be32(b.len()), b);
            lemma_be32_injective(b.len(), n as nat);
            assert(b =~= buf@.subrange(body as int, body + n_usize));
        }
    }
    Ok((v, body + n_usize))
}

/// Reads a length-prefixed UTF-8 string at `pos`.
fn read_string(buf: &Vec<u8>, pos: usize) -> (r: Result<(String, usize), FrameError>)
    ensures
        r matches Ok(p) ==> str_encodable(p.0@) && parses_at(buf@, pos as int, enc_str(p.0@))
            && p.1 == pos + enc_str(p.0@).len(),
        r matches Err(e) ==> e == FrameError::Malformed,
        forall|t: Seq<char>|
            str_encodable(t) && parses_at(buf@, pos as int, #[trigger] enc_str(t)) ==> (
            r matches Ok(p) && p.0@ == t && p.1 == pos + enc_str(t).len()),
{
    let (v, j) = match read_bytes(buf, pos) {
        Ok(p) => p,
        Err(e) => {
            return Err(e);
        },
    };
    let ghost vv = v@;
    match string_from_utf8(v) {
        Some(s) => {
            proof {
                decode_utf8_encode_utf8(vv);
                assert(enc_str(s@) == enc_bytes(vv));
                assert forall|t: Seq<char>|
                    str_encodable(t) && parses_at(buf@, pos as int, #[trigger] enc_str(t)) implies s@
                    == t && j == pos + enc_str(t).len() by {
                    assert(vv == encode_utf8(t));
                    encode_utf8_decode_utf8(t);
                }
            }
            Ok((s, j))
        },
        None => {
            proof {
                assert forall|t: Seq<char>|
                    str_encodable(t) && parses_at(
                        buf@,
                        pos as int,
                        #[trigger] enc_str(t),
                    ) implies false by {
                    assert(vv == encode_utf8(t));
                    encode_utf8_valid_utf8(t);
                }
            }
            Err(FrameError::Malformed)
        },
    }
}

/// Splitting off the last element of a run splits its encoding.
pub proof fn lemma_enc_userkey_list_snoc(ks: Seq<UserKeyV>, k: UserKeyV)
    ensures
        enc_userkey_list(ks.push(k)) == enc_userkey_list(ks) + enc_userkey(k),
    decreases ks.len(),
{
    if ks.len() == 0 {
        let single = ks.push(k);
        assert(single.drop_first() =~= Seq::<UserKeyV>::empty());
        assert(enc_userkey_list(single.drop_first()) =~= Seq::<u8>::empty());
        assert(enc_userkey_list(single) == enc_userkey(single[0]) + enc_userkey_list(
            single.drop_first(),
        ));
        assert(enc_userkey_list(single) =~= enc_userkey(k));
        assert(enc_userkey_list(ks) + enc_userkey(k) =~= enc_userkey(k));
    } else {
        assert(ks.push(k).drop_first() =~= ks.drop_first().push(k));
        lemma_enc_userkey_list_snoc(ks.drop_first(), k);
        assert(enc_userkey_list(ks.push(k)) =~= enc_userkey_list(ks) + enc_userkey(k));
    }
}

/// Splitting off the last string of a run splits its encoding.
pub proof fn lemma_enc_str_list_snoc(ss: Seq<Seq<char>>, s: Seq<char>)
    ensures
        enc_str_list(ss.push(s)) == enc_str_list(ss) + enc_str(s),
    decreases ss.len(),
{
    if ss.len() == 0 {
        let single = ss.push(s);
        assert(single.drop_first() =~= Seq::<Seq<char>>::empty());
        assert(enc_str_list(single.drop_first()) =~= Seq::<u8>::empty());
        assert(enc_str_list(single) == enc_str(single[0]) + enc_str_list(single.drop_first()));
        assert(enc_str_list(single) =~= enc_str(s));
        assert(enc_str_list(ss) + enc_str(s) =~= enc_str(s));
    } else {
        assert(ss.push(s).drop_first() =~= ss.drop_first().push(s));
        lemma_enc_str_list_snoc(ss.drop_first(), s);
        assert(enc_str_list(ss.push(s)) =~= enc_str_list(ss) + enc_str(s));
    }
}

/// Appends the encoding of one `(username, publicKey)` pair.
fn write_userkey(out: &mut Vec<u8>, k: &UserKey) -> (r: Result<(), FrameError>)
    ensures
        r is Ok <==> userkey_encodable(k@),
        r is Ok ==> final(out)@ == old(out)@ + enc_userkey(k@),
        r is Err ==> r matches Err(FrameError::TooLong),
{
    let ghost pre = out@;
    if let Err(e) = write_str(out, &k.user) {
        return Err(e);
    }
    if let Err(e) = write_bytes(out, &k.public) {
        return Err(e);
    }
    proof {
        assert(out@ =~= pre + enc_userkey(k@));
    }
    Ok(())
}

/// Appends the count-prefixed encoding of a pair listing.
fn write_userkeys(out: &mut Vec<u8>, ks: &Vec<UserKey>) -> (r: Result<(), FrameError>)
    ensures
        r is Ok <==> userkeys_encodable(ks.deep_view()),
        r is Ok ==> final(out)@ == old(out)@ + enc_userkeys(ks.deep_view()),
        r is Err ==> r matches Err(FrameError::TooLong),
{
    let n = ks.len();
    if n > 0xffffffff {
        return Err(FrameError::TooLong);
    }
    write_u32(out, n as u32);
    let ghost head = out@;
    for i in 0..n
        invariant
            n == ks.deep_view().len(),
            out@ == head + enc_userkey_list(ks.deep_view().take(i as int)),
            forall|j: int| 0 <= j < i ==> userkey_encodable(#[trigger] ks.deep_view()[j]),
    {
        let ghost prefix = ks.deep_view().take(i as int);
        match write_userkey(out, &ks[i]) {
            Ok(()) => {
                proof {
                    assert(ks.deep_view()[i as int] == ks@[i as int]@);
                    lemma_enc_userkey_list_snoc(prefix, ks.deep_view()[i as int]);
                    assert(prefix.push(ks.deep_view()[i as int]) =~= ks.deep_view().take(
                        i + 1,
                    ));
                    assert(out@ =~= head + enc_userkey_list(ks.deep_view().take(i + 1)));
                }
            },
            Err(e) => {
                proof {
                    assert(!userkey_encodable(ks.deep_view()[i as int]));
                }
                return Err(e);
            },
        }
    }
    proof {
        assert(ks.deep_view().take(n as int) =~= ks.deep_view());
        assert(out@ =~= old(out)@ + enc_userkeys(ks.deep_view()));
    }
    Ok(())
}

/// Appends the count-prefixed encoding of a string listing.
fn write_strs(out: &mut Vec<u8>, ss: &Vec<String>) -> (r: Result<(), FrameError>)
    ensures
        r is Ok <==> strs_encodable(ss.deep_view()),
        r is Ok ==> final(out)@ == old(out)@ + enc_strs(ss.deep_view()),
        r is Err ==> r matches Err(FrameError::TooLong),
{
    let n = ss.len();
    if n > 0xffffffff {
        return Err(FrameError::TooLong);
    }
    write_u32(out, n as u32);
    let ghost head = out@;
    for i in 0..n
        invariant
            n == ss.deep_view().len(),
            out@ == head + enc_str_list(ss.deep_view().take(i as int)),
            forall|j: int| 0 <= j < i ==> str_encodable(#[trigger] ss.deep_view()[j]),
    {
        let ghost prefix = ss.deep_view().take(i as int);
        match write_str(out, &ss[i]) {
            Ok(()) => {
                proof {
                    assert(ss.deep_view()[i as int] == ss@[i as int]@);
                    lemma_enc_str_list_snoc(prefix, ss.deep_view()[i as int]);
                    assert(prefix.push(ss.deep_view()[i as int]) =~= ss.deep_view().take(i + 1));
                    assert(out@ =~= head + enc_str_list(ss.deep_view().take(i + 1)));
                }
            },
            Err(e) => {
                proof {
                    assert(!str_encodable(ss.deep_view()[i as int]));
                }
                return Err(e);
            },
        }
    }
    proof {
        assert(ss.deep_view().take(n as int) =~= ss.deep_view());
        assert(out@ =~= old(out)@ + enc_strs(ss.deep_view()));
    }
    Ok(())
}

/// Reads one `(username, publicKey)` pair at `pos`.
fn read_userkey(buf: &Vec<u8>, pos: usize) -> (r: Result<(UserKey, usize), FrameError>)
    ensures
        r matches Ok(p) ==> userkey_encodable(p.0@) && parses_at(
            buf@,
            pos as int,
            enc_userkey(p.0@),
        ) && p.1 == pos + enc_userkey(p.0@).len(),
        r matches Err(e) ==> e == FrameError::Malformed,
        forall|k: UserKeyV|
            userkey_encodable(k) && parses_at(buf@, pos as int, #[trigger] enc_userkey(k)) ==> (
            r matches Ok(p) && p.0@ == k && p.1 == pos + enc_userkey(k).len()),
{
    let (user, j1) = match read_string(buf, pos) {
        Ok(p) => p,
        Err(e) => {
            proof {
                assert forall|k: UserKeyV|
                    userkey_encodable(k) && parses_at(
                        buf@,
                        pos as int,
                        #[trigger] enc_userkey(k),
                    ) implies false by {
                    lemma_parses_at_split(buf@, pos as int, enc_str(k.user), enc_bytes(k.public));
                }
            }
            return Err(e);
        },
    };
    let (public, j2) = match read_bytes(buf, j1) {
        Ok(p) => p,
        Err(e) => {
            proof {
                assert forall|k: UserKeyV|
                    userkey_encodable(k) && parses_at(
                        buf@,
                        pos as int,
                        #[trigger] enc_userkey(k),
                    ) implies false by {
                    lemma_parses_at_split(buf@, pos as int, enc_str(k.user), enc_bytes(k.public));
                }
            }
            return Err(e);
        },
    };
    proof {
        lemma_parses_at_join(buf@, pos as int, enc_str(user@), enc_bytes(public@));
        assert forall|k: UserKeyV|
            userkey_encodable(k) && parses_at(
                buf@,
                pos as int,
                #[trigger] enc_userkey(k),
            ) implies user@ == k.user && public@ == k.public && j2 == pos + enc_userkey(
            k,
        ).len() by {
            lemma_parses_at_split(buf@, pos as int, enc_str(k.user), enc_bytes(k.public));
        }
    }
    Ok((UserKey { user, public }, j2))
}

/// Reads `n` pairs at `pos`.
#[verifier::rlimit(80)]
fn read_userkey_run(buf: &Vec<u8>, pos: usize, n: u32) -> (r: Result<
    (Vec<UserKey>, usize),
    FrameError,
>)
    requires
        pos <= buf@.len(),
    ensures
        r matches Ok(p) ==> p.0.deep_view().len() == n && (forall|i: int|
            0 <= i < n ==> userkey_encodable(#[trigger] p.0.deep_view()[i])) && parses_at(
            buf@,
            pos as int,
            enc_userkey_list(p.0.deep_view()),
        ) && p.1 == pos + enc_userkey_list(p.0.deep_view()).len(),
        r matches Err(e) ==> e == FrameError::Malformed,
        forall|ks: Seq<UserKeyV>|
            ks.len() == n && userkeys_encodable(ks) && parses_at(
                buf@,
                pos as int,
                #[trigger] enc_userkey_list(ks),
            ) ==> (r matches Ok(p) && p.0.deep_view() == ks && p.1 == pos + enc_userkey_list(
                ks,
            ).len()),
    decreases n,
{
    if n == 0 {
        let v: Vec<UserKey> = Vec::new();
        proof {
            assert(v.deep_view() =~= Seq::<UserKeyV>::empty());
            assert(buf@.subrange(pos as int, pos as int) =~= enc_userkey_list(v.deep_view()));
            assert(parses_at(buf@, pos as int, enc_userkey_list(v.deep_view())));
            assert forall|ks: Seq<UserKeyV>|
                ks.len() == 0 && userkeys_encodable(ks) && parses_at(
                    buf@,
                    pos as int,
                    #[trigger] enc_userkey_list(ks),
                ) implies v.deep_view() == ks by {
                assert(v.deep_view() =~= ks);
            }
        }
        return Ok((v, pos));
    }
    let (k, j1) = match read_userkey(buf, pos) {
        Ok(p) => p,
        Err(e) => {
            proof {
                assert forall|ks: Seq<UserKeyV>|
                    ks.len() == n && userkeys_encodable(ks) && parses_at(
                        buf@,
                        pos as int,
                        #[trigger] enc_userkey_list(ks),
                    ) implies false by {
                    assert(userkey_encodable(ks[0]));
                    lemma_parses_at_split(
                        buf@,
                        pos as int,
                        enc_userkey(ks[0]),
                        enc_userkey_list(ks.drop_first()),
                    );
                }
            }
            return Err(e);
        },
    };
    let (mut rest, j2) = match read_userkey_run(buf, j1, n - 1) {
        Ok(p) => p,
        Err(e) => {
            proof {
                assert forall|ks: Seq<UserKeyV>|
                    ks.len() == n && userkeys_encodable(ks) && parses_at(
                        buf@,
                        pos as int,
                        #[trigger] enc_userkey_list(ks),
                    ) implies false by {
                    assert(userkey_encodable(ks[0]));
                    lemma_parses_at_split(
                        buf@,
                        pos as int,
                        enc_userkey(ks[0]),
                        enc_userkey_list(ks.drop_first()),
                    );
                    assert(ks.drop_first().len() == n - 1 && userkeys_encodable(ks.drop_first()));
                }
            }
            return Err(e);
        },
    };
    let ghost kv = k@;
    let ghost rest_dv = rest.deep_view();
    rest.insert(0, k);
    proof {
        assert(rest.deep_view() =~= seq![kv] + rest_dv);
        assert(rest.deep_view()[0] == kv);
        assert(rest.deep_view().drop_first() =~= rest_dv);
        assert(enc_userkey_list(rest.deep_view()) == enc_userkey(kv) + enc_userkey_list(rest_dv));
        lemma_parses_at_join(buf@, pos as int, enc_userkey(kv), enc_userkey_list(rest_dv));
        assert forall|ks: Seq<UserKeyV>|
            ks.len() == n && userkeys_encodable(ks) && parses_at(
                buf@,
                pos as int,
                #[trigger] enc_userkey_list(ks),
            ) implies rest.deep_view() == ks && j2 == pos + enc_userkey_list(ks).len() by {
            assert(userkey_encodable(ks[0]));
            lemma_parses_at_split(
                buf@,
                pos as int,
                enc_userkey(ks[0]),
                enc_userkey_list(ks.drop_first()),
            );
            assert(kv == ks[0]);
            assert(ks.drop_first().len() == n - 1 && userkeys_encodable(ks.drop_first()));
            assert(rest_dv == ks.drop_first());
            assert(rest.deep_view() =~= ks);
        }
    }
    Ok((rest, j2))
}

/// Reads a count-prefixed pair listing at `pos`.
fn read_userkeys(buf: &Vec<u8>, pos: usize) -> (r: Result<(Vec<UserKey>, usize), FrameError>)
    ensures
        r matches Ok(p) ==> userkeys_encodable(p.0.deep_view()) && parses_at(
            buf@,
            pos as int,
            enc_userkeys(p.0.deep_view()),
        ) && p.1 == pos + enc_userkeys(p.0.deep_view()).len(),
        r matches Err(e) ==> e == FrameError::Malformed,
        forall|ks: Seq<UserKeyV>|
            userkeys_encodable(ks) && parses_at(buf@, pos as int, #[trigger] enc_userkeys(ks))
                ==> (r matches Ok(p) && p.0.deep_view() == ks && p.1 == pos + enc_userkeys(
                ks,
            ).len()),
{
    let (n, body) = match read_u32(buf, pos) {
        Ok(p) => p,
        Err(e) => {
            proof {
                assert forall|ks: Seq<UserKeyV>|
                    userkeys_encodable(ks) && parses_at(
                        buf@,
                        pos as int,
                        #[trigger] enc_userkeys(ks),
                    ) implies false by {
                    lemma_parses_at_split(buf@, pos as int, be32(ks.len()), enc_userkey_list(ks));
                }
            }
            return Err(e);
        },
    };
    match read_userkey_run(buf, body, n) {
        Ok((v, j)) => {
            proof {
                lemma_parses_at_join(buf@, pos as int, be32(n as nat), enc_userkey_list(
                    v.deep_view(),
                ));
                assert(parses_at(buf@, pos as int, enc_userkeys(v.deep_view())));
                assert forall|ks: Seq<UserKeyV>|
                    userkeys_encodable(ks) && parses_at(
                        buf@,
                        pos as int,
                        #[trigger] enc_userkeys(ks),
                    ) implies v.deep_view() == ks && j == pos + enc_userkeys(ks).len() by {
                    lemma_parses_at_split(buf@, pos as int, be32(ks.len()), enc_userkey_list(ks));
                    lemma_be32_injective(ks.len(), n as nat);
                }
            }
            Ok((v, j))
        },
        Err(e) => {
            proof {
                assert forall|ks: Seq<UserKeyV>|
                    userkeys_encodable(ks) && parses_at(
                        buf@,
                        pos as int,
                        #[trigger] enc_userkeys(ks),
                    ) implies false by {
                    lemma_parses_at_split(buf@, pos as int, be32(ks.len()), enc_userkey_list(ks));
                    lemma_be32_injective(ks.len(), n as nat);
                }
            }
            Err(e)
        },
    }
}

/// Reads `n` strings at `pos`.
#[verifier::rlimit(100)]
fn read_str_run(buf: &Vec<u8>, pos: usize, n: u32) -> (r: Result<(Vec<String>, usize), FrameError>)
    requires
        pos <= buf@.len(),
    ensures
        r matches Ok(p) ==> p.0.deep_view().len() == n && (forall|i: int|
            0 <= i < n ==> str_encodable(#[trigger] p.0.deep_view()[i])) && parses_at(
            buf@,
            pos as int,
            enc_str_list(p.0.deep_view()),
        ) && p.1 == pos + enc_str_list(p.0.deep_view()).len(),
        r matches Err(e) ==> e == FrameError::Malformed,
        forall|ss: Seq<Seq<char>>|
            ss.len() == n && strs_encodable(ss) && parses_at(
                buf@,
                pos as int,
                #[trigger] enc_str_list(ss),
            ) ==> (r matches Ok(p) && p.0.deep_view() == ss && p.1 == pos + enc_str_list(
                ss,
            ).len()),
    decreases n,
{
    if n == 0 {
        let v: Vec<String> = Vec::new();
        proof {
            assert(v.deep_view() =~= Seq::<Seq<char>>::empty());
            assert(buf@.subrange(pos as int, pos as int) =~= enc_str_list(v.deep_view()));
            assert(parses_at(buf@, pos as int, enc_str_list(v.deep_view())));
            assert forall|ss: Seq<Seq<char>>|
                ss.len() == 0 && strs_encodable(ss) && parses_at(
                    buf@,
                    pos as int,
                    #[trigger] enc_str_list(ss),
                ) implies v.deep_view() == ss by {
                assert(v.deep_view() =~= ss);
            }
        }
        return Ok((v, pos));
    }
    let (s, j1) = match read_string(buf, pos) {
        Ok(p) => p,
        Err(e) => {
            proof {
                assert forall|ss: Seq<Seq<char>>|
                    ss.len() == n && strs_encodable(ss) && parses_at(
                        buf@,
                        pos as int,
                        #[trigger] enc_str_list(ss),
                    ) implies false by {
                    assert(str_encodable(ss[0]));
                    lemma_parses_at_split(
                        buf@,
                        pos as int,
                        enc_str(ss[0]),
                        enc_str_list(ss.drop_first()),
                    );
                }
            }
            return Err(e);
        },
    };
    let (mut rest, j2) = match read_str_run(buf, j1, n - 1) {
        Ok(p) => p,
        Err(e) => {
            proof {
                assert forall|ss: Seq<Seq<char>>|
                    ss.len() == n && strs_encodable(ss) && parses_at(
                        buf@,
                        pos as int,
                        #[trigger] enc_str_list(ss),
                    ) implies false by {
                    assert(str_encodable(ss[0]));
                    lemma_parses_at_split(
                        buf@,
                        pos as int,
                        enc_str(ss[0]),
                        enc_str_list(ss.drop_first()),
                    );
                    assert(ss.drop_first().len() == n - 1 && strs_encodable(ss.drop_first()));
                }
            }
            return Err(e);
        },
    };
    let ghost sv = s@;
    let ghost rest_dv = rest.deep_view();
    rest.insert(0, s);
    proof {
        assert(rest.deep_view() =~= seq![sv] + rest_dv);
        assert(rest.deep_view()[0] == sv);
        assert(rest.deep_view().drop_first() =~= rest_dv);
        assert(enc_str_list(rest.deep_view()) == enc_str(sv) + enc_str_list(rest_dv));
        lemma_parses_at_join(buf@, pos as int, enc_str(sv), enc_str_list(rest_dv));
        assert forall|ss: Seq<Seq<char>>|
            ss.len() == n && strs_encodable(ss) && parses_at(
                buf@,
                pos as int,
                #[trigger] enc_str_list(ss),
            ) implies rest.deep_view() == ss && j2 == pos + enc_str_list(ss).len() by {
            assert(str_encodable(ss[0]));
            lemma_parses_at_split(buf@, pos as int, enc_str(ss[0]), enc_str_list(ss.drop_first()));
            assert(sv == ss[0]);
            assert(ss.drop_first().len() == n - 1 && strs_encodable(ss.drop_first()));
            assert(rest_dv == ss.drop_first());
            assert(rest.deep_view() =~= ss);
        }
    }
    Ok((rest, j2))
}

/// Reads a count-prefixed string listing at `pos`.
fn read_strs(buf: &Vec<u8>, pos: usize) -> (r: Result<(Vec<String>, usize), FrameError>)
    ensures
        r matches Ok(p) ==> strs_encodable(p.0.deep_view()) && parses_at(
            buf@,
            pos as int,
            enc_strs(p.0.deep_view()),
        ) && p.1 == pos + enc_strs(p.0.deep_view()).len(),
        r matches Err(e) ==> e == FrameError::Malformed,
        forall|ss: Seq<Seq<char>>|
            strs_encodable(ss) && parses_at(buf@, pos as int, #[trigger] enc_strs(ss)) ==> (
            r matches Ok(p) && p.0.deep_view() == ss && p.1 == pos + enc_strs(ss).len()),
{
    let (n, body) = match read_u32(buf, pos) {
        Ok(p) => p,
        Err(e) => {
            proof {
                assert forall|ss: Seq<Seq<char>>|
                    strs_encodable(ss) && parses_at(
                        buf@,
                        pos as int,
                        #[trigger] enc_strs(ss),
                    ) implies false by {
                    lemma_parses_at_split(buf@, pos as int, be32(ss.len()), enc_str_list(ss));
                }
            }
            return Err(e);
        },
    };
    match read_str_run(buf, body, n) {
        Ok((v, j)) => {
            proof {
                lemma_parses_at_join(buf@, pos as int, be32(n as nat), enc_str_list(
                    v.deep_view(),
                ));
                assert(parses_at(buf@, pos as int, enc_strs(v.deep_view())));
                assert forall|ss: Seq<Seq<char>>|
                    strs_encodable(ss) && parses_at(
                        buf@,
                        pos as int,
                        #[trigger] enc_strs(ss),
                    ) implies v.deep_view() == ss && j == pos + enc_strs(ss).len() by {
                    lemma_parses_at_split(buf@, pos as int, be32(ss.len()), enc_str_list(ss));
                    lemma_be32_injective(ss.len(), n as nat);
                }
            }
            Ok((v, j))
        },
        Err(e) => {
            proof {
                assert forall|ss: Seq<Seq<char>>|
                    strs_encodable(ss) && parses_at(
                        buf@,
                        pos as int,
                        #[trigger] enc_strs(ss),
                    ) implies false by {
                    lemma_parses_at_split(buf@, pos as int, be32(ss.len()), enc_str_list(ss));
                    lemma_be32_injective(ss.len(), n as nat);
                }
            }
            Err(e)
        },
    }
}

/// The encoding of a unit-valued response: a marker byte, then the error
/// message if there is one.
pub open spec fn enc_unit_resp(x: ResponseV<()>) -> Seq<u8> {
    match x {
        ResponseV::Success(_) => seq![0u8],
        ResponseV::Error(s) => seq![1u8] + enc_str(s),
    }
}

/// Whether a unit-valued response fits its length fields.
pub open spec fn unit_resp_encodable(x: ResponseV<()>) -> bool {
    match x {
        ResponseV::Success(_) => true,
        ResponseV::Error(s) => str_encodable(s),
    }
}

/// The tag byte of a request variant.
pub open spec fn req_tag(m: ReqV) -> u8 {
    match m {
        ReqV::LoginRequest(_) => 0,
        ReqV::RefreshRoomKeysRequest => 1,
        ReqV::SendMessageRequest(_, _) => 2,
        ReqV::ListRoomsRequest => 3,
        ReqV::JoinRoomRequest(_) => 4,
        ReqV::LeaveRoom => 5,
        ReqV::Logout => 6,
    }
}

/// The field encoding of a request variant, after its tag.
pub open spec fn enc_req_body(m: ReqV) -> Seq<u8> {
    match m {
        ReqV::LoginRequest(k) => enc_userkey(k),
        ReqV::RefreshRoomKeysRequest => Seq::empty(),
        ReqV::SendMessageRequest(to, ct) => enc_str(to) + enc_bytes(ct),
        ReqV::ListRoomsRequest => Seq::empty(),
        ReqV::JoinRoomRequest(s) => enc_str(s),
        ReqV::LeaveRoom => Seq::empty(),
        ReqV::Logout => Seq::empty(),
    }
}

/// The payload encoding of a request: its tag, then its fields.
pub open spec fn enc_req(m: ReqV) -> Seq<u8> {
    seq![req_tag(m)] + enc_req_body(m)
}

/// Whether a request's fields fit their length fields.
pub open spec fn req_encodable(m: ReqV) -> bool {
    match m {
        ReqV::LoginRequest(k) => userkey_encodable(k),
        ReqV::RefreshRoomKeysRequest => true,
        ReqV::SendMessageRequest(to, ct) => str_encodable(to) && bytes_encodable(ct),
        ReqV::ListRoomsRequest => true,
        ReqV::JoinRoomRequest(s) => str_encodable(s),
        ReqV::LeaveRoom => true,
        ReqV::Logout => true,
    }
}

/// The tag byte of a response variant.
pub open spec fn resp_tag(m: RespV) -> u8 {
    match m {
        RespV::LoginResponse(_) => 0,
        RespV::RefreshRoomKeysResponse(_) => 1,
        RespV::SendMessageResponse(_) => 2,
        RespV::PublishMessage(_) => 3,
        RespV::ListRoomsResponse(_) => 4,
        RespV::JoinRoomResponse(_) => 5,
    }
}

/// The field encoding of a response variant, after its tag. A response
/// carrying a result opens with a marker byte telling success from error.
pub open spec fn enc_resp_body(m: RespV) -> Seq<u8> {
    match m {
        RespV::LoginResponse(x) => enc_unit_resp(x),
        RespV::RefreshRoomKeysResponse(x) => match x {
            ResponseV::Success(ks) => seq![0u8] + enc_userkeys(ks),
            ResponseV::Error(s) => seq![1u8] + enc_str(s),
        },
        RespV::SendMessageResponse(x) => enc_unit_resp(x),
        RespV::PublishMessage(ct) => enc_bytes(ct),
        RespV::ListRoomsResponse(x) => match x {
            ResponseV::Success(ss) => seq![0u8] + enc_strs(ss),
            ResponseV::Error(s) => seq![1u8] + enc_str(s),
        },
        RespV::JoinRoomResponse(x) => enc_unit_resp(x),
    }
}

/// The payload encoding of a response: its tag, then its fields.
pub open spec fn enc_resp(m: RespV) -> Seq<u8> {
    seq![resp_tag(m)] + enc_resp_body(m)
}

/// Whether a response's fields fit their count and length fields.
pub open spec fn resp_encodable(m: RespV) -> bool {
    match m {
        RespV::LoginResponse(x) => unit_resp_encodable(x),
        RespV::RefreshRoomKeysResponse(x) => match x {
            ResponseV::Success(ks) => userkeys_encodable(ks),
            ResponseV::Error(s) => str_encodable(s),
        },
        RespV::SendMessageResponse(x) => unit_resp_encodable(x),
        RespV::PublishMessage(ct) => bytes_encodable(ct),
        RespV::ListRoomsResponse(x) => match x {
            ResponseV::Success(ss) => strs_encodable(ss),
            ResponseV::Error(s) => str_encodable(s),
        },
        RespV::JoinRoomResponse(x) => unit_resp_encodable(x),
    }
}

/// Appends the encoding of a unit-valued response.
fn write_unit_resp(out: &mut Vec<u8>, x: &Response<()>) -> (r: Result<(), FrameError>)
    ensures
        r is Ok <==> unit_resp_encodable(x.deep_view()),
        r is Ok ==> final(out)@ == old(out)@ + enc_unit_resp(x.deep_view()),
        r is Err ==> r matches Err(FrameError::TooLong),
{
    match x {
        Response::Success(_) => {
            out.push(0);
            proof {
                assert(out@ =~= old(out)@ + enc_unit_resp(x.deep_view()));
            }
            Ok(())
        },
        Response::Error(s) => {
            out.push(1);
            if let Err(e) = write_str(out, s) {
                return Err(e);
            }
            proof {
                assert(out@ =~= old(out)@ + enc_unit_resp(x.deep_view()));
            }
            Ok(())
        },
    }
}

/// Reads a unit-valued response at `pos`.
fn read_unit_resp(buf: &Vec<u8>, pos: usize) -> (r: Result<(Response<()>, usize), FrameError>)
    ensures
        r matches Ok(p) ==> unit_resp_encodable(p.0.deep_view()) && parses_at(
            buf@,
            pos as int,
            enc_unit_resp(p.0.deep_view()),
        ) && p.1 == pos + enc_unit_resp(p.0.deep_view()).len(),
        r matches Err(e) ==> e == FrameError::Malformed,
        forall|x: ResponseV<()>|
            unit_resp_encodable(x) && parses_at(buf@, pos as int, #[trigger] enc_unit_resp(x))
                ==> (r matches Ok(p) && p.0.deep_view() == x && p.1 == pos + enc_unit_resp(
                x,
            ).len()),
{
    let (marker, j0) = match read_u8(buf, pos) {
        Ok(p) => p,
        Err(e) => {
            proof {
                assert forall|x: ResponseV<()>|
                    unit_resp_encodable(x) && parses_at(
                        buf@,
                        pos as int,
                        #[trigger] enc_unit_resp(x),
                    ) implies false by {
                    assert(enc_unit_resp(x).len() >= 1);
                }
            }
            return Err(e);
        },
    };
    proof {
        assert(buf@.subrange(pos as int, pos as int + 1) =~= seq![marker]);
    }
    if marker == 0 {
        proof {
            assert forall|x: ResponseV<()>|
                unit_resp_encodable(x) && parses_at(
                    buf@,
                    pos as int,
                    #[trigger] enc_unit_resp(x),
                ) implies x matches ResponseV::Success(_) && (Response::<()>::Success(
                (),
            )).deep_view() == x by {
                assert(enc_unit_resp(x)[0] == buf@[pos as int]);
            }
            assert(parses_at(buf@, pos as int, enc_unit_resp(
                (Response::<()>::Success(())).deep_view(),
            )));
        }
        Ok((Response::Success(()), j0))
    } else if marker == 1 {
        let (s, j) = match read_string(buf, j0) {
            Ok(p) => p,
            Err(e) => {
                proof {
                    assert forall|x: ResponseV<()>|
                        unit_resp_encodable(x) && parses_at(
                            buf@,
                            pos as int,
                            #[trigger] enc_unit_resp(x),
                        ) implies false by {
                        assert(enc_unit_resp(x)[0] == buf@[pos as int]);
                        assert(x matches ResponseV::Error(_));
                        if let ResponseV::Error(t) = x {
                            lemma_parses_at_split(buf@, pos as int, seq![1u8], enc_str(t));
                        }
                    }
                }
                return Err(e);
            },
        };
        let m = Response::<()>::Error(s);
        proof {
            lemma_parses_at_join(buf@, pos as int, seq![1u8], enc_str(s@));
            assert(seq![1u8] + enc_str(s@) == enc_unit_resp(m.deep_view()));
            assert forall|x: ResponseV<()>|
                unit_resp_encodable(x) && parses_at(
                    buf@,
                    pos as int,
                    #[trigger] enc_unit_resp(x),
                ) implies m.deep_view() == x && j == pos + enc_unit_resp(x).len() by {
                assert(enc_unit_resp(x)[0] == buf@[pos as int]);
                assert(x matches ResponseV::Error(_));
                if let ResponseV::Error(t) = x {
                    lemma_parses_at_split(buf@, pos as int, seq![1u8], enc_str(t));
                    assert(s@ == t);
                }
            }
        }
        Ok((m, j))
    } else {
        proof {
            assert forall|x: ResponseV<()>|
                unit_resp_encodable(x) && parses_at(
                    buf@,
                    pos as int,
                    #[trigger] enc_unit_resp(x),
                ) implies false by {
                assert(enc_unit_resp(x)[0] == buf@[pos as int]);
            }
        }
        Err(FrameError::Malformed)
    }
}

/// Encodes a request payload, refusing fields too large for their length
/// fields.
pub fn encode_request(m: &APIRequest) -> (r: Result<Vec<u8>, FrameError>)
    ensures
        r is Ok <==> req_encodable(m.deep_view()),
        r matches Ok(v) ==> v@ == enc_req(m.deep_view()),
        r matches Err(e) ==> e == FrameError::TooLong,
{
    let mut out: Vec<u8> = Vec::new();
    match m {
        APIRequest::LoginRequest(k) => {
            out.push(0);
            if let Err(e) = write_userkey(&mut out, k) {
                return Err(e);
            }
        },
        APIRequest::RefreshRoomKeysRequest => {
            out.push(1);
        },
        APIRequest::SendMessageRequest(to, ct) => {
            out.push(2);
            if let Err(e) = write_str(&mut out, to) {
                return Err(e);
            }
            if let Err(e) = write_bytes(&mut out, ct) {
                return Err(e);
            }
        },
        APIRequest::ListRoomsRequest => {
            out.push(3);
        },
        APIRequest::JoinRoomRequest(s) => {
            out.push(4);
            if let Err(e) = write_str(&mut out, s) {
                return Err(e);
            }
        },
        APIRequest::LeaveRoom => {
            out.push(5);
        },
        APIRequest::Logout => {
            out.push(6);
        },
    }
    proof {
        assert(out@ =~= enc_req(m.deep_view()));
    }
    Ok(out)
}

/// Encodes a response payload, refusing fields too large for their count or
/// length fields.
pub fn encode_response(m: &APIResponse) -> (r: Result<Vec<u8>, FrameError>)
    ensures
        r is Ok <==> resp_encodable(m.deep_view()),
        r matches Ok(v) ==> v@ == enc_resp(m.deep_view()),
        r matches Err(e) ==> e == FrameError::TooLong,
{
    let mut out: Vec<u8> = Vec::new();
    match m {
        APIResponse::LoginResponse(x) => {
            out.push(0);
            if let Err(e) = write_unit_resp(&mut out, x) {
                return Err(e);
            }
        },
        APIResponse::RefreshRoomKeysResponse(x) => {
            out.push(1);
            match x {
                Response::Success(ks) => {
                    out.push(0);
                    if let Err(e) = write_userkeys(&mut out, ks) {
                        return Err(e);
                    }
                },
                Response::Error(s) => {
                    out.push(1);
                    if let Err(e) = write_str(&mut out, s) {
                        return Err(e);
                    }
                },
            }
        },
        APIResponse::SendMessageResponse(x) => {
            out.push(2);
            if let Err(e) = write_unit_resp(&mut out, x) {
                return Err(e);
            }
        },
        APIResponse::PublishMessage(ct) => {
            out.push(3);
            if let Err(e) = write_bytes(&mut out, ct) {
                return Err(e);
            }
        },
        APIResponse::ListRoomsResponse(x) => {
            out.push(4);
            match x {
                Response::Success(ss) => {
                    out.push(0);
                    if let Err(e) = write_strs(&mut out, ss) {
                        return Err(e);
                    }
                },
                Response::Error(s) => {
                    out.push(1);
                    if let Err(e) = write_str(&mut out, s) {
                        return Err(e);
                    }
                },
            }
        },
        APIResponse::JoinRoomResponse(x) => {
            out.push(5);
            if let Err(e) = write_unit_resp(&mut out, x) {
                return Err(e);
            }
        },
    }
    proof {
        assert(out@ =~= enc_resp(m.deep_view()));
    }
    Ok(out)
}

/// Decodes a request payload. Exactly the complete, canonical encodings of
/// the request variants are accepted: trailing bytes, a bad tag, a bad
/// length or bad UTF-8 are malformed.
#[verifier::rlimit(100)]
pub fn decode_request(payload: &Vec<u8>) -> (r: Result<APIRequest, FrameError>)
    ensures
        r matches Ok(m) ==> req_encodable(m.deep_view()) && payload@ == enc_req(m.deep_view()),
        forall|m: ReqV|
            req_encodable(m) && payload@ == #[trigger] enc_req(m) ==> (r matches Ok(x)
                && x.deep_view() == m),
        r matches Err(e) ==> e == FrameError::Malformed,
{
    let (tag, _) = match read_u8(payload, 0) {
        Ok(p) => p,
        Err(e) => {
            proof {
                assert forall|m: ReqV|
                    req_encodable(m) && payload@ == #[trigger] enc_req(m) implies false by {
                    assert(enc_req(m).len() >= 1);
                }
            }
            return Err(e);
        },
    };
    proof {
        assert(payload@.subrange(0, 1) =~= seq![tag]);
        assert(parses_at(payload@, 0, seq![tag]));
        assert forall|m: ReqV| payload@ == #[trigger] enc_req(m) implies req_tag(m) == tag by {
            assert(enc_req(m)[0] == tag);
        }
    }
    if tag == 0 {
        let (k, j) = match read_userkey(payload, 1) {
            Ok(p) => p,
            Err(_) => {
                proof {
                    assert forall|m: ReqV|
                        req_encodable(m) && payload@ == #[trigger] enc_req(m) implies false by {
                        lemma_parses_whole(payload@, enc_req(m));
                        if let ReqV::LoginRequest(k2) = m {
                            lemma_parses_at_split(payload@, 0, seq![0u8], enc_userkey(k2));
                        }
                    }
                }
                return Err(FrameError::Malformed);
            },
        };
        if j != payload.len() {
            proof {
                assert forall|m: ReqV|
                    req_encodable(m) && payload@ == #[trigger] enc_req(m) implies false by {
                    lemma_parses_whole(payload@, enc_req(m));
                    if let ReqV::LoginRequest(k2) = m {
                        lemma_parses_at_split(payload@, 0, seq![0u8], enc_userkey(k2));
                        assert(k2 == k@);
                    }
                }
            }
            return Err(FrameError::Malformed);
        }
        let x = APIRequest::LoginRequest(k);
        proof {
            lemma_parses_at_join(payload@, 0, seq![0u8], enc_userkey(k@));
            assert(payload@ =~= enc_req(x.deep_view()));
            assert forall|m: ReqV|
                req_encodable(m) && payload@ == #[trigger] enc_req(m) implies x.deep_view()
                == m by {
                lemma_parses_whole(payload@, enc_req(m));
                if let ReqV::LoginRequest(k2) = m {
                    lemma_parses_at_split(payload@, 0, seq![0u8], enc_userkey(k2));
                    assert(k2 == k@);
                }
            }
        }
        Ok(x)
    } else if tag == 2 {
        let (to, j1) = match read_string(payload, 1) {
            Ok(p) => p,
            Err(_) => {
                proof {
                    assert forall|m: ReqV|
                        req_encodable(m) && payload@ == #[trigger] enc_req(m) implies false by {
                        lemma_parses_whole(payload@, enc_req(m));
                        if let ReqV::SendMessageRequest(t2, c2) = m {
                            lemma_parses_at_split(payload@, 0, seq![2u8], enc_str(t2) + enc_bytes(
                                c2,
                            ));
                            lemma_parses_at_split(payload@, 1, enc_str(t2), enc_bytes(c2));
                        }
                    }
                }
                return Err(FrameError::Malformed);
            },
        };
        let (ct, j) = match read_bytes(payload, j1) {
            Ok(p) => p,
            Err(_) => {
                proof {
                    assert forall|m: ReqV|
                        req_encodable(m) && payload@ == #[trigger] enc_req(m) implies false by {
                        lemma_parses_whole(payload@, enc_req(m));
                        if let ReqV::SendMessageRequest(t2, c2) = m {
                            lemma_parses_at_split(payload@, 0, seq![2u8], enc_str(t2) + enc_bytes(
                                c2,
                            ));
                            lemma_parses_at_split(payload@, 1, enc_str(t2), enc_bytes(c2));
                            assert(t2 == to@);
                        }
                    }
                }
                return Err(FrameError::Malformed);
            },
        };
        if j != payload.len() {
            proof {
                assert forall|m: ReqV|
                    req_encodable(m) && payload@ == #[trigger] enc_req(m) implies false by {
                    lemma_parses_whole(payload@, enc_req(m));
                    if let ReqV::SendMessageRequest(t2, c2) = m {
                        lemma_parses_at_split(payload@, 0, seq![2u8], enc_str(t2) + enc_bytes(c2));
                        lemma_parses_at_split(payload@, 1, enc_str(t2), enc_bytes(c2));
                        assert(t2 == to@);
                        assert(c2 == ct@);
                    }
                }
            }
            return Err(FrameError::Malformed);
        }
        let x = APIRequest::SendMessageRequest(to, ct);
        proof {
            lemma_parses_at_join(payload@, 1, enc_str(to@), enc_bytes(ct@));
            lemma_parses_at_join(payload@, 0, seq![2u8], enc_str(to@) + enc_bytes(ct@));
            assert(payload@ =~= enc_req(x.deep_view()));
            assert forall|m: ReqV|
                req_encodable(m) && payload@ == #[trigger] enc_req(m) implies x.deep_view()
                == m by {
                lemma_parses_whole(payload@, enc_req(m));
                if let ReqV::SendMessageRequest(t2, c2) = m {
                    lemma_parses_at_split(payload@, 0, seq![2u8], enc_str(t2) + enc_bytes(c2));
                    lemma_parses_at_split(payload@, 1, enc_str(t2), enc_bytes(c2));
                    assert(t2 == to@);
                    assert(c2 == ct@);
                }
            }
        }
        Ok(x)
    } else if tag == 4 {
        let (s, j) = match read_string(payload, 1) {
            Ok(p) => p,
            Err(_) => {
                proof {
                    assert forall|m: ReqV|
                        req_encodable(m) && payload@ == #[trigger] enc_req(m) implies false by {
                        lemma_parses_whole(payload@, enc_req(m));
                        if let ReqV::JoinRoomRequest(s2) = m {
                            lemma_parses_at_split(payload@, 0, seq![4u8], enc_str(s2));
                        }
                    }
                }
                return Err(FrameError::Malformed);
            },
        };
        if j != payload.len() {
            proof {
                assert forall|m: ReqV|
                    req_encodable(m) && payload@ == #[trigger] enc_req(m) implies false by {
                    lemma_parses_whole(payload@, enc_req(m));
                    if let ReqV::JoinRoomRequest(s2) = m {
                        lemma_parses_at_split(payload@, 0, seq![4u8], enc_str(s2));
                        assert(s2 == s@);
                    }
                }
            }
            return Err(FrameError::Malformed);
        }
        let x = APIRequest::JoinRoomRequest(s);
        proof {
            lemma_parses_at_join(payload@, 0, seq![4u8], enc_str(s@));
            assert(payload@ =~= enc_req(x.deep_view()));
            assert forall|m: ReqV|
                req_encodable(m) && payload@ == #[trigger] enc_req(m) implies x.deep_view()
                == m by {
                lemma_parses_whole(payload@, enc_req(m));
                if let ReqV::JoinRoomRequest(s2) = m {
                    lemma_parses_at_split(payload@, 0, seq![4u8], enc_str(s2));
                    assert(s2 == s@);
                }
            }
        }
        Ok(x)
    } else if tag <= 6 {
        if payload.len() != 1 {
            proof {
                assert forall|m: ReqV|
                    req_encodable(m) && payload@ == #[trigger] enc_req(m) implies false by {
                    assert(enc_req_body(m) =~= Seq::<u8>::empty());
                }
            }
            return Err(FrameError::Malformed);
        }
        let x = if tag == 1 {
            APIRequest::RefreshRoomKeysRequest
        } else if tag == 3 {
            APIRequest::ListRoomsRequest
        } else if tag == 5 {
            APIRequest::LeaveRoom
        } else {
            APIRequest::Logout
        };
        proof {
            assert(payload@ =~= enc_req(x.deep_view()));
        }
        Ok(x)
    } else {
        proof {
            assert forall|m: ReqV|
                req_encodable(m) && payload@ == #[trigger] enc_req(m) implies false by {
                assert(req_tag(m) <= 6);
            }
        }
        Err(FrameError::Malformed)
    }
}

/// Decodes the field part of a key-listing response, after its tag.
#[verifier::rlimit(100)]
fn decode_refresh_resp(payload: &Vec<u8>) -> (r: Result<Response<Vec<UserKey>>, FrameError>)
    requires
        payload@.len() >= 1,
    ensures
        r matches Ok(x) ==> resp_encodable(RespV::RefreshRoomKeysResponse(x.deep_view()))
            && payload@.skip(1) == enc_resp_body(RespV::RefreshRoomKeysResponse(x.deep_view())),
        forall|x: ResponseV<Seq<UserKeyV>>|
            resp_encodable(RespV::RefreshRoomKeysResponse(x)) && payload@.skip(1)
                == #[trigger] enc_resp_body(RespV::RefreshRoomKeysResponse(x)) ==> (
            r matches Ok(y) && y.deep_view() == x),
        r matches Err(e) ==> e == FrameError::Malformed,
{
    let (marker, j0) = match read_u8(payload, 1) {
        Ok(p) => p,
        Err(e) => {
            proof {
                assert forall|x: ResponseV<Seq<UserKeyV>>|
                    resp_encodable(RespV::RefreshRoomKeysResponse(x)) && payload@.skip(1)
                        == #[trigger] enc_resp_body(
                        RespV::RefreshRoomKeysResponse(x),
                    ) implies false by {
                    assert(payload@.skip(1) =~= Seq::<u8>::empty());
                    assert(enc_resp_body(RespV::RefreshRoomKeysResponse(x)).len() >= 1);
                }
            }
            return Err(e);
        },
    };
    proof {
        assert(payload@.skip(1)[0] == marker);
        assert(payload@.subrange(1, 2) =~= seq![marker]);
        assert(parses_at(payload@, 1, seq![marker]));
    }
    if marker == 0 {
        let (ks, j) = match read_userkeys(payload, 2) {
            Ok(p) => p,
            Err(e) => {
                proof {
                    assert forall|x: ResponseV<Seq<UserKeyV>>|
                        resp_encodable(RespV::RefreshRoomKeysResponse(x)) && payload@.skip(1)
                            == #[trigger] enc_resp_body(
                            RespV::RefreshRoomKeysResponse(x),
                        ) implies false by {
                        if let ResponseV::Success(ks2) = x {
                            lemma_skip_parses(payload@, seq![0u8] + enc_userkeys(ks2));
                            lemma_parses_at_split(payload@, 1, seq![0u8], enc_userkeys(ks2));
                        }
                    }
                }
                return Err(e);
            },
        };
        if j != payload.len() {
            proof {
                assert forall|x: ResponseV<Seq<UserKeyV>>|
                    resp_encodable(RespV::RefreshRoomKeysResponse(x)) && payload@.skip(1)
                        == #[trigger] enc_resp_body(
                        RespV::RefreshRoomKeysResponse(x),
                    ) implies false by {
                    if let ResponseV::Success(ks2) = x {
                        lemma_skip_parses(payload@, seq![0u8] + enc_userkeys(ks2));
                        lemma_parses_at_split(payload@, 1, seq![0u8], enc_userkeys(ks2));
                        assert(ks.deep_view() == ks2);
                    }
                }
            }
            return Err(FrameError::Malformed);
        }
        let x = Response::Success(ks);
        proof {
            lemma_parses_at_join(payload@, 1, seq![0u8], enc_userkeys(ks.deep_view()));
            assert(payload@.skip(1) =~= seq![0u8] + enc_userkeys(ks.deep_view()));
            assert forall|x2: ResponseV<Seq<UserKeyV>>|
                resp_encodable(RespV::RefreshRoomKeysResponse(x2)) && payload@.skip(1)
                    == #[trigger] enc_resp_body(
                    RespV::RefreshRoomKeysResponse(x2),
                ) implies x.deep_view() == x2 by {
                if let ResponseV::Success(ks2) = x2 {
                    lemma_skip_parses(payload@, seq![0u8] + enc_userkeys(ks2));
                    lemma_parses_at_split(payload@, 1, seq![0u8], enc_userkeys(ks2));
                    assert(ks.deep_view() == ks2);
                }
            }
        }
        Ok(x)
    } else if marker == 1 {
        let (s, j) = match read_string(payload, 2) {
            Ok(p) => p,
            Err(e) => {
                proof {
                    assert forall|x: ResponseV<Seq<UserKeyV>>|
                        resp_encodable(RespV::RefreshRoomKeysResponse(x)) && payload@.skip(1)
                            == #[trigger] enc_resp_body(
                            RespV::RefreshRoomKeysResponse(x),
                        ) implies false by {
                        if let ResponseV::Error(s2) = x {
                            lemma_skip_parses(payload@, seq![1u8] + enc_str(s2));
                            lemma_parses_at_split(payload@, 1, seq![1u8], enc_str(s2));
                        }
                    }
                }
                return Err(e);
            },
        };
        if j != payload.len() {
            proof {
                assert forall|x: ResponseV<Seq<UserKeyV>>|
                    resp_encodable(RespV::RefreshRoomKeysResponse(x)) && payload@.skip(1)
                        == #[trigger] enc_resp_body(
                        RespV::RefreshRoomKeysResponse(x),
                    ) implies false by {
                    if let ResponseV::Error(s2) = x {
                        lemma_skip_parses(payload@, seq![1u8] + enc_str(s2));
                        lemma_parses_at_split(payload@, 1, seq![1u8], enc_str(s2));
                        assert(s@ == s2);
                    }
                }
            }
            return Err(FrameError::Malformed);
        }
        let x = Response::Error(s);
        proof {
            lemma_parses_at_join(payload@, 1, seq![1u8], enc_str(s@));
            assert(payload@.skip(1) =~= seq![1u8] + enc_str(s@));
            assert forall|x2: ResponseV<Seq<UserKeyV>>|
                resp_encodable(RespV::RefreshRoomKeysResponse(x2)) && payload@.skip(1)
                    == #[trigger] enc_resp_body(
                    RespV::RefreshRoomKeysResponse(x2),
                ) implies x.deep_view() == x2 by {
                if let ResponseV::Error(s2) = x2 {
                    lemma_skip_parses(payload@, seq![1u8] + enc_str(s2));
                    lemma_parses_at_split(payload@, 1, seq![1u8], enc_str(s2));
                    assert(s@ == s2);
                }
            }
        }
        Ok(x)
    } else {
        proof {
            assert forall|x: ResponseV<Seq<UserKeyV>>|
                resp_encodable(RespV::RefreshRoomKeysResponse(x)) && payload@.skip(1)
                    == #[trigger] enc_resp_body(
                    RespV::RefreshRoomKeysResponse(x),
                ) implies false by {
                assert(enc_resp_body(RespV::RefreshRoomKeysResponse(x))[0] == marker);
            }
        }
        Err(FrameError::Malformed)
    }
}

/// A piece equal to all of `buf` past its first byte stands there.
pub proof fn lemma_skip_parses(buf: Seq<u8>, piece: Seq<u8>)
    requires
        buf.len() >= 1,
        buf.skip(1) == piece,
    ensures
        parses_at(buf, 1, piece),
{
    assert(buf.subrange(1, 1 + piece.len() as int) =~= piece);
}

/// Decodes the field part of a room-listing response, after its tag.
#[verifier::rlimit(100)]
fn decode_listrooms_resp(payload: &Vec<u8>) -> (r: Result<Response<Vec<String>>, FrameError>)
    requires
        payload@.len() >= 1,
    ensures
        r matches Ok(x) ==> resp_encodable(RespV::ListRoomsResponse(x.deep_view()))
            && payload@.skip(1) == enc_resp_body(RespV::ListRoomsResponse(x.deep_view())),
        forall|x: ResponseV<Seq<Seq<char>>>|
            resp_encodable(RespV::ListRoomsResponse(x)) && payload@.skip(1)
                == #[trigger] enc_resp_body(RespV::ListRoomsResponse(x)) ==> (r matches Ok(y)
                && y.deep_view() == x),
        r matches Err(e) ==> e == FrameError::Malformed,
{
    let (marker, j0) = match read_u8(payload, 1) {
        Ok(p) => p,
        Err(e) => {
            proof {
                assert forall|x: ResponseV<Seq<Seq<char>>>|
                    resp_encodable(RespV::ListRoomsResponse(x)) && payload@.skip(1)
                        == #[trigger] enc_resp_body(RespV::ListRoomsResponse(x)) implies false by {
                    assert(payload@.skip(1) =~= Seq::<u8>::empty());
                    assert(enc_resp_body(RespV::ListRoomsResponse(x)).len() >= 1);
                }
            }
            return Err(e);
        },
    };
    proof {
        assert(payload@.skip(1)[0] == marker);
        assert(payload@.subrange(1, 2) =~= seq![marker]);
        assert(parses_at(payload@, 1, seq![marker]));
    }
    if marker == 0 {
        let (ss, j) = match read_strs(payload, 2) {
            Ok(p) => p,
            Err(e) => {
                proof {
                    assert forall|x: ResponseV<Seq<Seq<char>>>|
                        resp_encodable(RespV::ListRoomsResponse(x)) && payload@.skip(1)
                            == #[trigger] enc_resp_body(
                            RespV::ListRoomsResponse(x),
                        ) implies false by {
                        if let ResponseV::Success(ss2) = x {
                            lemma_skip_parses(payload@, seq![0u8] + enc_strs(ss2));
                            lemma_parses_at_split(payload@, 1, seq![0u8], enc_strs(ss2));
                        }
                    }
                }
                return Err(e);
            },
        };
        if j != payload.len() {
            proof {
                assert forall|x: ResponseV<Seq<Seq<char>>>|
                    resp_encodable(RespV::ListRoomsResponse(x)) && payload@.skip(1)
                        == #[trigger] enc_resp_body(RespV::ListRoomsResponse(x)) implies false by {
                    if let ResponseV::Success(ss2) = x {
                        lemma_skip_parses(payload@, seq![0u8] + enc_strs(ss2));
                        lemma_parses_at_split(payload@, 1, seq![0u8], enc_strs(ss2));
                        assert(ss.deep_view() == ss2);
                    }
                }
            }
            return Err(FrameError::Malformed);
        }
        let x = Response::Success(ss);
        proof {
            lemma_parses_at_join(payload@, 1, seq![0u8], enc_strs(ss.deep_view()));
            assert(payload@.skip(1) =~= seq![0u8] + enc_strs(ss.deep_view()));
            assert forall|x2: ResponseV<Seq<Seq<char>>>|
                resp_encodable(RespV::ListRoomsResponse(x2)) && payload@.skip(1)
                    == #[trigger] enc_resp_body(
                    RespV::ListRoomsResponse(x2),
                ) implies x.deep_view() == x2 by {
                if let ResponseV::Success(ss2) = x2 {
                    lemma_skip_parses(payload@, seq![0u8] + enc_strs(ss2));
                    lemma_parses_at_split(payload@, 1, seq![0u8], enc_strs(ss2));
                    assert(ss.deep_view() == ss2);
                }
            }
        }
        Ok(x)
    } else if marker == 1 {
        let (s, j) = match read_string(payload, 2) {
            Ok(p) => p,
            Err(e) => {
                proof {
                    assert forall|x: ResponseV<Seq<Seq<char>>>|
                        resp_encodable(RespV::ListRoomsResponse(x)) && payload@.skip(1)
                            == #[trigger] enc_resp_body(
                            RespV::ListRoomsResponse(x),
                        ) implies false by {
                        if let ResponseV::Error(s2) = x {
                            lemma_skip_parses(payload@, seq![1u8] + enc_str(s2));
                            lemma_parses_at_split(payload@, 1, seq![1u8], enc_str(s2));
                        }
                    }
                }
                return Err(e);
            },
        };
        if j != payload.len() {
            proof {
                assert forall|x: ResponseV<Seq<Seq<char>>>|
                    resp_encodable(RespV::ListRoomsResponse(x)) && payload@.skip(1)
                        == #[trigger] enc_resp_body(RespV::ListRoomsResponse(x)) implies false by {
                    if let ResponseV::Error(s2) = x {
                        lemma_skip_parses(payload@, seq![1u8] + enc_str(s2));
                        lemma_parses_at_split(payload@, 1, seq![1u8], enc_str(s2));
                        assert(s@ == s2);
                    }
                }
            }
            return Err(FrameError::Malformed);
        }
        let x = Response::Error(s);
        proof {
            lemma_parses_at_join(payload@, 1, seq![1u8], enc_str(s@));
            assert(payload@.skip(1) =~= seq![1u8] + enc_str(s@));
            assert forall|x2: ResponseV<Seq<Seq<char>>>|
                resp_encodable(RespV::ListRoomsResponse(x2)) && payload@.skip(1)
                    == #[trigger] enc_resp_body(
                    RespV::ListRoomsResponse(x2),
                ) implies x.deep_view() == x2 by {
                if let ResponseV::Error(s2) = x2 {
                    lemma_skip_parses(payload@, seq![1u8] + enc_str(s2));
                    lemma_parses_at_split(payload@, 1, seq![1u8], enc_str(s2));
                    assert(s@ == s2);
                }
            }
        }
        Ok(x)
    } else {
        proof {
            assert forall|x: ResponseV<Seq<Seq<char>>>|
                resp_encodable(RespV::ListRoomsResponse(x)) && payload@.skip(1)
                    == #[trigger] enc_resp_body(RespV::ListRoomsResponse(x)) implies false by {
                assert(enc_resp_body(RespV::ListRoomsResponse(x))[0] == marker);
            }
        }
        Err(FrameError::Malformed)
    }
}

/// Decodes a response payload. Exactly the complete, canonical encodings of
/// the response variants are accepted.
#[verifier::rlimit(100)]
pub fn decode_response(payload: &Vec<u8>) -> (r: Result<APIResponse, FrameError>)
    ensures
        r matches Ok(m) ==> resp_encodable(m.deep_view()) && payload@ == enc_resp(m.deep_view()),
        forall|m: RespV|
            resp_encodable(m) && payload@ == #[trigger] enc_resp(m) ==> (r matches Ok(x)
                && x.deep_view() == m),
        r matches Err(e) ==> e == FrameError::Malformed,
{
    let (tag, _) = match read_u8(payload, 0) {
        Ok(p) => p,
        Err(e) => {
            proof {
                assert forall|m: RespV|
                    resp_encodable(m) && payload@ == #[trigger] enc_resp(m) implies false by {
                    assert(enc_resp(m).len() >= 1);
                }
            }
            return Err(e);
        },
    };
    proof {
        assert(payload@.subrange(0, 1) =~= seq![tag]);
        assert(parses_at(payload@, 0, seq![tag]));
        assert forall|m: RespV| payload@ == #[trigger] enc_resp(m) implies resp_tag(m) == tag
            && payload@.skip(1) =~= enc_resp_body(m) by {
            assert(enc_resp(m)[0] == tag);
        }
    }
    if tag == 0 || tag == 2 || tag == 5 {
        let (x, j) = match read_unit_resp(payload, 1) {
            Ok(p) => p,
            Err(_) => {
                proof {
                    assert forall|m: RespV|
                        resp_encodable(m) && payload@ == #[trigger] enc_resp(m) implies false by {
                        lemma_parses_whole(payload@, enc_resp(m));
                        lemma_parses_at_split(payload@, 0, seq![resp_tag(m)], enc_resp_body(m));
                        match m {
                            RespV::LoginResponse(x2) => {},
                            RespV::SendMessageResponse(x2) => {},
                            RespV::JoinRoomResponse(x2) => {},
                            _ => {},
                        }
                    }
                }
                return Err(FrameError::Malformed);
            },
        };
        if j != payload.len() {
            proof {
                assert forall|m: RespV|
                    resp_encodable(m) && payload@ == #[trigger] enc_resp(m) implies false by {
                    lemma_parses_whole(payload@, enc_resp(m));
                    lemma_parses_at_split(payload@, 0, seq![resp_tag(m)], enc_resp_body(m));
                }
            }
            return Err(FrameError::Malformed);
        }
        let out = if tag == 0 {
            APIResponse::LoginResponse(x)
        } else if tag == 2 {
            APIResponse::SendMessageResponse(x)
        } else {
            APIResponse::JoinRoomResponse(x)
        };
        proof {
            lemma_parses_at_join(payload@, 0, seq![tag], enc_unit_resp(x.deep_view()));
            assert(payload@ =~= enc_resp(out.deep_view()));
            assert forall|m: RespV|
                resp_encodable(m) && payload@ == #[trigger] enc_resp(m) implies out.deep_view()
                == m by {
                lemma_parses_whole(payload@, enc_resp(m));
                lemma_parses_at_split(payload@, 0, seq![resp_tag(m)], enc_resp_body(m));
            }
        }
        Ok(out)
    } else if tag == 3 {
        let (ct, j) = match read_bytes(payload, 1) {
            Ok(p) => p,
            Err(_) => {
                proof {
                    assert forall|m: RespV|
                        resp_encodable(m) && payload@ == #[trigger] enc_resp(m) implies false by {
                        lemma_parses_whole(payload@, enc_resp(m));
                        lemma_parses_at_split(payload@, 0, seq![resp_tag(m)], enc_resp_body(m));
                    }
                }
                return Err(FrameError::Malformed);
            },
        };
        if j != payload.len() {
            proof {
                assert forall|m: RespV|
                    resp_encodable(m) && payload@ == #[trigger] enc_resp(m) implies false by {
                    lemma_parses_whole(payload@, enc_resp(m));
                    lemma_parses_at_split(payload@, 0, seq![resp_tag(m)], enc_resp_body(m));
                }
            }
            return Err(FrameError::Malformed);
        }
        let out = APIResponse::PublishMessage(ct);
        proof {
            lemma_parses_at_join(payload@, 0, seq![3u8], enc_bytes(out.deep_view()->PublishMessage_0));
            assert(payload@ =~= enc_resp(out.deep_view()));
            assert forall|m: RespV|
                resp_encodable(m) && payload@ == #[trigger] enc_resp(m) implies out.deep_view()
                == m by {
                lemma_parses_whole(payload@, enc_resp(m));
                lemma_parses_at_split(payload@, 0, seq![resp_tag(m)], enc_resp_body(m));
            }
        }
        Ok(out)
    } else if tag == 1 {
        let x = match decode_refresh_resp(payload) {
            Ok(x) => x,
            Err(e) => {
                proof {
                    assert forall|m: RespV|
                        resp_encodable(m) && payload@ == #[trigger] enc_resp(m) implies false by {}
                }
                return Err(e);
            },
        };
        let out = APIResponse::RefreshRoomKeysResponse(x);
        proof {
            assert(payload@ =~= seq![1u8] + payload@.skip(1));
            assert(payload@ =~= enc_resp(out.deep_view()));
            assert forall|m: RespV|
                resp_encodable(m) && payload@ == #[trigger] enc_resp(m) implies out.deep_view()
                == m by {}
        }
        Ok(out)
    } else if tag == 4 {
        let x = match decode_listrooms_resp(payload) {
            Ok(x) => x,
            Err(e) => {
                proof {
                    assert forall|m: RespV|
                        resp_encodable(m) && payload@ == #[trigger] enc_resp(m) implies false by {}
                }
                return Err(e);
            },
        };
        let out = APIResponse::ListRoomsResponse(x);
        proof {
            assert(payload@ =~= seq![4u8] + payload@.skip(1));
            assert(payload@ =~= enc_resp(out.deep_view()));
            assert forall|m: RespV|
                resp_encodable(m) && payload@ == #[trigger] enc_resp(m) implies out.deep_view()
                == m by {}
        }
        Ok(out)
    } else {
        proof {
            assert forall|m: RespV|
                resp_encodable(m) && payload@ == #[trigger] enc_resp(m) implies false by {
                assert(resp_tag(m) <= 5);
            }
        }
        Err(FrameError::Malformed)
    }
}

/// Encodes a request and prefixes it with its length: one complete frame,
/// ready to write to the transport.
pub fn encode_request_frame(m: &APIRequest) -> (r: Result<Vec<u8>, FrameError>)
    ensures
        r is Ok <==> (req_encodable(m.deep_view()) && enc_req(m.deep_view()).len()
            <= MAX_PAYLOAD_LEN),
        r matches Ok(v) ==> v@ == be32(enc_req(m.deep_view()).len()) + enc_req(m.deep_view()),
        r matches Err(e) ==> e == FrameError::TooLong,
{
    let mut payload = match encode_request(m) {
        Ok(p) => p,
        Err(e) => {
            return Err(e);
        },
    };
    if payload.len() > MAX_PAYLOAD_LEN {
        return Err(FrameError::TooLong);
    }
    let mut out: Vec<u8> = Vec::new();
    write_u32(&mut out, payload.len() as u32);
    out.append(&mut payload);
    proof {
        assert(out@ =~= be32(enc_req(m.deep_view()).len()) + enc_req(m.deep_view()));
    }
    Ok(out)
}

/// Encodes a response and prefixes it with its length: one complete frame,
/// ready to write to the transport.
pub fn encode_response_frame(m: &APIResponse) -> (r: Result<Vec<u8>, FrameError>)
    ensures
        r is Ok <==> (resp_encodable(m.deep_view()) && enc_resp(m.deep_view()).len()
            <= MAX_PAYLOAD_LEN),
        r matches Ok(v) ==> v@ == be32(enc_resp(m.deep_view()).len()) + enc_resp(m.deep_view()),
        r matches Err(e) ==> e == FrameError::TooLong,
{
    let mut payload = match encode_response(m) {
        Ok(p) => p,
        Err(e) => {
            return Err(e);
        },
    };
    if payload.len() > MAX_PAYLOAD_LEN {
        return Err(FrameError::TooLong);
    }
    let mut out: Vec<u8> = Vec::new();
    write_u32(&mut out, payload.len() as u32);
    out.append(&mut payload);
    proof {
        assert(out@ =~= be32(enc_resp(m.deep_view()).len()) + enc_resp(m.deep_view()));
    }
    Ok(out)
}

/// Takes one complete frame's payload off the front of the read buffer, if
/// a complete frame has arrived. An incomplete prefix asks for more bytes;
/// a length prefix over the maximum is refused outright, before anything is
/// allocated for it.
pub fn take_frame(buf: &mut Vec<u8>) -> (r: Result<Option<Vec<u8>>, FrameError>)
    ensures
        old(buf)@.len() < 4 ==> (r matches Ok(x) && x is None && final(buf)@ == old(buf)@),
        old(buf)@.len() >= 4 ==> ({
            let n = be32_val(old(buf)@.subrange(0, 4)) as int;
            if n > MAX_PAYLOAD_LEN {
                r matches Err(e) && e == FrameError::TooLong && final(buf)@ == old(buf)@
            } else if old(buf)@.len() < 4 + n {
                r matches Ok(x) && x is None && final(buf)@ == old(buf)@
            } else {
                r matches Ok(x) && (x matches Some(p) && p@ == old(buf)@.subrange(4, 4 + n))
                    && final(buf)@ == old(buf)@.skip(4 + n)
            }
        }),
{
    if buf.len() < 4 {
        return Ok(None);
    }
    let n: u32 = (buf[0] as u32) * 0x1000000 + (buf[1] as u32) * 0x10000 + (buf[2] as u32) * 0x100
        + (buf[3] as u32);
    proof {
        assert(old(buf)@.subrange(0, 4)[0] == buf@[0]);
        assert(old(buf)@.subrange(0, 4)[1] == buf@[1]);
        assert(old(buf)@.subrange(0, 4)[2] == buf@[2]);
        assert(old(buf)@.subrange(0, 4)[3] == buf@[3]);
        assert(n as nat == be32_val(old(buf)@.subrange(0, 4)));
    }
    let n_usize = n as usize;
    if n_usize > MAX_PAYLOAD_LEN {
        return Err(FrameError::TooLong);
    }
    if buf.len() - 4 < n_usize {
        return Ok(None);
    }
    let mut tail = buf.split_off(4);
    let rest = tail.split_off(n_usize);
    let ghost pre = old(buf)@;
    *buf = rest;
    proof {
        assert(tail@ =~= pre.subrange(4, 4 + n_usize as int));
        assert(buf@ =~= pre.skip(4 + n_usize as int));
    }
    Ok(Some(tail))
}

} // verus!
