use vstd::prelude::*;
use vstd::bytes::{spec_u32_to_le_bytes, spec_u64_to_le_bytes, lemma_auto_spec_u32_to_from_le_bytes, lemma_auto_spec_u64_to_from_le_bytes};
use vstd::utf8::{encode_utf8, encode_utf8_decode_utf8};
use crate::error::Error;

verus! {

/// The canonical encoding of a 64-bit unsigned integer: eight bytes,
/// little endian.
pub open spec fn enc_u64(v: u64) -> Seq<u8> {
    spec_u64_to_le_bytes(v)
}

/// The canonical encoding of a byte string: a 32-bit little-endian length
/// followed by the bytes.
pub open spec fn enc_bytes(v: Seq<u8>) -> Seq<u8>
    recommends
        v.len() <= u32::MAX,
{
    spec_u32_to_le_bytes(v.len() as u32) + v
}

/// The canonical encoding of a string: its UTF-8 bytes, length-prefixed.
pub open spec fn enc_string(s: Seq<char>) -> Seq<u8> {
    enc_bytes(encode_utf8(s))
}

/// The integers of `v` encoded back to back, little endian.
pub open spec fn u64s_le(v: Seq<u64>) -> Seq<u8>
    decreases v.len(),
{
    if v.len() == 0 {
        Seq::empty()
    } else {
        u64s_le(v.drop_last()) + enc_u64(v.last())
    }
}

/// The canonical encoding of a list of 64-bit integers: a 32-bit
/// little-endian count followed by the integers.
pub open spec fn enc_u64_list(v: Seq<u64>) -> Seq<u8>
    recommends
        v.len() <= u32::MAX,
{
    spec_u32_to_le_bytes(v.len() as u32) + u64s_le(v)
}

/// The canonical encoding of an optional integer: a presence byte, then
/// the integer when present.
pub open spec fn enc_opt_u64(v: Option<u64>) -> Seq<u8> {
    match v {
        None => seq![0u8],
        Some(x) => seq![1u8] + enc_u64(x),
    }
}

/// Relies on `borsh::to_vec` for `u64`: eight little-endian bytes.
#[verifier::external_body]
pub fn encode_u64(v: u64) -> (r: Vec<u8>)
    ensures
        r@ == enc_u64(v),
{
    borsh::to_vec(&v).unwrap_or_default()
}

/// Relies on `borsh::from_slice` for `u64`: accepts exactly eight bytes,
/// read little endian.
#[verifier::external_body]
pub fn decode_u64(b: &[u8]) -> (r: Result<u64, Error>)
    ensures
        match r {
            Ok(v) => b@ == enc_u64(v),
            Err(e) => !decodable_u64(b@) && e is Coding,
        },
{
    borsh::from_slice::<u64>(b).map_err(|e| Error::Coding(e.to_string()))
}

/// Relies on `borsh::to_vec` for `Vec<u8>`: a 32-bit little-endian length
/// prefix, then the bytes.
#[verifier::external_body]
pub fn encode_bytes(v: &Vec<u8>) -> (r: Vec<u8>)
    requires
        v@.len() <= u32::MAX,
    ensures
        r@ == enc_bytes(v@),
{
    borsh::to_vec(v).unwrap_or_default()
}

/// Relies on `borsh::from_slice` for `Vec<u8>`: accepts exactly a length
/// prefix followed by that many bytes.
#[verifier::external_body]
pub fn decode_bytes(b: &[u8]) -> (r: Result<Vec<u8>, Error>)
    ensures
        match r {
            Ok(v) => b@ == enc_bytes(v@) && v@.len() <= u32::MAX,
            Err(e) => e is Coding && !decodable_bytes(b@),
        },
{
    borsh::from_slice::<Vec<u8>>(b).map_err(|e| Error::Coding(e.to_string()))
}

/// Relies on `borsh::to_vec` for `String`: the UTF-8 bytes,
/// length-prefixed.
#[verifier::external_body]
pub fn encode_string(s: &str) -> (r: Vec<u8>)
    requires
        encode_utf8(s@).len() <= u32::MAX,
    ensures
        r@ == enc_string(s@),
{
    borsh::to_vec(s).unwrap_or_default()
}

/// Relies on `borsh::from_slice` for `String`: accepts exactly a length
/// prefix followed by that many bytes of valid UTF-8.
#[verifier::external_body]
pub fn decode_string(b: &[u8]) -> (r: Result<String, Error>)
    ensures
        match r {
            Ok(s) => b@ == enc_string(s@),
            Err(e) => e is Coding && !decodable_string(b@),
        },
{
    borsh::from_slice::<String>(b).map_err(|e| Error::Coding(e.to_string()))
}

/// Relies on `borsh::to_vec` for `Vec<u64>`: a 32-bit little-endian count,
/// then each integer little endian.
#[verifier::external_body]
pub fn encode_u64_list(v: &Vec<u64>) -> (r: Vec<u8>)
    requires
        v@.len() <= u32::MAX,
    ensures
        r@ == enc_u64_list(v@),
{
    borsh::to_vec(v).unwrap_or_default()
}

/// Relies on `borsh::from_slice` for `Vec<u64>`: accepts exactly a count
/// prefix followed by that many eight-byte integers.
#[verifier::external_body]
pub fn decode_u64_list(b: &[u8]) -> (r: Result<Vec<u64>, Error>)
    ensures
        match r {
            Ok(v) => b@ == enc_u64_list(v@) && v@.len() <= u32::MAX,
            Err(e) => e is Coding && !decodable_u64_list(b@),
        },
{
    borsh::from_slice::<Vec<u64>>(b).map_err(|e| Error::Coding(e.to_string()))
}

/// Relies on `borsh::to_vec` for `Option<u64>`: a presence byte, then the
/// integer when present.
#[verifier::external_body]
pub fn encode_opt_u64(v: &Option<u64>) -> (r: Vec<u8>)
    ensures
        r@ == enc_opt_u64(*v),
{
    borsh::to_vec(v).unwrap_or_default()
}

/// Relies on `borsh::from_slice` for `Option<u64>`: accepts exactly a
/// presence byte of zero or one, then eight bytes when present.
#[verifier::external_body]
pub fn decode_opt_u64(b: &[u8]) -> (r: Result<Option<u64>, Error>)
    ensures
        match r {
            Ok(v) => b@ == enc_opt_u64(v),
            Err(e) => e is Coding && !decodable_opt_u64(b@),
        },
{
    borsh::from_slice::<Option<u64>>(b).map_err(|e| Error::Coding(e.to_string()))
}

/// Whether two byte vectors hold the same bytes.
pub fn bytes_eq(a: &Vec<u8>, b: &Vec<u8>) -> (r: bool)
    ensures
        r == (a@ == b@),
{
    let n = a.len();
    if n != b.len() {
        proof {
            assert(a@.len() != b@.len());
        }
        return false;
    }
    let mut i: usize = 0;
    while i < n
        invariant
            i <= n,
            n == a@.len(),
            n == b@.len(),
            forall|j: int| 0 <= j < i ==> a@[j] == b@[j],
        decreases n - i,
    {
        if a[i] != b[i] {
            return false;
        }
        i = i + 1;
    }
    proof {
        assert(a@ =~= b@);
    }
    true
}

// The decoders accept exactly the encoders' images. The predicates below
// name those images, so that callers can say when a decode is owed
// success.

/// Whether some integer encodes to `b`: exactly the eight-byte strings.
pub open spec fn decodable_u64(b: Seq<u8>) -> bool {
    b.len() == 8
}

/// Whether some byte string encodes to `b`.
pub open spec fn decodable_bytes(b: Seq<u8>) -> bool {
    exists|v: Seq<u8>| v.len() <= u32::MAX && b == enc_bytes(v)
}

/// Whether some string encodes to `b`.
pub open spec fn decodable_string(b: Seq<u8>) -> bool {
    exists|s: Seq<char>| b == enc_string(s)
}

/// Whether some integer list encodes to `b`.
pub open spec fn decodable_u64_list(b: Seq<u8>) -> bool {
    exists|v: Seq<u64>| v.len() <= u32::MAX && b == enc_u64_list(v)
}

/// Whether some optional integer encodes to `b`.
pub open spec fn decodable_opt_u64(b: Seq<u8>) -> bool {
    exists|v: Option<u64>| b == enc_opt_u64(v)
}

/// An encoded integer is eight bytes long, so every encoding is decodable.
pub proof fn lemma_enc_u64_decodable(v: u64)
    ensures
        decodable_u64(enc_u64(v)),
{
    lemma_auto_spec_u64_to_from_le_bytes();
}

// With the decoders accepting exactly the encodings, encode-then-decode is
// the identity as soon as each encoding determines its value. The lemmas
// below state that determination for every persisted typed value.

/// Two integers with the same encoding are the same integer: decoding an
/// encoded `u64` gives the value back.
pub proof fn lemma_roundtrip_u64(a: u64, b: u64)
    requires
        enc_u64(a) == enc_u64(b),
    ensures
        a == b,
{
    lemma_auto_spec_u64_to_from_le_bytes();
}

/// Two byte strings with the same encoding are the same: decoding an
/// encoded byte string gives the bytes back.
pub proof fn lemma_roundtrip_bytes(a: Seq<u8>, b: Seq<u8>)
    requires
        a.len() <= u32::MAX,
        b.len() <= u32::MAX,
        enc_bytes(a) == enc_bytes(b),
    ensures
        a == b,
{
    lemma_auto_spec_u32_to_from_le_bytes();
    let ea = enc_bytes(a);
    let eb = enc_bytes(b);
    assert(spec_u32_to_le_bytes(a.len() as u32) =~= ea.subrange(0, 4));
    assert(spec_u32_to_le_bytes(b.len() as u32) =~= eb.subrange(0, 4));
    assert(a.len() == b.len());
    assert(a =~= ea.subrange(4, ea.len() as int));
    assert(b =~= eb.subrange(4, eb.len() as int));
}

/// Two strings with the same encoding are the same string: decoding an
/// encoded string gives the string back.
pub proof fn lemma_roundtrip_string(a: Seq<char>, b: Seq<char>)
    requires
        encode_utf8(a).len() <= u32::MAX,
        encode_utf8(b).len() <= u32::MAX,
        enc_string(a) == enc_string(b),
    ensures
        a == b,
{
    lemma_roundtrip_bytes(encode_utf8(a), encode_utf8(b));
    encode_utf8_decode_utf8(a);
    encode_utf8_decode_utf8(b);
}

proof fn lemma_u64s_le_len(v: Seq<u64>)
    ensures
        u64s_le(v).len() == 8 * v.len(),
    decreases v.len(),
{
    lemma_auto_spec_u64_to_from_le_bytes();
    if v.len() > 0 {
        lemma_u64s_le_len(v.drop_last());
    }
}

proof fn lemma_u64s_le_injective(a: Seq<u64>, b: Seq<u64>)
    requires
        a.len() == b.len(),
        u64s_le(a) == u64s_le(b),
    ensures
        a == b,
    decreases a.len(),
{
    lemma_auto_spec_u64_to_from_le_bytes();
    if a.len() > 0 {
        lemma_u64s_le_len(a.drop_last());
        lemma_u64s_le_len(b.drop_last());
        let ea = u64s_le(a);
        let eb = u64s_le(b);
        assert(u64s_le(a.drop_last()) =~= ea.subrange(0, ea.len() - 8));
        assert(u64s_le(b.drop_last()) =~= eb.subrange(0, eb.len() - 8));
        lemma_u64s_le_injective(a.drop_last(), b.drop_last());
        assert(enc_u64(a.last()) =~= ea.subrange(ea.len() - 8, ea.len() as int));
        assert(enc_u64(b.last()) =~= eb.subrange(eb.len() - 8, eb.len() as int));
        lemma_roundtrip_u64(a.last(), b.last());
        assert(a =~= a.drop_last().push(a.last()));
        assert(b =~= b.drop_last().push(b.last()));
    } else {
        assert(a =~= b);
    }
}

/// Two integer lists with the same encoding are the same list: decoding an
/// encoded list gives the list back.
pub proof fn lemma_roundtrip_u64_list(a: Seq<u64>, b: Seq<u64>)
    requires
        a.len() <= u32::MAX,
        b.len() <= u32::MAX,
        enc_u64_list(a) == enc_u64_list(b),
    ensures
        a == b,
{
    lemma_auto_spec_u32_to_from_le_bytes();
    let ea = enc_u64_list(a);
    let eb = enc_u64_list(b);
    assert(spec_u32_to_le_bytes(a.len() as u32) =~= ea.subrange(0, 4));
    assert(spec_u32_to_le_bytes(b.len() as u32) =~= eb.subrange(0, 4));
    assert(a.len() == b.len());
    assert(u64s_le(a) =~= ea.subrange(4, ea.len() as int));
    assert(u64s_le(b) =~= eb.subrange(4, eb.len() as int));
    lemma_u64s_le_injective(a, b);
}

/// Two optional integers with the same encoding are the same: decoding an
/// encoded optional gives it back.
pub proof fn lemma_roundtrip_opt_u64(a: Option<u64>, b: Option<u64>)
    requires
        enc_opt_u64(a) == enc_opt_u64(b),
    ensures
        a == b,
{
    match (a, b) {
        (Some(x), Some(y)) => {
            assert(enc_opt_u64(a)[0] == 1u8 && enc_opt_u64(b)[0] == 1u8);
            assert(enc_u64(x) =~= enc_opt_u64(a).subrange(1, enc_opt_u64(a).len() as int)) by {
                lemma_auto_spec_u64_to_from_le_bytes();
            }
            assert(enc_u64(y) =~= enc_opt_u64(b).subrange(1, enc_opt_u64(b).len() as int)) by {
                lemma_auto_spec_u64_to_from_le_bytes();
            }
            lemma_roundtrip_u64(x, y);
        },
        (None, Some(y)) => {
            assert(enc_opt_u64(a)[0] == 0u8 && enc_opt_u64(b)[0] == 1u8);
        },
        (Some(x), None) => {
            assert(enc_opt_u64(a)[0] == 1u8 && enc_opt_u64(b)[0] == 0u8);
        },
        (None, None) => {},
    }
}

} // verus!
