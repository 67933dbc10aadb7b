//! Trusted wrappers around the outside collaborators: the hash functions,
//! secp256k1, the random source, hex and the few std string operations
//! that vstd leaves unspecified.
use vstd::prelude::*;

use crate::base58::be_value;

use ripemd::Ripemd160;
use secp256k1::{PublicKey, Secp256k1, SecretKey};
use sha2::{Digest, Sha256};

verus! {

/// The order of the secp256k1 group.
pub open spec fn curve_order() -> nat {
    0xFFFFFFFFFFFFFFFFFFFFFFFFFFFFFFFEBAAEDCE6AF48A03BBFD25E8CD0364141nat
}

/// A secret scalar: 32 bytes whose big-endian value lies in `[1, n - 1]`.
pub open spec fn valid_secret(b: Seq<u8>) -> bool {
    b.len() == 32 && 0 < be_value(b, 256) < curve_order()
}

/// The SHA-256 digest of `b`.
pub uninterp spec fn sha256_of(b: Seq<u8>) -> Seq<u8>;

/// The RIPEMD-160 digest of `b`.
pub uninterp spec fn ripemd160_of(b: Seq<u8>) -> Seq<u8>;

/// The 33-byte compressed serialisation of `secret × G`.
pub uninterp spec fn compressed_point_of(secret: Seq<u8>) -> Seq<u8>;

/// The 65-byte uncompressed serialisation of `secret × G`.
pub uninterp spec fn uncompressed_point_of(secret: Seq<u8>) -> Seq<u8>;

/// The Unicode lowercase form of `s`.
pub uninterp spec fn lower_of(s: Seq<char>) -> Seq<char>;

/// Lowercase form of an ASCII character.
pub open spec fn ascii_lower_char(c: char) -> char {
    if 'A' <= c <= 'Z' {
        ((c as u32) + 32) as u8 as char
    } else {
        c
    }
}

/// Lowercase form of ASCII text.
pub open spec fn ascii_lower(s: Seq<char>) -> Seq<char> {
    s.map_values(|c: char| ascii_lower_char(c))
}

/// Every character of `s` is ASCII.
pub open spec fn all_ascii(s: Seq<char>) -> bool {
    forall|i: int| 0 <= i < s.len() ==> (s[i] as u32) < 128
}

/// Lowercase hexadecimal digit for a value below 16.
pub open spec fn hex_digit(n: u8) -> char {
    if n < 10 {
        (48 + n) as u8 as char
    } else {
        (87 + n) as u8 as char
    }
}

/// Two lowercase hexadecimal digits per byte, high nibble first.
pub open spec fn hex_spec(b: Seq<u8>) -> Seq<char>
    decreases b.len(),
{
    if b.len() == 0 {
        Seq::empty()
    } else {
        hex_spec(b.drop_last()) + seq![hex_digit(b.last() / 16), hex_digit(b.last() % 16)]
    }
}

/// Relies on std's `String::push`: appends one character at the end.
#[verifier::external_body]
pub(crate) fn push_char(s: &mut String, c: char)
    ensures
        final(s)@ == old(s)@.push(c),
{
    s.push(c)
}

/// Relies on sha2's `Sha256::digest`: the 32-byte SHA-256 digest of the input.
#[verifier::external_body]
pub(crate) fn sha256(data: &[u8]) -> (r: [u8; 32])
    ensures
        r@ == sha256_of(data@),
{
    Sha256::digest(data).into()
}

/// Relies on ripemd's `Ripemd160::digest`: the 20-byte RIPEMD-160 digest of
/// the input.
#[verifier::external_body]
pub(crate) fn ripemd160(data: &[u8]) -> (r: [u8; 20])
    ensures
        r@ == ripemd160_of(data@),
{
    Ripemd160::digest(data).into()
}

/// Relies on secp256k1's `SecretKey::new` over rand's `thread_rng`: draws
/// 32 random bytes until they form a valid secret scalar (it panics if the
/// operating system's random source fails).
#[verifier::external_body]
pub(crate) fn random_secret() -> (r: [u8; 32])
    ensures
        valid_secret(r@),
{
    SecretKey::new(&mut rand::thread_rng()).secret_bytes()
}

/// Relies on secp256k1's `SecretKey::from_slice`: it accepts 32 bytes
/// exactly when their value is a non-zero scalar below the curve order.
#[verifier::external_body]
pub(crate) fn is_valid_secret(bytes: &[u8; 32]) -> (r: bool)
    ensures
        r == valid_secret(bytes@),
{
    SecretKey::from_slice(bytes).is_ok()
}

/// Relies on secp256k1's `PublicKey::from_secret_key` and the two
/// serialisations of the resulting point, `serialize` (compressed) and
/// `serialize_uncompressed`.
#[verifier::external_body]
pub(crate) fn public_point(secret: &[u8; 32]) -> (r: ([u8; 33], [u8; 65]))
    requires
        valid_secret(secret@),
    ensures
        r.0@ == compressed_point_of(secret@),
        r.1@ == uncompressed_point_of(secret@),
{
    let sk = SecretKey::from_slice(secret).expect("a valid secret scalar");
    let pk = PublicKey::from_secret_key(&Secp256k1::new(), &sk);
    (pk.serialize(), pk.serialize_uncompressed())
}

/// Relies on hex's `encode`: two lowercase hexadecimal digits per byte.
#[verifier::external_body]
pub(crate) fn to_hex(data: &[u8]) -> (r: String)
    ensures
        r@ == hex_spec(data@),
{
    hex::encode(data)
}

/// Relies on std's `str::to_lowercase`: the result depends on the characters
/// alone, and on ASCII text it maps `A`..`Z` to `a`..`z` and keeps the rest.
#[verifier::external_body]
pub(crate) fn lowercase(s: &str) -> (r: String)
    ensures
        r@ == lower_of(s@),
        all_ascii(s@) ==> r@ == ascii_lower(s@),
{
    s.to_lowercase()
}

} // verus!
