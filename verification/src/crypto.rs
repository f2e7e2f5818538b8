//! The cryptographic primitives the library takes from outside crates:
//! HMAC-SHA256 (`hmac` + `sha2`), PBKDF2 (`pbkdf2`), constant-time
//! comparison (`subtle`) and random UUIDs (`uuid`).
use vstd::prelude::*;

use hmac::{Hmac, Mac};
use sha2::Sha256;
use subtle::ConstantTimeEq;

verus! {

/// The HMAC-SHA256 tag of `message` under `key`, as the `hmac` crate computes it.
pub uninterp spec fn hmac_sha256(key: Seq<u8>, message: Seq<u8>) -> Seq<u8>;

/// PBKDF2 with HMAC-SHA256, `rounds` iterations and `len` output bytes,
/// as `pbkdf2::pbkdf2_hmac::<Sha256>` fills its output buffer.
pub uninterp spec fn pbkdf2_hmac_sha256(password: Seq<u8>, salt: Seq<u8>, rounds: u32, len: nat) -> Seq<u8>;

/// Calls `Hmac::<Sha256>::new_from_slice`, `Mac::update` and `Mac::finalize`.
/// Claimed: the tag is `hmac_sha256(key, message)`, 32 bytes long (the SHA-256
/// output size). `new_from_slice` never fails for HMAC: keys of any length are
/// accepted (longer ones are hashed first), so the `expect` cannot fire.
#[verifier::external_body]
pub(crate) fn hmac_sha256_tag(key: &[u8], message: &[u8]) -> (tag: Vec<u8>)
    ensures
        tag@ == hmac_sha256(key@, message@),
        tag@.len() == 32,
{
    let mut mac = <Hmac<Sha256> as Mac>::new_from_slice(key).expect("HMAC takes keys of any length");
    mac.update(message);
    mac.finalize().into_bytes().to_vec()
}

/// Calls `pbkdf2::pbkdf2_hmac::<Sha256>` on the buffer `out`.
/// Claimed: the buffer keeps its length and afterwards holds
/// `pbkdf2_hmac_sha256(password, salt, rounds, len)`. The crate's own
/// `expect` cannot fire: HMAC accepts passwords of any length; zero rounds
/// run no extra iteration and do not panic.
#[verifier::external_body]
pub(crate) fn pbkdf2_sha256_into(password: &[u8], salt: &[u8], rounds: u32, out: &mut Vec<u8>)
    ensures
        final(out)@ == pbkdf2_hmac_sha256(password@, salt@, rounds, old(out)@.len()),
        final(out)@.len() == old(out)@.len(),
{
    pbkdf2::pbkdf2_hmac::<Sha256>(password, salt, rounds, out.as_mut_slice());
}

/// Calls `subtle::ConstantTimeEq::ct_eq` on two byte slices and turns the
/// `Choice` into a `bool`. Claimed: true exactly when the slices are equal
/// (the crate answers false at once for different lengths, and otherwise
/// compares every byte).
#[verifier::external_body]
pub(crate) fn ct_eq(a: &[u8], b: &[u8]) -> (eq: bool)
    ensures
        eq == (a@ == b@),
{
    a.ct_eq(b).into()
}

/// Calls `uuid::Uuid::new_v4` and returns its 16 bytes.
/// Claimed: 16 bytes, with the version-4 nibble in byte 6 and the RFC variant
/// bits in byte 8 (the crate masks them in); the other bits are random and
/// nothing is said of them.
#[verifier::external_body]
pub(crate) fn uuid_v4_bytes() -> (b: Vec<u8>)
    ensures
        b@.len() == 16,
        b@[6] / 16 == 4,
        b@[8] / 64 == 2,
{
    uuid::Uuid::new_v4().as_bytes().to_vec()
}

} // verus!

verus! {

/// A lower-case hex digit character.
pub open spec fn is_hex_lower_char(c: char) -> bool {
    ('0' <= c <= '9') || ('a' <= c <= 'f')
}

/// The hyphenated text form of a UUID: 36 characters, `-` at positions 8,
/// 13, 18 and 23, lower-case hex digits everywhere else.
pub open spec fn is_uuid_text(s: Seq<char>) -> bool {
    &&& s.len() == 36
    &&& forall|i: int|
        0 <= i < 36 ==> if i == 8 || i == 13 || i == 18 || i == 23 {
            s[i] == '-'
        } else {
            is_hex_lower_char(#[trigger] s[i])
        }
}

/// Calls `uuid::Uuid::new_v4` and formats it with `Display` (the hyphenated
/// form). Claimed: 36 characters, `-` at positions 8, 13, 18 and 23 and
/// lower-case hex digits everywhere else; which digits is left unsaid
/// (they are random).
#[verifier::external_body]
pub(crate) fn uuid_v4_text() -> (s: String)
    ensures
        s@.len() == 36,
        forall|i: int|
            0 <= i < 36 ==> if i == 8 || i == 13 || i == 18 || i == 23 {
                s@[i] == '-'
            } else {
                is_hex_lower_char(#[trigger] s@[i])
            },
{
    uuid::Uuid::new_v4().to_string()
}

/// Calls `uuid::Uuid::new_v4` and formats it with `simple()` (32 hex
/// digits, no hyphens). Claimed: 32 lower-case hex digits; which ones is
/// left unsaid (they are random).
#[verifier::external_body]
pub(crate) fn uuid_v4_simple_text() -> (s: String)
    ensures
        s@.len() == 32,
        forall|i: int| 0 <= i < 32 ==> is_hex_lower_char(#[trigger] s@[i]),
{
    uuid::Uuid::new_v4().simple().to_string()
}

} // verus!
