//! Session tokens: `expiry.signature`, where the signature is the lower-case
//! hex HMAC-SHA256 of the expiry's decimal text.
//!
//! A token carries no identity and the server keeps no session table: a
//! token stays good until it expires, for as long as the signing key is
//! unchanged. Rotating the key (done when the access code changes) voids
//! every token issued before.
use vstd::prelude::*;
use vstd::string::StringSliceAdditionalSpecFns;
use vstd::utf8::encode_utf8;

use crate::crypto::{ct_eq, hmac_sha256, hmac_sha256_tag};
use crate::hex::{hex_lower, hex_lower_bytes, hex_value, lemma_hex_ascii, lemma_hex_lacks};
use crate::text::{
    copy_range, decimal_i64, find_byte, int_decimal, is_first_index, lacks, lemma_digits_lack,
    lemma_nat_decimal, lemma_parse_int_decimal, parse_i64, parse_signed, string_of_ascii,
};

verus! {

/// The signature of a payload: the hex HMAC-SHA256 of its bytes.
pub open spec fn signature_of(key: Seq<u8>, payload: Seq<u8>) -> Seq<u8> {
    hex_lower(hmac_sha256(key, payload))
}

/// The bytes of the token that expires at `expires`.
pub open spec fn token_text(key: Seq<u8>, expires: int) -> Seq<u8> {
    int_decimal(expires) + seq![46u8] + signature_of(key, int_decimal(expires))
}

/// Whether `token` is accepted at time `now`: it splits at its first `.`
/// into a payload that parses as an `i64` expiry later than `now`, and a
/// signature equal to the signature of that payload.
pub open spec fn token_accepts(key: Seq<u8>, token: Seq<u8>, now: int) -> bool {
    exists|i: int|
        #![trigger is_first_index(token, 46u8, i)]
        is_first_index(token, 46u8, i) && match parse_signed(
            token.take(i),
            i64::MIN as int,
            i64::MAX as int,
        ) {
            Some(expires) => expires > now && token.skip(i + 1) == signature_of(key, token.take(i)),
            None => false,
        }
}

fn sign_bytes(key: &[u8], payload: &[u8]) -> (r: Vec<u8>)
    ensures
        r@ == signature_of(key@, payload@),
{
    let tag = hmac_sha256_tag(key, payload);
    hex_lower_bytes(&tag)
}

/// The signature of `payload` under `key`, as text.
pub fn sign(key: &[u8], payload: &str) -> (s: String)
    ensures
        encode_utf8(s@) == signature_of(key@, payload.spec_bytes()),
{
    let sig = sign_bytes(key, payload.as_bytes());
    proof {
        lemma_hex_ascii(hmac_sha256(key@, payload.spec_bytes()));
    }
    string_of_ascii(&sig)
}

/// Issues a token that expires `ttl_secs` after `now`.
pub fn issue(key: &[u8], ttl_secs: i64, now: i64) -> (token: String)
    requires
        i64::MIN <= now + ttl_secs <= i64::MAX,
    ensures
        encode_utf8(token@) == token_text(key@, now + ttl_secs),
{
    let expires = now + ttl_secs;
    let payload = decimal_i64(expires);
    let sig = sign_bytes(key, &payload);
    let mut out = payload;
    out.push(46u8);
    let mut i: usize = 0;
    while i < sig.len()
        invariant
            0 <= i <= sig@.len(),
            out@ == int_decimal(expires as int) + seq![46u8] + sig@.take(i as int),
        decreases sig@.len() - i,
    {
        out.push(sig[i]);
        i = i + 1;
        assert(out@ =~= int_decimal(expires as int) + seq![46u8] + sig@.take(i as int));
    }
    assert(sig@.take(sig@.len() as int) =~= sig@);
    proof {
        lemma_token_ascii(key@, expires as int);
    }
    string_of_ascii(&out)
}

proof fn lemma_token_ascii(key: Seq<u8>, expires: int)
    ensures
        crate::text::is_ascii_bytes(token_text(key, expires)),
{
    let d = int_decimal(expires);
    let h = signature_of(key, d);
    lemma_hex_ascii(hmac_sha256(key, d));
    if expires < 0 {
        lemma_nat_decimal((-expires) as nat);
    } else {
        lemma_nat_decimal(expires as nat);
    }
    let t = token_text(key, expires);
    assert forall|i: int| 0 <= i < t.len() implies #[trigger] t[i] < 128 by {
        if i < d.len() {
            assert(t[i] == d[i]);
            if expires < 0 && i > 0 {
                assert(d[i] == nat_decimal_of(expires)[i - 1]);
            }
        } else if i > d.len() {
            assert(t[i] == h[i - d.len() - 1]);
        }
    }
}

spec fn nat_decimal_of(expires: int) -> Seq<u8> {
    crate::text::nat_decimal((-expires) as nat)
}

/// Checks a token at time `now`.
pub fn verify(key: &[u8], token: &str, now: i64) -> (ok: bool)
    ensures
        ok == token_accepts(key@, token.spec_bytes(), now as int),
{
    let bytes = token.as_bytes();
    let ghost t = token.spec_bytes();
    let dot = match find_byte(bytes, 46u8) {
        Some(i) => i,
        None => {
            assert(!token_accepts(key@, t, now as int));
            return false;
        },
    };
    assert(dot < bytes.len());
    let payload = copy_range(bytes, 0, dot);
    let signature = copy_range(bytes, dot + 1, bytes.len());
    assert(payload@ =~= t.take(dot as int));
    assert(signature@ =~= t.skip(dot + 1));
    proof {
        assert forall|j: int| #[trigger] is_first_index(t, 46u8, j) implies j == dot by {
            if j < dot {
                assert(t[j] != 46u8);
            } else if j > dot {
                assert(t[dot as int] != 46u8);
            }
        }
    }
    let expires = match parse_i64(&payload) {
        Some(e) => e,
        None => {
            assert(!token_accepts(key@, t, now as int));
            return false;
        },
    };
    if expires <= now {
        assert(!token_accepts(key@, t, now as int));
        return false;
    }
    let expected = sign_bytes(key, &payload);
    let ok = ct_eq(&expected, &signature);
    assert(is_first_index(t, 46u8, dot as int));
    ok
}

/// A token that `issue` made for expiry `expires` is accepted at `now`
/// exactly while `now` is before the expiry.
pub proof fn lemma_token_text_accepts(key: Seq<u8>, expires: int, now: int)
    requires
        i64::MIN <= expires <= i64::MAX,
    ensures
        token_accepts(key, token_text(key, expires), now) <==> expires > now,
{
    let d = int_decimal(expires);
    let t = token_text(key, expires);
    lemma_parse_int_decimal(expires, i64::MIN as int, i64::MAX as int);
    if expires < 0 {
        lemma_nat_decimal((-expires) as nat);
        lemma_digits_lack(nat_decimal_of(expires), 46u8);
        assert forall|j: int| 0 <= j < d.len() implies d[j] != 46u8 by {
            if j > 0 {
                assert(d[j] == nat_decimal_of(expires)[j - 1]);
            }
        }
    } else {
        lemma_nat_decimal(expires as nat);
        lemma_digits_lack(d, 46u8);
    }
    let i = d.len() as int;
    assert(t[i] == 46u8);
    assert forall|j: int| 0 <= j < i implies t[j] != 46u8 by {
        assert(t[j] == d[j]);
    }
    assert(is_first_index(t, 46u8, i));
    assert(t.take(i) =~= d);
    assert(t.skip(i + 1) =~= signature_of(key, d));
    assert forall|j: int| #[trigger] is_first_index(t, 46u8, j) implies j == i by {
        if j < i {
            assert(t[j] == d[j]);
        } else if j > i {
            assert(t[i] == 46u8);
        }
    }
}

/// Law: a token issued at `now` with lifetime `ttl_secs` verifies at time
/// `at` exactly when `at` comes before `now + ttl_secs`.
pub proof fn issued_token_verifies_until_expiry(key: Seq<u8>, ttl_secs: i64, now: i64, at: i64)
    requires
        i64::MIN <= now + ttl_secs <= i64::MAX,
    ensures
        token_accepts(key, token_text(key, now + ttl_secs), at as int) <==> (at as int) < now
            + ttl_secs,
{
    lemma_token_text_accepts(key, now + ttl_secs, at as int);
}

} // verus!
