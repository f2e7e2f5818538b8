//! Access control: the hashed access code and the token signing key.
//!
//! The access code is stored as `pbkdf2$<rounds>$<hex salt>$<hex hash>`;
//! the signing key is kept apart from it, so that changing the code can
//! rotate the key and void every earlier session at once.
use vstd::prelude::*;
use vstd::string::StringSliceAdditionalSpecFns;
use vstd::utf8::encode_utf8;

use crate::auth::token::{issue, token_accepts, token_text, verify};
use crate::crypto::{ct_eq, pbkdf2_hmac_sha256, pbkdf2_sha256_into, uuid_v4_bytes};
use crate::hex::{
    decode_hex_bytes, decode_hex_spec, hex_lower, hex_lower_bytes, hex_value, lemma_hex_ascii,
    lemma_hex_lacks, lemma_hex_round_trip,
};
use crate::text::{
    lemma_split_field, lemma_split_single, split_on,
    ascii_chars, bytes_eq, decimal_u64, is_ascii_bytes, is_digit, lacks, lemma_digits_lack,
    lemma_nat_decimal, lemma_parse_nat_decimal, nat_decimal, parse_unsigned, parse_unsigned_bytes,
    string_of_ascii,
};

verus! {

/// PBKDF2 iterations for a newly stored access code.
pub const PBKDF2_ROUNDS: u32 = 120_000;

/// Bytes of salt in a stored access code.
pub const SALT_LEN: usize = 16;

/// Bytes of hash in a stored access code.
pub const HASH_LEN: usize = 32;

pub open spec fn views(v: Seq<Vec<u8>>) -> Seq<Seq<u8>> {
    v.map_values(|p: Vec<u8>| p@)
}

/// Splits bytes at every `sep`.
fn split_bytes(s: &[u8], sep: u8) -> (parts: Vec<Vec<u8>>)
    ensures
        views(parts@) == split_on(s@, sep),
{
    let mut parts: Vec<Vec<u8>> = Vec::new();
    let mut cur: Vec<u8> = Vec::new();
    assert(s@.take(0) =~= Seq::<u8>::empty());
    assert(views(parts@).push(cur@) =~= seq![Seq::<u8>::empty()]);
    for i in 0..s.len()
        invariant
            split_on(s@.take(i as int), sep) == views(parts@).push(cur@),
    {
        let b = s[i];
        assert(s@.take(i + 1).drop_last() =~= s@.take(i as int));
        assert(s@.take(i + 1).last() == b);
        if b == sep {
            let ghost old_parts = parts@;
            parts.push(cur);
            cur = Vec::new();
            assert(views(parts@) =~= views(old_parts).push(views(parts@).last()));
            assert(views(parts@).push(cur@) =~= split_on(s@.take(i + 1), sep));
        } else {
            let ghost old_cur = cur@;
            cur.push(b);
            assert(views(parts@).push(cur@) =~= views(parts@).push(old_cur).update(
                parts@.len() as int,
                old_cur.push(b),
            ));
        }
    }
    assert(s@.take(s@.len() as int) =~= s@);
    let ghost old_parts = parts@;
    parts.push(cur);
    assert(views(parts@) =~= views(old_parts).push(views(parts@).last()));
    parts
}

// ------------------------------------------------------------------ code hashes

/// The bytes `pbkdf2`.
pub open spec fn pbkdf2_tag() -> Seq<u8> {
    seq![112u8, 98u8, 107u8, 100u8, 102u8, 50u8]
}

/// Whether `code` matches the stored `encoded` form: four `$`-separated
/// fields, the tag `pbkdf2`, a `u32` round count, a 16-byte hex salt and a
/// 32-byte hex hash that equals PBKDF2 of the code with that salt and count.
pub open spec fn code_matches(code: Seq<u8>, encoded: Seq<u8>) -> bool {
    let parts = split_on(encoded, 36u8);
    &&& parts.len() == 4
    &&& parts[0] == pbkdf2_tag()
    &&& match (
        parse_unsigned(parts[1], u32::MAX as int),
        decode_hex_spec(parts[2]),
        decode_hex_spec(parts[3]),
    ) {
        (Some(rounds), Some(salt), Some(expected)) => {
            &&& salt.len() == SALT_LEN
            &&& expected.len() == HASH_LEN
            &&& expected == pbkdf2_hmac_sha256(code, salt, rounds as u32, HASH_LEN as nat)
        },
        _ => false,
    }
}

/// The stored form of a code hash with the given salt and hash.
pub open spec fn code_record(salt: Seq<u8>, hash: Seq<u8>) -> Seq<u8> {
    pbkdf2_tag() + seq![36u8] + nat_decimal(PBKDF2_ROUNDS as nat) + seq![36u8] + hex_lower(salt)
        + seq![36u8] + hex_lower(hash)
}

/// Law: the stored form made from a code's PBKDF2 hash matches that code.
pub proof fn code_record_matches(code: Seq<u8>, salt: Seq<u8>, hash: Seq<u8>)
    requires
        salt.len() == SALT_LEN,
        hash.len() == HASH_LEN,
        hash == pbkdf2_hmac_sha256(code, salt, PBKDF2_ROUNDS, HASH_LEN as nat),
    ensures
        code_matches(code, code_record(salt, hash)),
{
    let t = pbkdf2_tag();
    let d = nat_decimal(PBKDF2_ROUNDS as nat);
    let hs = hex_lower(salt);
    let hh = hex_lower(hash);
    assert(lacks(t, 36u8));
    lemma_nat_decimal(PBKDF2_ROUNDS as nat);
    lemma_digits_lack(d, 36u8);
    assert(hex_value(36u8) is None);
    lemma_hex_lacks(salt, 36u8);
    lemma_hex_lacks(hash, 36u8);
    lemma_split_single(t, 36u8);
    lemma_split_field(t, d, 36u8);
    lemma_split_field(t + seq![36u8] + d, hs, 36u8);
    lemma_split_field(t + seq![36u8] + d + seq![36u8] + hs, hh, 36u8);
    let parts = split_on(code_record(salt, hash), 36u8);
    assert(parts =~= seq![t, d, hs, hh]);
    lemma_parse_nat_decimal(PBKDF2_ROUNDS as nat, u32::MAX as int);
    lemma_hex_round_trip(salt);
    lemma_hex_round_trip(hash);
}

fn pbkdf2_tag_bytes() -> (t: Vec<u8>)
    ensures
        t@ == pbkdf2_tag(),
{
    let t = vec![112u8, 98u8, 107u8, 100u8, 102u8, 50u8];
    assert(t@ =~= pbkdf2_tag());
    t
}

/// PBKDF2-HMAC-SHA256 of the code's bytes, `HASH_LEN` bytes long.
pub fn derive(code: &str, salt: &[u8], rounds: u32) -> (hash: Vec<u8>)
    ensures
        hash@ == pbkdf2_hmac_sha256(code.spec_bytes(), salt@, rounds, HASH_LEN as nat),
        hash@.len() == HASH_LEN,
{
    let mut out: Vec<u8> = Vec::new();
    for _i in 0..HASH_LEN
        invariant
            out@.len() == _i,
    {
        out.push(0u8);
    }
    pbkdf2_sha256_into(code.as_bytes(), salt, rounds, &mut out);
    out
}

/// Whether `code` matches the stored form `encoded`.
pub fn verify_code(code: &str, encoded: &str) -> (ok: bool)
    ensures
        ok == code_matches(code.spec_bytes(), encoded.spec_bytes()),
{
    let parts = split_bytes(encoded.as_bytes(), 36u8);
    if parts.len() != 4 {
        return false;
    }
    let tag = pbkdf2_tag_bytes();
    assert(parts@[0]@ == views(parts@)[0]);
    if !bytes_eq(&parts[0], &tag) {
        return false;
    }
    assert(parts@[1]@ == views(parts@)[1]);
    assert(parts@[2]@ == views(parts@)[2]);
    assert(parts@[3]@ == views(parts@)[3]);
    let rounds = match parse_unsigned_bytes(&parts[1], 0xffff_ffffu64) {
        Some(r) => r as u32,
        None => return false,
    };
    let salt = match decode_hex_bytes(&parts[2]) {
        Some(v) => v,
        None => return false,
    };
    let expected = match decode_hex_bytes(&parts[3]) {
        Some(v) => v,
        None => return false,
    };
    if salt.len() != SALT_LEN || expected.len() != HASH_LEN {
        return false;
    }
    let actual = derive(code, &salt, rounds);
    ct_eq(&expected, &actual)
}

/// Hashes an access code with a fresh random salt into its stored form.
pub fn encode_code(code: &str) -> (encoded: String)
    ensures
        exists|salt: Seq<u8>, hash: Seq<u8>|
            salt.len() == SALT_LEN && hash == pbkdf2_hmac_sha256(
                code.spec_bytes(),
                salt,
                PBKDF2_ROUNDS,
                HASH_LEN as nat,
            ) && encode_utf8(encoded@) == code_record(salt, hash),
        code_matches(code.spec_bytes(), encode_utf8(encoded@)),
{
    let salt = uuid_v4_bytes();
    let hash = derive(code, &salt, PBKDF2_ROUNDS);
    let mut out = pbkdf2_tag_bytes();
    out.push(36u8);
    append(&mut out, &decimal_u64(PBKDF2_ROUNDS as u64));
    out.push(36u8);
    append(&mut out, &hex_lower_bytes(&salt));
    out.push(36u8);
    append(&mut out, &hex_lower_bytes(&hash));
    assert(out@ =~= code_record(salt@, hash@));
    proof {
        code_record_matches(code.spec_bytes(), salt@, hash@);
        lemma_record_ascii(salt@, hash@);
    }
    string_of_ascii(&out)
}

proof fn lemma_record_ascii(salt: Seq<u8>, hash: Seq<u8>)
    ensures
        is_ascii_bytes(code_record(salt, hash)),
{
    lemma_nat_decimal(PBKDF2_ROUNDS as nat);
    lemma_hex_ascii(salt);
    lemma_hex_ascii(hash);
    let r = code_record(salt, hash);
    let d = nat_decimal(PBKDF2_ROUNDS as nat);
    assert forall|i: int| 0 <= i < r.len() implies #[trigger] r[i] < 128 by {
        let a = pbkdf2_tag() + seq![36u8];
        let b = a + d + seq![36u8];
        let c = b + hex_lower(salt) + seq![36u8];
        if i < a.len() {
        } else if i < a.len() + d.len() {
            assert(r[i] == d[i - a.len()]);
            assert(is_digit(d[i - a.len()]));
        } else if i < b.len() {
        } else if i < b.len() + hex_lower(salt).len() {
            assert(r[i] == hex_lower(salt)[i - b.len()]);
        } else if i < c.len() {
        } else {
            assert(r[i] == hex_lower(hash)[i - c.len()]);
        }
    }
}

fn append(out: &mut Vec<u8>, more: &Vec<u8>)
    ensures
        final(out)@ == old(out)@ + more@,
{
    for i in 0..more.len()
        invariant
            out@ == old(out)@ + more@.take(i as int),
    {
        out.push(more[i]);
        assert(out@ =~= old(out)@ + more@.take(i + 1));
    }
    assert(more@.take(more@.len() as int) =~= more@);
}

// ------------------------------------------------------------------ hex text

/// Lower-case hex text of the bytes.
pub fn to_hex(bytes: &[u8]) -> (s: String)
    ensures
        s@ == ascii_chars(hex_lower(bytes@)),
        encode_utf8(s@) == hex_lower(bytes@),
{
    let h = hex_lower_bytes(bytes);
    proof {
        lemma_hex_ascii(bytes@);
    }
    string_of_ascii(&h)
}

/// Reads hex text back into bytes: `None` for an odd byte length or any
/// two-byte group that `u8::from_str_radix(_, 16)` refuses.
pub fn decode_hex(input: &str) -> (r: Option<Vec<u8>>)
    ensures
        match decode_hex_spec(input.spec_bytes()) {
            Some(v) => r is Some && r->0@ == v,
            None => r is None,
        },
{
    decode_hex_bytes(input.as_bytes())
}

/// Law: the hex text of any bytes reads back as those bytes.
pub proof fn hex_text_reads_back(bytes: Seq<u8>)
    ensures
        decode_hex_spec(hex_lower(bytes)) == Some(bytes),
{
    lemma_hex_round_trip(bytes);
}

/// A fresh random signing key of 32 bytes (two random UUIDs).
pub fn random_key() -> (key: Vec<u8>)
    ensures
        key@.len() == 32,
{
    let mut key = uuid_v4_bytes();
    let second = uuid_v4_bytes();
    append(&mut key, &second);
    key
}

} // verus!

verus! {

// ------------------------------------------------------------------ access control

/// What access control holds: the stored code hash (as bytes; `None` leaves the
/// deployment open), the signing key and the session lifetime in seconds.
pub struct AccessState {
    pub code_hash: Option<Seq<u8>>,
    pub signing_key: Seq<u8>,
    pub ttl_secs: int,
}

/// Access control: the access code hash and the signing key live here and
/// can be replaced while the service runs, so changing the code needs no
/// restart.
///
/// This is a plain value: a clone is an independent copy, and a
/// `change_code` on one copy is not seen by another. A service that hands
/// access control to many requests keeps one value behind a shared lock
/// (`Arc<RwLock<AccessControl>>`), so that a change made through the lock
/// is seen by every request at once; a clone serves only to prepare a
/// change before it replaces the shared value.
#[derive(Clone)]
pub struct AccessControl {
    code_hash: Option<String>,
    signing_key: Vec<u8>,
    ttl_secs: i64,
}

impl View for AccessControl {
    type V = AccessState;

    closed spec fn view(&self) -> AccessState {
        AccessState {
            code_hash: match &self.code_hash {
                Some(h) => Some(encode_utf8(h@)),
                None => None,
            },
            signing_key: self.signing_key@,
            ttl_secs: self.ttl_secs as int,
        }
    }
}

/// Access control as started, and what has to be written back to the settings
/// store: a freshly hashed code and a freshly made signing key (in hex).
pub struct Bootstrap {
    pub access: AccessControl,
    pub store_code_hash: Option<String>,
    pub store_signing_key: Option<String>,
}

/// What changing the code writes to the settings store.
pub struct CodeChange {
    pub code_hash: String,
    pub signing_key: String,
}

impl AccessControl {
    /// Start-up: a code hash already stored wins; without one, the code
    /// from the environment is hashed once (and is to be stored). A stored
    /// signing key is reused when it reads back as hex, a key that does not
    /// is replaced by a random one for this run; with no key stored a
    /// random one is made (and is to be stored).
    pub fn bootstrap(
        stored_code_hash: Option<String>,
        env_code: Option<&str>,
        stored_signing_key: Option<String>,
        session_days: i64,
    ) -> (b: Bootstrap)
        requires
            i64::MIN <= session_days * 86_400 <= i64::MAX,
        ensures
            b.access@.ttl_secs == session_days * 86_400,
            b.access@.code_hash is Some <==> (stored_code_hash is Some || env_code is Some),
            match stored_code_hash {
                Some(h) => b.access@.code_hash == Some(encode_utf8(h@)) && b.store_code_hash is None,
                None => match env_code {
                    Some(code) => b.store_code_hash is Some && b.access@.code_hash == Some(
                        encode_utf8(b.store_code_hash->0@),
                    ) && code_matches(code.spec_bytes(), encode_utf8(b.store_code_hash->0@)),
                    None => b.access@.code_hash is None && b.store_code_hash is None,
                },
            },
            match stored_signing_key {
                Some(k) => b.store_signing_key is None && match decode_hex_spec(encode_utf8(k@)) {
                    Some(key) => b.access@.signing_key == key,
                    None => b.access@.signing_key.len() == 32,
                },
                None => b.store_signing_key is Some && b.access@.signing_key.len() == 32
                    && encode_utf8(b.store_signing_key->0@) == hex_lower(b.access@.signing_key),
            },
    {
        let (code_hash, store_code_hash) = match stored_code_hash {
            Some(stored) => (Some(stored), None),
            None => match env_code {
                Some(code) => {
                    let encoded = encode_code(code);
                    let kept = encoded.clone();
                    (Some(encoded), Some(kept))
                },
                None => (None, None),
            },
        };
        let (signing_key, store_signing_key) = match stored_signing_key {
            Some(hex) => match decode_hex(hex.as_str()) {
                Some(key) => (key, None),
                None => (random_key(), None),
            },
            None => {
                let key = random_key();
                let text = to_hex(&key);
                (key, Some(text))
            },
        };
        Bootstrap {
            access: AccessControl { code_hash, signing_key, ttl_secs: session_days * 86_400 },
            store_code_hash,
            store_signing_key,
        }
    }

    /// Whether an access code is set (otherwise the deployment is open).
    pub fn is_protected(&self) -> (r: bool)
        ensures
            r == self@.code_hash is Some,
    {
        self.code_hash.is_some()
    }

    /// The session lifetime in seconds.
    pub fn ttl_secs(&self) -> (r: i64)
        ensures
            r == self@.ttl_secs,
    {
        self.ttl_secs
    }

    /// Whether `code` is the access code; always false when no code is set.
    pub fn verify_code(&self, code: &str) -> (ok: bool)
        ensures
            ok == match self@.code_hash {
                Some(encoded) => code_matches(code.spec_bytes(), encoded),
                None => false,
            },
    {
        match &self.code_hash {
            Some(encoded) => verify_code(code, encoded.as_str()),
            None => false,
        }
    }

    /// Whether `token` is a live session at `now`; always false when no code is set.
    pub fn verify_token(&self, token: &str, now: i64) -> (ok: bool)
        ensures
            ok == (self@.code_hash is Some && token_accepts(
                self@.signing_key,
                token.spec_bytes(),
                now as int,
            )),
    {
        self.code_hash.is_some() && verify(&self.signing_key, token, now)
    }

    /// A session token issued at `now`; `None` when no code is set.
    pub fn issue_token(&self, now: i64) -> (t: Option<String>)
        requires
            i64::MIN <= now + self@.ttl_secs <= i64::MAX,
        ensures
            match t {
                Some(token) => self@.code_hash is Some && encode_utf8(token@) == token_text(
                    self@.signing_key,
                    now + self@.ttl_secs,
                ),
                None => self@.code_hash is None,
            },
    {
        if self.code_hash.is_none() {
            return None;
        }
        Some(issue(&self.signing_key, self.ttl_secs, now))
    }

    /// Changes the access code: stores the new hash and rotates the signing
    /// key, so every earlier session stops working. Gives back what is to be
    /// written to the settings store.
    pub fn change_code(&mut self, new_code: &str) -> (w: CodeChange)
        ensures
            final(self)@.code_hash == Some(encode_utf8(w.code_hash@)),
            code_matches(new_code.spec_bytes(), encode_utf8(w.code_hash@)),
            final(self)@.signing_key.len() == 32,
            encode_utf8(w.signing_key@) == hex_lower(final(self)@.signing_key),
            final(self)@.ttl_secs == old(self)@.ttl_secs,
    {
        let encoded = encode_code(new_code);
        let key = random_key();
        let key_text = to_hex(&key);
        let stored = encoded.clone();
        self.code_hash = Some(encoded);
        self.signing_key = key;
        CodeChange { code_hash: stored, signing_key: key_text }
    }
}

/// Law: while access control is protected, a session token it issues at `now`
/// passes its token check at `at` exactly while `at` is before
/// `now + ttl_secs`.
pub proof fn session_token_lives_for_ttl(state: AccessState, now: i64, at: i64)
    requires
        state.code_hash is Some,
        i64::MIN <= now + state.ttl_secs <= i64::MAX,
    ensures
        (state.code_hash is Some && token_accepts(
            state.signing_key,
            token_text(state.signing_key, now + state.ttl_secs),
            at as int,
        )) <==> (at as int) < now + state.ttl_secs,
{
    crate::auth::token::lemma_token_text_accepts(state.signing_key, now + state.ttl_secs, at as int);
}

} // verus!
