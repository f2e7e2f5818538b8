use efflux::auth::access::{decode_hex, encode_code, random_key, to_hex, verify_code, AccessControl};
use efflux::auth::session::{build_cookie, read_session};
use efflux::auth::token::{issue, sign, verify};

const KEY: &[u8] = b"a-test-signing-key";
const NOW: i64 = 1_700_000_000;

#[test]
fn code_hash_round_trip() {
    let encoded = encode_code("外婆家的鲤鱼");
    assert!(verify_code("外婆家的鲤鱼", &encoded));
    assert!(!verify_code("外婆家的鲤鱼 ", &encoded));
    assert!(!verify_code("别的口令", &encoded));
}

#[test]
fn same_code_hashes_differently() {
    let a = encode_code("同一个口令");
    let b = encode_code("同一个口令");
    assert_ne!(a, b);
    assert!(verify_code("同一个口令", &a));
    assert!(verify_code("同一个口令", &b));
}

#[test]
fn malformed_hash_rejected() {
    assert!(!verify_code("x", ""));
    assert!(!verify_code("x", "plaintext"));
    assert!(!verify_code("x", "pbkdf2$abc$00$00"));
    assert!(!verify_code("x", "sha256$1$00$00"));
}

#[test]
fn hex_round_trip() {
    let raw = random_key();
    assert_eq!(decode_hex(&to_hex(&raw)).unwrap(), raw);
    assert!(decode_hex("abc").is_none());
    assert!(decode_hex("zz").is_none());
}

#[test]
fn token_round_trip() {
    let token = issue(KEY, 30 * 86_400, NOW);
    assert!(verify(KEY, &token, NOW));
    assert!(verify(KEY, &token, NOW + 29 * 86_400));
    assert!(!verify(KEY, &token, NOW + 31 * 86_400));
}

#[test]
fn tampered_token_rejected() {
    let token = issue(KEY, 30 * 86_400, NOW);
    let (payload, _) = token.split_once('.').unwrap();

    let forged = format!("{}.{}", payload.parse::<i64>().unwrap() + 86_400, "00");
    assert!(!verify(KEY, &forged, NOW));

    assert!(!verify(b"another-key", &token, NOW));

    assert!(!verify(KEY, "not-a-token", NOW));
    assert!(!verify(KEY, "abc.def", NOW));
}

#[test]
fn token_has_decimal_expiry_and_hex_signature() {
    let token = issue(KEY, 60, 100);
    let (payload, signature) = token.split_once('.').unwrap();
    assert_eq!(payload, "160");
    assert_eq!(signature, sign(KEY, "160"));
    assert_eq!(signature.len(), 64);
    assert!(signature.chars().all(|c| c.is_ascii_hexdigit() && !c.is_ascii_uppercase()));
    // the expiry is exclusive
    assert!(verify(KEY, &token, 159));
    assert!(!verify(KEY, &token, 160));
}

#[test]
fn negative_and_signed_expiry_text() {
    let token = issue(KEY, -50, 10);
    assert!(token.starts_with("-40."));
    assert!(verify(KEY, &token, -41));
    assert!(!verify(KEY, &token, -40));
    // `+` is accepted in front of the expiry, as `i64::from_str` does
    let plus = format!("+160.{}", sign(KEY, "+160"));
    assert!(verify(KEY, &plus, 0));
    // a signature over different text does not carry over
    let other = format!("+160.{}", sign(KEY, "160"));
    assert!(!verify(KEY, &other, 0));
}

#[test]
fn hex_text_is_lower_case_and_reads_either_case() {
    assert_eq!(to_hex(&[0x00, 0x0f, 0xab, 0xff]), "000fabff");
    assert_eq!(decode_hex("0Fab").unwrap(), vec![0x0f, 0xab]);
    assert_eq!(decode_hex("").unwrap(), Vec::<u8>::new());
    // `u8::from_str_radix` takes a leading plus sign in a group
    assert_eq!(decode_hex("+a").unwrap(), vec![10]);
    assert!(decode_hex("-a").is_none());
    assert!(decode_hex("é").is_none());
}

#[test]
fn encoded_code_has_the_stored_shape() {
    let encoded = encode_code("123456");
    let parts: Vec<&str> = encoded.split('$').collect();
    assert_eq!(parts.len(), 4);
    assert_eq!(parts[0], "pbkdf2");
    assert_eq!(parts[1], "120000");
    assert_eq!(parts[2].len(), 32);
    assert_eq!(parts[3].len(), 64);
    // a record whose round count no longer parses is refused
    let broken = format!("pbkdf2$12x$ {}${}", parts[2], parts[3]);
    assert!(!verify_code("123456", &broken));
}

#[test]
fn access_bootstrap_and_change() {
    let boot = AccessControl::bootstrap(None, Some("secret-code"), None, 30);
    let mut access = boot.access;
    assert!(access.is_protected());
    assert_eq!(access.ttl_secs(), 30 * 86_400);
    let stored_hash = boot.store_code_hash.unwrap();
    assert!(verify_code("secret-code", &stored_hash));
    let stored_key = boot.store_signing_key.unwrap();
    assert_eq!(stored_key.len(), 64);
    assert!(access.verify_code("secret-code"));
    assert!(!access.verify_code("secret-cod"));

    let token = access.issue_token(NOW).unwrap();
    assert!(access.verify_token(&token, NOW));
    assert!(!access.verify_token(&token, NOW + 30 * 86_400));

    // a restart with what was stored keeps the same key, so sessions survive
    let again = AccessControl::bootstrap(Some(stored_hash.clone()), None, Some(stored_key), 30);
    assert!(again.store_code_hash.is_none());
    assert!(again.store_signing_key.is_none());
    assert!(again.access.verify_token(&token, NOW));

    let change = access.change_code("another-code");
    assert!(verify_code("another-code", &change.code_hash));
    assert!(access.verify_code("another-code"));
    assert!(!access.verify_code("secret-code"));
    // the key was rotated: the old session is gone
    assert!(!access.verify_token(&token, NOW));
    assert_eq!(change.signing_key.len(), 64);
}

#[test]
fn open_access_issues_nothing() {
    let boot = AccessControl::bootstrap(None, None, None, 1);
    assert!(boot.store_code_hash.is_none());
    assert!(boot.store_signing_key.is_some());
    let access = boot.access;
    assert!(!access.is_protected());
    assert!(access.issue_token(NOW).is_none());
    assert!(!access.verify_code(""));
    let token = issue(b"k", 10, NOW);
    assert!(!access.verify_token(&token, NOW));
    // a stored key that is not hex is replaced for this run, not stored again
    let odd = AccessControl::bootstrap(None, None, Some("zz".to_string()), 1);
    assert!(odd.store_signing_key.is_none());
}

#[test]
fn session_cookie_is_found_among_others() {
    assert_eq!(
        read_session("theme=dark; efflux_session = abc.def ; other=1").as_deref(),
        Some("abc.def")
    );
    assert_eq!(read_session("efflux_session=first; efflux_session=second").as_deref(), Some("first"));
    assert_eq!(read_session("efflux_session_x=1; plain"), None);
    assert_eq!(read_session(""), None);
    assert_eq!(read_session("efflux_session=a=b").as_deref(), Some("a=b"));
}

#[test]
fn session_cookie_text() {
    assert_eq!(
        build_cookie("t.s", 2_592_000, false),
        "efflux_session=t.s; Path=/; HttpOnly; SameSite=Lax; Max-Age=2592000"
    );
    assert_eq!(
        build_cookie("t", -1, true),
        "efflux_session=t; Path=/; HttpOnly; SameSite=Lax; Max-Age=-1; Secure"
    );
}
