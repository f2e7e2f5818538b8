//! What the login, code-change, logout and session-check requests decide.
//! The waiting before a refusal (which slows down guessing) is left to the
//! caller: a reply says when to wait.
use vstd::prelude::*;
use vstd::string::StringSliceAdditionalSpecFns;

use crate::auth::access::{code_matches, AccessControl};
use crate::auth::session::{cookie_name, first_session, read_session, COOKIE_NAME};
use crate::auth::token::{token_accepts, token_text};
use crate::error::AppError;
use crate::text::{chars_eq, chars_of, push_chars, split_on, string_of, trim, trim_chars};
use vstd::utf8::encode_utf8;

verus! {

/// The body of a login.
pub struct LoginInput {
    pub code: String,
}

/// The body of a code change.
pub struct ChangeCodeInput {
    pub current_code: String,
    pub new_code: String,
}

/// What a request with a code gets back.
pub enum CodeReply<T> {
    /// The deployment has no code: nothing to log into.
    Open,
    /// Refused; the answer waits half a second first (a wrong code).
    SlowRefusal(AppError),
    /// Refused at once.
    Refusal(AppError),
    /// Goes ahead with this.
    Granted(T),
}

/// Logs in with the family code at `now` (seconds): a wrong code is
/// refused after a pause; the right one gets a session token.
pub fn login(access: &AccessControl, input: &LoginInput, now: i64) -> (r: CodeReply<String>)
    requires
        i64::MIN <= now + access@.ttl_secs <= i64::MAX,
    ensures
        access@.code_hash is None ==> r is Open,
        access@.code_hash is Some && !code_matches(
            encode_utf8(trim(input.code@)),
            access@.code_hash->0,
        ) ==> r is SlowRefusal && r->SlowRefusal_0 is Unauthorized
            && r->SlowRefusal_0->Unauthorized_0@ == "口令不对，再想想"@,
        access@.code_hash is Some && code_matches(
            encode_utf8(trim(input.code@)),
            access@.code_hash->0,
        ) ==> r is Granted && encode_utf8(r->Granted_0@) == token_text(
            access@.signing_key,
            now + access@.ttl_secs,
        ),
{
    if !access.is_protected() {
        return CodeReply::Open;
    }
    let code = string_of(&trim_chars(&chars_of(input.code.as_str())));
    if !access.verify_code(code.as_str()) {
        return CodeReply::SlowRefusal(
            AppError::Unauthorized(string_of(&chars_of("口令不对，再想想"))),
        );
    }
    match access.issue_token(now) {
        Some(token) => CodeReply::Granted(token),
        None => CodeReply::Refusal(AppError::Unauthorized(string_of(&chars_of("当前部署未设置口令")))),
    }
}

/// Checks a code change: the deployment must have a code, the current
/// code must be right (else a refusal after a pause), and the new code,
/// trimmed, must have at least six characters and differ from the current
/// one. Goes ahead with the new code, trimmed.
pub fn check_code_change(access: &AccessControl, input: &ChangeCodeInput) -> (r: CodeReply<String>)
    ensures
        r !is Open,
        ({
            let current = trim(input.current_code@);
            let next = trim(input.new_code@);
            if access@.code_hash is None {
                r is Refusal && r->Refusal_0 is Validation && r->Refusal_0->Validation_0@
                    == "当前部署还没有设置访问口令"@
            } else if !code_matches(encode_utf8(current), access@.code_hash->0) {
                r is SlowRefusal && r->SlowRefusal_0 is Unauthorized
                    && r->SlowRefusal_0->Unauthorized_0@ == "当前口令不对"@
            } else if next.len() < 6 {
                r is Refusal && r->Refusal_0 is Validation && r->Refusal_0->Validation_0@
                    == "新口令至少 6 位"@
            } else if next == current {
                r is Refusal && r->Refusal_0 is Validation && r->Refusal_0->Validation_0@
                    == "新口令和现在的一样"@
            } else {
                r is Granted && r->Granted_0@ == next
            }
        }),
{
    if !access.is_protected() {
        return CodeReply::Refusal(AppError::validation("当前部署还没有设置访问口令"));
    }
    let current = trim_chars(&chars_of(input.current_code.as_str()));
    let next = trim_chars(&chars_of(input.new_code.as_str()));
    let current_text = string_of(&current);
    if !access.verify_code(current_text.as_str()) {
        return CodeReply::SlowRefusal(AppError::Unauthorized(string_of(&chars_of("当前口令不对"))));
    }
    if next.len() < 6 {
        return CodeReply::Refusal(AppError::validation("新口令至少 6 位"));
    }
    if chars_eq(&next, &current) {
        return CodeReply::Refusal(AppError::validation("新口令和现在的一样"));
    }
    CodeReply::Granted(string_of(&next))
}

/// The `Set-Cookie` value that ends the session.
pub fn logout_cookie() -> (c: String)
    ensures
        c@ == cookie_name() + "=; Path=/; HttpOnly; SameSite=Lax; Max-Age=0"@,
{
    let mut out = chars_of(COOKIE_NAME);
    push_chars(&mut out, &chars_of("=; Path=/; HttpOnly; SameSite=Lax; Max-Age=0"));
    string_of(&out)
}

/// Whether a request may reach the API at `now` (seconds): always when the
/// deployment has no code; otherwise its `Cookie` header must carry a live
/// session token.
pub fn is_authorized(access: &AccessControl, cookie_header: Option<&str>, now: i64) -> (ok: bool)
    ensures
        ok == (access@.code_hash is None || match cookie_header {
            Some(h) => match first_session(split_on(h@, ';')) {
                Some(token) => token_accepts(access@.signing_key, encode_utf8(token), now as int),
                None => false,
            },
            None => false,
        }),
{
    if !access.is_protected() {
        return true;
    }
    match cookie_header {
        Some(h) => match read_session(h) {
            Some(token) => access.verify_token(token.as_str(), now),
            None => false,
        },
        None => false,
    }
}

/// The refusal of a request without a live session.
pub fn session_required() -> (e: AppError)
    ensures
        e is Unauthorized,
        e->Unauthorized_0@ == "需要先输入访问口令"@,
{
    AppError::Unauthorized(string_of(&chars_of("需要先输入访问口令")))
}

} // verus!
