use efflux::auth::access::AccessControl;
use efflux::auth::requests::{
    check_code_change, is_authorized, login, logout_cookie, session_required, ChangeCodeInput,
    CodeReply, LoginInput,
};
use efflux::error::AppError;

const NOW: i64 = 1_700_000_000;

fn protected() -> AccessControl {
    AccessControl::bootstrap(None, Some("外婆家的鲤鱼"), None, 30).access
}

#[test]
fn logging_in() {
    let open = AccessControl::bootstrap(None, None, None, 30).access;
    assert!(matches!(login(&open, &LoginInput { code: "x".to_string() }, NOW), CodeReply::Open));
    let access = protected();
    match login(&access, &LoginInput { code: "不对".to_string() }, NOW) {
        CodeReply::SlowRefusal(AppError::Unauthorized(m)) => assert_eq!(m, "口令不对，再想想"),
        _ => panic!("expected a slow refusal"),
    }
    let token = match login(&access, &LoginInput { code: "  外婆家的鲤鱼 ".to_string() }, NOW) {
        CodeReply::Granted(t) => t,
        _ => panic!("expected a session"),
    };
    let cookie = format!("a=b; efflux_session={token}");
    assert!(is_authorized(&access, Some(&cookie), NOW));
    assert!(!is_authorized(&access, Some(&cookie), NOW + 31 * 86_400));
    assert!(!is_authorized(&access, None, NOW));
    assert!(is_authorized(&open, None, NOW));
    assert_eq!(logout_cookie(), "efflux_session=; Path=/; HttpOnly; SameSite=Lax; Max-Age=0");
    match session_required() {
        AppError::Unauthorized(m) => assert_eq!(m, "需要先输入访问口令"),
        _ => panic!("expected unauthorized"),
    }
}

fn change(current: &str, next: &str) -> ChangeCodeInput {
    ChangeCodeInput { current_code: current.to_string(), new_code: next.to_string() }
}

#[test]
fn changing_the_code() {
    let open = AccessControl::bootstrap(None, None, None, 30).access;
    match check_code_change(&open, &change("a", "bbbbbb")) {
        CodeReply::Refusal(AppError::Validation(m)) => assert_eq!(m, "当前部署还没有设置访问口令"),
        _ => panic!("expected a refusal"),
    }
    let mut access = protected();
    assert!(matches!(check_code_change(&access, &change("错的", "新口令新口令")), CodeReply::SlowRefusal(_)));
    match check_code_change(&access, &change("外婆家的鲤鱼", " 12345 ")) {
        CodeReply::Refusal(AppError::Validation(m)) => assert_eq!(m, "新口令至少 6 位"),
        _ => panic!("expected a refusal"),
    }
    match check_code_change(&access, &change("外婆家的鲤鱼", "外婆家的鲤鱼")) {
        CodeReply::Refusal(AppError::Validation(m)) => assert_eq!(m, "新口令和现在的一样"),
        _ => panic!("expected a refusal"),
    }
    let next = match check_code_change(&access, &change(" 外婆家的鲤鱼", " 新的家庭口令 ")) {
        CodeReply::Granted(n) => n,
        _ => panic!("expected the change to go ahead"),
    };
    assert_eq!(next, "新的家庭口令");
    let old_token = match login(&access, &LoginInput { code: "外婆家的鲤鱼".to_string() }, NOW) {
        CodeReply::Granted(t) => t,
        _ => panic!("expected a session"),
    };
    access.change_code(&next);
    assert!(access.verify_code("新的家庭口令"));
    assert!(!access.verify_code("外婆家的鲤鱼"));
    // the rotated key voids the earlier session
    assert!(!access.verify_token(&old_token, NOW));
}
