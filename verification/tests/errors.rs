use efflux::error::AppError;

#[test]
fn statuses_and_messages() {
    let e = AppError::not_found("点滴", "42".to_string());
    assert_eq!(e.status_and_code(), (404, "NOT_FOUND"));
    assert_eq!(e.message(), "点滴 不存在: 42");
    assert!(e.is_operational());
    assert_eq!(AppError::validation("x").status_and_code(), (422, "VALIDATION_ERROR"));
    assert_eq!(AppError::Unauthorized("u".to_string()).status_and_code(), (401, "UNAUTHORIZED"));
    assert_eq!(AppError::PayloadTooLarge("p".to_string()).status_and_code(), (413, "PAYLOAD_TOO_LARGE"));
    assert_eq!(AppError::Unsupported("s".to_string()).status_and_code(), (415, "UNSUPPORTED_MEDIA"));
    let missing = AppError::Database { row_not_found: true, message: "no rows".to_string() };
    assert_eq!(missing.status_and_code(), (404, "NOT_FOUND"));
    let broken = AppError::Database { row_not_found: false, message: "boom".to_string() };
    assert_eq!(broken.status_and_code(), (500, "INTERNAL_ERROR"));
    assert!(!broken.is_operational());
    assert_eq!(broken.public_message(), "服务出了点小状况，请稍后再试");
    assert_eq!(AppError::Internal("secret".to_string()).public_message(), "服务出了点小状况，请稍后再试");
    assert_eq!(AppError::validation("看这里").public_message(), "看这里");
}
