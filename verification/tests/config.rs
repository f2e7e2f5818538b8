use efflux::config::{retry_connect, Config, ConfigError, EnvVars};

fn vars() -> EnvVars {
    EnvVars {
        database_url: Some("postgres://x".to_string()),
        data_dir: None,
        max_upload_mb: None,
        port: None,
        db_max_connections: None,
        cors_origins: None,
        access_code: None,
        session_days: None,
        cookie_secure: None,
        tagger: None,
        model_dir: None,
        static_dir: None,
        rate_limit: None,
    }
}

#[test]
fn defaults() {
    let c = Config::from_vars(&vars()).ok().unwrap();
    assert_eq!(c.port, 8080);
    assert_eq!(c.data_dir, "./data");
    assert_eq!(c.max_upload_bytes, 512 * 1024 * 1024);
    assert_eq!(c.max_connections, 16);
    assert_eq!(c.cors_origins, vec!["http://localhost:5173".to_string()]);
    assert_eq!(c.access_code, None);
    assert_eq!(c.session_days, 30);
    assert!(!c.cookie_secure);
    assert!(!c.tagger_enabled);
    assert_eq!(c.model_dir, "./models");
    assert_eq!(c.static_dir, None);
    assert!(c.rate_limit);
}

#[test]
fn values_are_read() {
    let mut v = vars();
    v.port = Some("9000".to_string());
    v.cors_origins = Some(" https://a.example , ,https://b.example ".to_string());
    v.access_code = Some("  家里的那句口令  ".to_string());
    v.session_days = Some("1000".to_string());
    v.cookie_secure = Some("YES".to_string());
    v.rate_limit = Some("off".to_string());
    v.static_dir = Some("  ".to_string());
    let c = Config::from_vars(&v).ok().unwrap();
    assert_eq!(c.port, 9000);
    assert_eq!(c.cors_origins, vec!["https://a.example".to_string(), "https://b.example".to_string()]);
    assert_eq!(c.access_code.as_deref(), Some("家里的那句口令"));
    assert_eq!(c.session_days, 365);
    assert!(c.cookie_secure);
    assert!(!c.rate_limit);
    assert_eq!(c.static_dir, None);
}

#[test]
fn problems_are_named() {
    let mut v = vars();
    v.database_url = None;
    assert!(matches!(Config::from_vars(&v), Err(ConfigError::MissingDatabaseUrl)));
    let mut v = vars();
    v.port = Some("70000".to_string());
    assert!(matches!(Config::from_vars(&v), Err(ConfigError::InvalidPort)));
    let mut v = vars();
    v.access_code = Some("12345".to_string());
    match Config::from_vars(&v) {
        Err(e) => assert_eq!(e.message(), "EFFLUX_ACCESS_CODE 太短了，至少 6 位"),
        Ok(_) => panic!("expected a refusal"),
    }
    let mut v = vars();
    v.session_days = Some("soon".to_string());
    assert!(matches!(Config::from_vars(&v), Err(ConfigError::InvalidSessionDays)));
    let mut v = vars();
    v.max_upload_mb = Some("-1".to_string());
    assert!(matches!(Config::from_vars(&v), Err(ConfigError::InvalidMaxUpload)));
}

#[test]
fn connecting_is_retried_for_a_while() {
    assert!(retry_connect(1));
    assert!(retry_connect(29));
    assert!(!retry_connect(30));
}
