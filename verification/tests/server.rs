use compass_core::server::{
    authorized, bind_host, constant_time_eq, default_bind, default_port,
    default_request_body_limit_bytes, format_bind_address, is_local_bind, ServerSettings,
    SettingsError,
};

// What parsing the host as an IP address gives, for the hosts used here.
fn loopback(bind: &str) -> bool {
    matches!(bind_host(bind).as_str(), "127.0.0.1" | "::1")
}

fn ipv6(bind: &str) -> bool {
    matches!(bind_host(bind).as_str(), "::1")
}

fn local(bind: &str) -> bool {
    is_local_bind(bind, loopback(bind))
}

fn format(bind: &str, port: u16) -> String {
    format_bind_address(bind, port, ipv6(bind))
}

fn config(bind: &str, allow_non_local: bool) -> ServerSettings {
    ServerSettings {
        bind: bind.to_string(),
        port: 8080,
        allow_non_local,
        auth_token: None,
        request_body_limit_bytes: default_request_body_limit_bytes(),
    }
}

fn validate(settings: &ServerSettings) -> Result<(), SettingsError> {
    settings.validate(loopback(&settings.bind))
}

#[test]
fn default_server_settings_are_local_only() {
    assert_eq!(default_bind(), "127.0.0.1");
    assert!(local("127.0.0.1"));
    assert!(local("::1"));
    assert!(local("[::1]"));
    assert!(local("localhost"));
    assert!(!local("0.0.0.0"));
    assert_eq!(default_request_body_limit_bytes(), 1024 * 1024);
    assert_eq!(format("127.0.0.1", 8080), "127.0.0.1:8080");
    assert_eq!(format("::1", 8080), "[::1]:8080");
    assert_eq!(format("[::1]", 8080), "[::1]:8080");
    assert!(validate(&config("127.0.0.1", false)).is_ok());
}

#[test]
fn non_local_bind_requires_explicit_opt_in() {
    let invalid = config("0.0.0.0", false);
    let error = validate(&invalid).unwrap_err().message();
    assert!(error.contains("allow_non_local"));
    assert!(validate(&config("0.0.0.0", true)).is_ok());
}

#[test]
fn invalid_server_settings_are_rejected() {
    let mut config = config("127.0.0.1", false);
    config.request_body_limit_bytes = 0;
    assert!(validate(&config).is_err());

    config.request_body_limit_bytes = default_request_body_limit_bytes();
    config.auth_token = Some(String::new());
    assert!(validate(&config).is_err());
}

#[test]
fn non_local_bind_requires_explicit_opt_in_even_with_auth_token() {
    let mut cfg = config("0.0.0.0", false);
    cfg.auth_token = Some("secret".to_string());
    let error = validate(&cfg).unwrap_err().message();
    assert!(error.contains("allow_non_local"));
}

#[test]
fn explicit_non_local_opt_in_is_accepted() {
    let cfg = config("0.0.0.0", true);
    assert!(validate(&cfg).is_ok());
}

#[test]
fn settings_errors_come_in_order() {
    let mut cfg = config("  ", false);
    cfg.request_body_limit_bytes = 0;
    assert_eq!(validate(&cfg), Err(SettingsError::EmptyBind));
    assert_eq!(SettingsError::EmptyBind.message(), "bind cannot be empty");
    cfg.bind = "10.0.0.1".to_string();
    assert_eq!(validate(&cfg), Err(SettingsError::ZeroBodyLimit));
    cfg.request_body_limit_bytes = 1;
    cfg.auth_token = Some(String::new());
    assert_eq!(validate(&cfg), Err(SettingsError::EmptyAuthToken));
    cfg.auth_token = None;
    assert_eq!(validate(&cfg), Err(SettingsError::NonLocalBind("10.0.0.1".to_string())));
    assert_eq!(
        SettingsError::NonLocalBind("10.0.0.1".to_string()).message(),
        "non-local bind (10.0.0.1) requires allow_non_local = true"
    );
    assert_eq!(default_port(), 8080);
}

#[test]
fn localhost_matches_in_any_case() {
    assert!(local("LocalHost"));
    assert!(local("[localhost]"));
    assert!(!local("localhost.example"));
    assert_eq!(bind_host("[::1]"), "::1");
    assert_eq!(bind_host("["), "[");
    assert_eq!(format("example.org", 80), "example.org:80");
}

#[test]
fn constant_time_eq_is_equality() {
    assert!(constant_time_eq(b"secret", b"secret"));
    assert!(!constant_time_eq(b"secret", b"secreT"));
    assert!(!constant_time_eq(b"secret", b"secrets"));
    assert!(constant_time_eq(b"", b""));
}

#[test]
fn bearer_tokens_are_checked() {
    assert!(authorized(None, None));
    assert!(authorized(None, Some("anything")));
    assert!(authorized(Some("t0k"), Some("Bearer t0k")));
    assert!(!authorized(Some("t0k"), Some("Bearer t0k ")));
    assert!(!authorized(Some("t0k"), Some("bearer t0k")));
    assert!(!authorized(Some("t0k"), Some("t0k")));
    assert!(!authorized(Some("t0k"), None));
}
