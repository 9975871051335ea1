use layered_timeline::legacy_console::{
    auth_query_pairs, handle_auth_response, handle_waiter_outcome, parse_password, AuthStep,
    ClientCredentials, DatabaseInfo, LegacyAuthError, ProxyAuthResponse,
};

fn creds(user: &str) -> ClientCredentials {
    ClientCredentials { user: user.to_string(), dbname: "postgres".to_string() }
}

fn db_info() -> DatabaseInfo {
    DatabaseInfo {
        host: "localhost".to_string(),
        port: 5432,
        dbname: "postgres".to_string(),
        user: "john_doe".to_string(),
        password: Some("password".to_string()),
    }
}

#[test]
fn parse_password_strips_nul() {
    assert_eq!(parse_password(b"secret\0"), Some("secret"));
    assert_eq!(parse_password(b"\0"), Some(""));
}

#[test]
fn parse_password_requires_nul() {
    assert_eq!(parse_password(b"secret"), None);
    assert_eq!(parse_password(b""), None);
}

#[test]
fn parse_password_rejects_bad_utf8() {
    assert_eq!(parse_password(&[0xff, 0xfe, 0x00]), None);
}

#[test]
fn parse_password_multibyte() {
    assert_eq!(parse_password("pässwörd\0".as_bytes()), Some("pässwörd"));
}

#[test]
fn existing_user_suffix() {
    assert!(creds("john@zenith").is_existing_user());
    assert!(creds("@zenith").is_existing_user());
    assert!(!creds("john@example").is_existing_user());
    assert!(!creds("zenith").is_existing_user());
    assert!(!creds("john@zenith.tech").is_existing_user());
}

#[test]
fn query_pairs_hex_salt() {
    let pairs = auth_query_pairs(&creds("john@zenith"), "md5abc", &[0x01, 0xab, 0xff, 0x00], "sess-1");
    let expected: Vec<(String, String)> = vec![
        ("login".into(), "john@zenith".into()),
        ("database".into(), "postgres".into()),
        ("md5response".into(), "md5abc".into()),
        ("salt".into(), "01abff00".into()),
        ("psql_session_id".into(), "sess-1".into()),
    ];
    assert_eq!(pairs, expected);
}

#[test]
fn auth_response_ready() {
    match handle_auth_response(true, "200 OK".into(), Ok(ProxyAuthResponse::Ready { conn_info: db_info() })) {
        Ok(AuthStep::Done(d)) => {
            assert_eq!(d.host, "localhost");
            assert_eq!(d.port, 5432);
        }
        _ => panic!("expected connection info"),
    }
}

#[test]
fn auth_response_error() {
    let r = handle_auth_response(true, "200 OK".into(), Ok(ProxyAuthResponse::Error { error: "too bad, so sad".into() }));
    assert!(matches!(r, Err(LegacyAuthError::AuthFailed(ref m)) if m == "too bad, so sad"));
}

#[test]
fn auth_response_not_ready() {
    let r = handle_auth_response(true, "200 OK".into(), Ok(ProxyAuthResponse::NotReady { ready: false }));
    assert!(matches!(r, Ok(AuthStep::WaitForConsole)));
}

#[test]
fn auth_response_http_status() {
    let r = handle_auth_response(false, "404 Not Found".into(), Err(String::new()));
    assert!(matches!(r, Err(LegacyAuthError::HttpStatus(ref s)) if s == "404 Not Found"));
}

#[test]
fn auth_response_malformed() {
    let r = handle_auth_response(true, "200 OK".into(), Err("expected value".into()));
    assert!(matches!(r, Err(LegacyAuthError::BadResponse(ref s)) if s == "expected value"));
}

#[test]
fn waiter_outcome() {
    assert!(matches!(handle_waiter_outcome(Ok(db_info())), Ok(ref d) if d.user == "john_doe"));
    assert!(matches!(handle_waiter_outcome(Err("denied".into())), Err(LegacyAuthError::AuthFailed(ref m)) if m == "denied"));
}

#[test]
fn client_messages() {
    assert_eq!(
        LegacyAuthError::AuthFailed("too bad, so sad".into()).to_string_client(),
        "Authentication failed: too bad, so sad"
    );
    assert_eq!(
        LegacyAuthError::HttpStatus("500 Internal Server Error".into()).to_string_client(),
        "Console responded with an HTTP status: 500 Internal Server Error"
    );
    assert_eq!(LegacyAuthError::BadResponse("x".into()).to_string_client(), "Internal error");
    assert_eq!(LegacyAuthError::Transport("x".into()).to_string_client(), "Internal error");
    assert_eq!(LegacyAuthError::WaiterRegister("x".into()).to_string_client(), "Internal error");
    assert_eq!(LegacyAuthError::WaiterWait("x".into()).to_string_client(), "Internal error");
}
