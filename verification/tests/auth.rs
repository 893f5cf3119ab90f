use thai_practice::auth::{
    constant_time_eq, password_matches, session_cookie, session_token, token_hex,
};

#[test]
fn equal_bytes_compare_equal() {
    assert!(constant_time_eq(b"hunter2", b"hunter2"));
    assert!(constant_time_eq(b"", b""));
}

#[test]
fn different_bytes_compare_unequal() {
    assert!(!constant_time_eq(b"hunter2", b"hunter3"));
    assert!(!constant_time_eq(b"hunter2", b"hunter"));
    assert!(!constant_time_eq(b"", b"x"));
    assert!(!constant_time_eq(&[0x80], &[0x00]));
}

#[test]
fn login_accepts_exactly_the_password() {
    assert!(password_matches("hunter2", "hunter2"));
    assert!(!password_matches("wrong", "hunter2"));
    assert!(!password_matches("", "hunter2"));
    assert!(password_matches("รหัส", "รหัส"));
}

#[test]
fn token_is_lower_case_hex() {
    assert_eq!(token_hex(&[0x00, 0x0f, 0xa5, 0xff]), "000fa5ff");
    assert_eq!(token_hex(&[]), "");
    let bytes: Vec<u8> = (0..32).map(|i| (i * 37 + 11) as u8).collect();
    let t = token_hex(&bytes);
    let expected: String = bytes.iter().map(|b| format!("{b:02x}")).collect();
    assert_eq!(t, expected);
    assert_eq!(t.len(), 64);
}

#[test]
fn session_cookie_carries_the_token() {
    assert_eq!(
        session_cookie("abc123"),
        "session=abc123; HttpOnly; SameSite=Lax; Path=/; Max-Age=31536000"
    );
}

#[test]
fn session_token_is_read_back() {
    assert_eq!(session_token("session=abc123"), Some("abc123".to_string()));
    assert_eq!(session_token("theme=dark;  session=abc ; other=1"), Some("abc".to_string()));
    assert_eq!(session_token("session=a; session=b"), Some("a".to_string()));
    assert_eq!(session_token("session="), Some(String::new()));
}

#[test]
fn missing_session_token_is_none() {
    assert_eq!(session_token(""), None);
    assert_eq!(session_token("theme=dark"), None);
    assert_eq!(session_token("xsession=abc"), None);
    assert_eq!(session_token("sessionabc"), None);
}

#[test]
fn hex_token_round_trips_through_the_cookie() {
    let token = token_hex(&[0xde, 0xad, 0xbe, 0xef]);
    let cookie = session_cookie(&token);
    assert_eq!(session_token(&cookie), Some(token.clone()));
    assert_eq!(session_token(&format!("session={token}")), Some(token));
}
