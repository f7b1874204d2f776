use graphql_test::auth::{request_session, session_cookie, Claims, SessionId, SESSION_MAX_AGE_SECS};

#[test]
fn cookie_name_is_fixed() {
    assert_eq!(SessionId::cookie_name(), "signaling-session-id");
}

#[test]
fn session_id_gives_its_value() {
    let s = SessionId("abc".to_string());
    assert_eq!(s.value(), "abc");
    assert_eq!(s.to_string(), "abc");
    let r: &str = s.as_ref();
    assert_eq!(r, "abc");
}

#[test]
fn session_cookie_format() {
    assert_eq!(
        session_cookie("tok.en.sig"),
        "signaling-session-id=tok.en.sig; Max-Age=172800000; SameSite=Lax; HttpOnly"
    );
    assert_eq!(
        session_cookie(""),
        "signaling-session-id=; Max-Age=172800000; SameSite=Lax; HttpOnly"
    );
}

#[test]
fn claims_expire_two_days_later() {
    assert_eq!(SESSION_MAX_AGE_SECS, 2 * 24 * 60 * 60);
    let c = Claims::for_session("user".to_string(), 1_000).unwrap();
    assert_eq!(c.exp, 1_000 + 172_800);
    assert_eq!(c.user_id, "user");
}

#[test]
fn claims_refused_when_expiry_overflows() {
    assert!(Claims::for_session("u".to_string(), u64::MAX - 172_799).is_none());
    assert!(Claims::for_session("u".to_string(), u64::MAX - 172_800).is_some());
}

#[test]
fn session_from_claims_names_the_user() {
    let c = Claims { exp: 5, user_id: "bob".to_string() };
    assert_eq!(SessionId::from_claims(c).value(), "bob");
}

#[test]
fn cookie_session_wins_over_parameter() {
    let s = request_session(Some(SessionId("c".to_string())), Some(SessionId("p".to_string())));
    assert_eq!(s.unwrap().value(), "c");
    let s = request_session(None, Some(SessionId("p".to_string())));
    assert_eq!(s.unwrap().value(), "p");
    assert!(request_session(None, None).is_none());
}

#[test]
fn token_query_answers_the_cookie_session() {
    // the `token` query answers the value of the session taken from the cookie
    let test_token = "dwdaiubisajnd-dawonaw";
    let session = request_session(Some(SessionId(test_token.to_string())), None).unwrap();
    assert_eq!(session.value(), test_token);
}
