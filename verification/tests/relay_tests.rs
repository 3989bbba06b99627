use glassgauge::relay::{access_expired, current_access_jwt, local_endpoint, looks_like_upstream, relay_error, upstream_outcome, UpstreamErr};
use glassgauge::token::encrypt_token;

#[test]
fn upstream_shape_allows_empty_windows() {
    assert!(looks_like_upstream(br#"{"subject":"u","windows":[]}"#));
    assert!(!looks_like_upstream(br#"{"subject":"u"}"#));
    assert!(!looks_like_upstream(br#"{"windows":"nope"}"#));
}

#[test]
fn error_code_mapping() {
    assert_eq!(relay_error(UpstreamErr::Unauthorized), "token-expired");
    assert_eq!(relay_error(UpstreamErr::NoToken), "relay-not-found");
    assert_eq!(relay_error(UpstreamErr::Other), "relay-not-found");
}

#[test]
fn upstream_answers_are_classified() {
    let body = r#"{"subject":"u","windows":[{"id":"5h"}]}"#.to_string();
    assert_eq!(upstream_outcome(200, body.clone()).unwrap(), body);
    assert_eq!(upstream_outcome(401, body.clone()).unwrap_err(), UpstreamErr::Unauthorized);
    assert_eq!(upstream_outcome(403, body.clone()).unwrap_err(), UpstreamErr::Unauthorized);
    assert_eq!(upstream_outcome(502, String::new()).unwrap_err(), UpstreamErr::Other);
    assert_eq!(upstream_outcome(200, r#"{"hello":"world"}"#.to_string()).unwrap_err(), UpstreamErr::Other);
    assert_eq!(upstream_outcome(200, "not json".to_string()).unwrap_err(), UpstreamErr::Other);
}

#[test]
fn expiry_allows_clock_skew() {
    assert!(!access_expired(Some(1000), 1030));
    assert!(access_expired(Some(1000), 1031));
    assert!(!access_expired(None, i64::MAX));
    assert!(!access_expired(Some(i64::MAX), i64::MAX));
}

#[test]
fn access_jwt_of_current_login() {
    let key = [8u8; 32];
    let tok = encrypt_token("h.p.s", &key, &[2u8; 12]).unwrap();
    let setting = format!("{{\"auth\":{{\"token\":\"{tok}\"}}}}");
    assert_eq!(current_access_jwt(&key, &setting).as_deref(), Some("h.p.s"));
    assert_eq!(current_access_jwt(&key, "{\"auth\":{\"token\":\"\"}}"), None);
    assert_eq!(current_access_jwt(&[9u8; 32], &setting), None);
    assert_eq!(local_endpoint(8765), "http://127.0.0.1:8765");
}

#[test]
fn upstream_401_is_unauthorized() {
    let err = upstream_outcome(401, r#"{"error":"expired"}"#.to_string()).unwrap_err();
    assert_eq!(err, UpstreamErr::Unauthorized);
}

/// Garbage and 5xx answers are `Other`; a refused connection never yields an
/// answer and is mapped to `Other` by the application before this point.
#[test]
fn upstream_garbage_or_5xx_or_refused_is_other() {
    let err = upstream_outcome(200, r#"{"hello":"world"}"#.to_string()).unwrap_err();
    assert_eq!(err, UpstreamErr::Other);
    let err = upstream_outcome(502, String::new()).unwrap_err();
    assert_eq!(err, UpstreamErr::Other);
}
