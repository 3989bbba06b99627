use aes_gcm::aead::{Aead, KeyInit};
use aes_gcm::{Aes256Gcm, Nonce};
use base64::Engine;
use glassgauge::text::local_part;
use glassgauge::token::{
    account_of, decrypt_token, email_from_jwt, email_of, encrypt_token, jwt_claims, jwt_exp, key_from_unprotected,
    secret_blob, seal_token, str_claim,
};

const PREFIX: &str = "mrs1:";

/// Seals a plaintext into an mrs1 token with a known key (layout [IV][TAG][CT]).
fn make_token(key: &[u8; 32], plain: &str) -> String {
    let cipher = Aes256Gcm::new_from_slice(key).unwrap();
    let iv = [7u8; 12];
    let out = cipher.encrypt(Nonce::from_slice(&iv), plain.as_bytes()).unwrap();
    let (ct, tag) = out.split_at(out.len() - 16);
    let mut buf = Vec::new();
    buf.extend_from_slice(&iv);
    buf.extend_from_slice(tag);
    buf.extend_from_slice(ct);
    format!("{PREFIX}{}", base64::engine::general_purpose::STANDARD.encode(buf))
}

fn jwt_with_email(email: &str) -> String {
    let header = base64::engine::general_purpose::URL_SAFE_NO_PAD.encode(b"{\"alg\":\"HS256\"}");
    let payload = base64::engine::general_purpose::URL_SAFE_NO_PAD
        .encode(format!("{{\"sub\":\"usr_x\",\"exp\":123,\"email\":\"{email}\"}}"));
    format!("{header}.{payload}.sigsigsig")
}

fn claims_value(jwt: &str) -> serde_json::Value {
    serde_json::from_slice(&jwt_claims(jwt).unwrap()).unwrap()
}

#[test]
fn decrypt_then_extract_email() {
    let key = [42u8; 32];
    let jwt = jwt_with_email("alice@example.com");
    let token = make_token(&key, &jwt);
    let got = decrypt_token(&token, &key).unwrap();
    assert_eq!(got, jwt);
    assert_eq!(email_from_jwt(&got).as_deref(), Some("alice@example.com"));
}

#[test]
fn wrong_key_fails_gracefully() {
    let token = make_token(&[1u8; 32], &jwt_with_email("a@b.com"));
    assert!(decrypt_token(&token, &[2u8; 32]).is_none());
}

#[test]
fn decrypt_then_extract_plan_and_exp() {
    let key = [9u8; 32];
    let header = base64::engine::general_purpose::URL_SAFE_NO_PAD.encode(b"{\"alg\":\"HS256\"}");
    let payload = base64::engine::general_purpose::URL_SAFE_NO_PAD
        .encode(b"{\"email\":\"alice@example.com\",\"plan\":\"plus\",\"plan_exp\":1789029052}");
    let jwt = format!("{header}.{payload}.sig");
    let got = decrypt_token(&make_token(&key, &jwt), &key).unwrap();
    let claims = jwt_claims(&got).unwrap();
    assert_eq!(str_claim(&claims, "plan").as_deref(), Some("plus"));
    assert_eq!(claims_value(&got).get("plan_exp").and_then(|v| v.as_i64()), Some(1789029052));
    assert_eq!(str_claim(&claims, "email").as_deref(), Some("alice@example.com"));
}

#[test]
fn non_mrs1_or_garbage_is_none() {
    assert!(decrypt_token("plain-token", &[0u8; 32]).is_none());
    assert!(decrypt_token("mrs1:@@@notbase64@@@", &[0u8; 32]).is_none());
}

#[test]
fn jwt_without_email_is_none() {
    let header = base64::engine::general_purpose::URL_SAFE_NO_PAD.encode(b"{}");
    let payload = base64::engine::general_purpose::URL_SAFE_NO_PAD.encode(b"{\"sub\":\"x\"}");
    assert!(email_from_jwt(&format!("{header}.{payload}.s")).is_none());
}

#[test]
fn local_part_of_email() {
    assert_eq!(local_part("alice@example.com"), "alice");
    assert_eq!(local_part("noatsign"), "noatsign");
}

#[test]
fn account_of_reads_email_plan_and_expiry() {
    let key = [5u8; 32];
    let header = base64::engine::general_purpose::URL_SAFE_NO_PAD.encode(b"{}");
    let payload = base64::engine::general_purpose::URL_SAFE_NO_PAD
        .encode(b"{\"email\":\"  bob@example.com \",\"plan\":\"\",\"plan_exp\":42}");
    let token = make_token(&key, &format!("{header}.{payload}.s"));
    let acct = account_of(&key, &token).unwrap();
    assert_eq!(acct.email.as_deref(), Some("bob@example.com"));
    assert_eq!(acct.plan, None);
    assert_eq!(acct.plan_exp, Some(42));
    assert_eq!(email_of(&key, &token).as_deref(), Some("bob@example.com"));
    assert!(account_of(&[6u8; 32], &token).is_none());
}

#[test]
fn token_too_short_is_none() {
    // exactly IV + TAG and nothing else: refused before decryption
    let raw = [0u8; 28];
    let token = format!("{PREFIX}{}", base64::engine::general_purpose::STANDARD.encode(raw));
    assert!(decrypt_token(&token, &[0u8; 32]).is_none());
}

#[test]
fn url_safe_body_is_accepted() {
    let key = [3u8; 32];
    let jwt = jwt_with_email("c@d.org");
    let std_token = make_token(&key, &jwt);
    let url_token = std_token.replace('+', "-").replace('/', "_");
    assert_eq!(decrypt_token(&url_token, &key).unwrap(), jwt);
    let spaced = format!("{PREFIX}  {}  ", &std_token[PREFIX.len()..]);
    assert_eq!(decrypt_token(&spaced, &key).unwrap(), jwt);
}

#[test]
fn sealed_token_opens_again() {
    let key = [11u8; 32];
    let jwt = jwt_with_email("e@f.net");
    let token = encrypt_token(&jwt, &key, &[1u8; 12]).unwrap();
    assert!(token.starts_with(PREFIX));
    assert_ne!(token, format!("{PREFIX}{jwt}"));
    assert_eq!(decrypt_token(&token, &key).unwrap(), jwt);
    let fresh = seal_token(&jwt, &key).unwrap();
    assert_eq!(decrypt_token(&fresh, &key).unwrap(), jwt);
    // same layout as the server's tokens
    assert_eq!(encrypt_token(&jwt, &key, &[7u8; 12]).unwrap(), make_token(&key, &jwt));
}

#[test]
fn empty_plaintext_does_not_round_trip() {
    let key = [11u8; 32];
    let token = encrypt_token("", &key, &[1u8; 12]).unwrap();
    assert!(decrypt_token(&token, &key).is_none());
}

#[test]
fn jwt_exp_and_padded_payload() {
    let header = base64::engine::general_purpose::URL_SAFE_NO_PAD.encode(b"{}");
    let payload = base64::engine::general_purpose::URL_SAFE.encode(b"{\"exp\": 1700000000}");
    assert!(payload.ends_with('='));
    assert_eq!(jwt_exp(&format!("{header}.{payload}.s")), Some(1700000000));
    assert_eq!(jwt_exp("no-dots-here"), None);
    let not_json = base64::engine::general_purpose::URL_SAFE_NO_PAD.encode(b"hello");
    assert!(jwt_claims(&format!("{header}.{not_json}.s")).is_none());
}

#[test]
fn master_key_from_secret_file_chain() {
    let blob = secret_blob("  0aFf10\n").unwrap();
    assert_eq!(blob, vec![0x0a, 0xff, 0x10]);
    assert!(secret_blob("abc").is_none());
    assert!(secret_blob("").is_none());
    assert!(secret_blob("zz").is_none());
    let hex: String = (0..32u8).map(|b| format!("{b:02x}")).collect();
    let utf16: Vec<u8> = hex.encode_utf16().flat_map(u16::to_le_bytes).collect();
    let key = key_from_unprotected(&utf16).unwrap();
    let want: Vec<u8> = (0..32u8).collect();
    assert_eq!(key.to_vec(), want);
    assert!(key_from_unprotected(&utf16[..126]).is_none());
}
