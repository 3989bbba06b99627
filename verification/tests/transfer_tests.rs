use base64::Engine;
use glassgauge::accounts::{build_view, collect_profiles, Auth, Snapshot};
use glassgauge::token::{decrypt_token, encrypt_token};
use glassgauge::transfer::{
    export_fields, export_filename, jwt_email, parse_import, plain_pair, plan_import, refresh_outcome, sealed_auth, target_label,
    write_back_allowed, RefreshErr, TransferError,
};

const KEY: [u8; 32] = [77u8; 32];
const FAR: i64 = 4_000_000_000;
const NOW: i64 = 1_788_741_296;

fn jwt(sub: &str, email: &str, kind: &str, exp: i64) -> String {
    let b64 = |b: &[u8]| base64::engine::general_purpose::URL_SAFE_NO_PAD.encode(b);
    format!(
        "{}.{}.sig",
        b64(b"{\"alg\":\"HS256\"}"),
        b64(format!(
            "{{\"sub\":\"{sub}\",\"email\":\"{email}\",\"plan\":\"plus\",\"plan_exp\":{exp},\"token_type\":\"{kind}\",\"exp\":{exp}}}"
        )
        .as_bytes())
    )
}

fn doc(pairs: &[(&str, &str)]) -> Vec<u8> {
    let mut m = serde_json::Map::new();
    for (k, v) in pairs {
        m.insert(k.to_string(), serde_json::Value::String(v.to_string()));
    }
    serde_json::to_vec(&serde_json::Value::Object(m)).unwrap()
}

fn raw(v: &Option<Vec<u8>>) -> serde_json::Value {
    match v {
        Some(b) => serde_json::from_slice(b).unwrap(),
        None => serde_json::Value::Null,
    }
}

/// The library's side of an export and re-import: the pair opened from the
/// login, the claims copied into the file and the default file name; a
/// document holding the exported fields imports back to the same pair. The
/// application assembles and writes the JSON file itself.
#[test]
fn export_then_parse_roundtrip() {
    let access = jwt("usr_a1", "ann.lee@example.com", "access", FAR);
    let refresh = jwt("usr_a1", "ann.lee@example.com", "refresh", FAR + 100);
    let auth = Auth {
        token: Some(encrypt_token(&access, &KEY, &[1u8; 12]).unwrap()),
        refresh_token: Some(encrypt_token(&refresh, &KEY, &[2u8; 12]).unwrap()),
        user_id: Some("usr_a1".to_string()),
        name: Some("Some One".to_string()),
        exp: Some(FAR),
    };
    let (a, r) = plain_pair(Some(&KEY), &auth).unwrap();
    assert_eq!(jwt_email(&a).as_deref(), Some("ann.lee@example.com"));
    assert_eq!(target_label(None), "当前登录");
    let f = export_fields(&a, &r);
    assert_eq!(raw(&f.user_id), "usr_a1");
    assert_eq!(raw(&f.plan), "plus");
    assert_eq!(raw(&f.refresh_exp), FAR + 100);
    assert!(a.split('.').count() == 3, "明文 JWT");
    assert!(r.split('.').count() == 3);
    let file = doc(&[("format", "mirasim-account-export"), ("accessToken", &a), ("refreshToken", &r)]);
    let (a2, r2) = parse_import(&file, Some(&KEY), NOW).unwrap();
    assert_eq!(a2, a);
    assert_eq!(r2, r);
    assert!(plain_pair(Some(&[1u8; 32]), &auth).unwrap_err().message().contains("解不出 access"));
    assert!(export_filename(Some("ann.lee@example.com"), NOW as u64).starts_with("mirasim-ann.lee-"));
}

#[test]
fn parse_import_accepts_three_key_styles_and_rejects_bad_input() {
    let a = jwt("usr_x", "x@example.com", "access", FAR);
    let r = jwt("usr_x", "x@example.com", "refresh", FAR);
    assert!(parse_import(&doc(&[("accessToken", &a), ("refreshToken", &r)]), Some(&KEY), NOW).is_ok());
    assert!(parse_import(&doc(&[("access_token", &a), ("refresh_token", &r)]), Some(&KEY), NOW).is_ok());
    let sealed = doc(&[
        ("token", &encrypt_token(&a, &KEY, &[3u8; 12]).unwrap()),
        ("refreshToken", &encrypt_token(&r, &KEY, &[4u8; 12]).unwrap()),
    ]);
    assert_eq!(parse_import(&sealed, Some(&KEY), NOW).unwrap().0, a);
    let foreign = doc(&[("token", &encrypt_token(&a, &[1u8; 32], &[3u8; 12]).unwrap()), ("refreshToken", &r)]);
    assert!(parse_import(&foreign, Some(&KEY), NOW).unwrap_err().message().contains("别的机器"));
    assert!(parse_import(&doc(&[("accessToken", &a)]), Some(&KEY), NOW).is_err());
    let other = jwt("usr_y", "y@example.com", "refresh", FAR);
    assert!(parse_import(&doc(&[("accessToken", &a), ("refreshToken", &other)]), Some(&KEY), NOW)
        .unwrap_err()
        .message()
        .contains("同一账号"));
    let expired = jwt("usr_x", "x@example.com", "refresh", 1_000);
    assert!(parse_import(&doc(&[("accessToken", &a), ("refreshToken", &expired)]), Some(&KEY), NOW)
        .unwrap_err()
        .message()
        .contains("过期"));
    assert!(parse_import(&doc(&[("accessToken", &a), ("refreshToken", &a)]), Some(&KEY), NOW)
        .unwrap_err()
        .message()
        .contains("不是 refresh"));
}

#[test]
fn parse_import_error_variants() {
    let a = jwt("usr_x", "x@example.com", "access", FAR);
    let r = jwt("usr_x", "x@example.com", "refresh", FAR);
    assert!(matches!(parse_import(b"{}", None, NOW), Err(TransferError::NoAccessField)));
    assert!(matches!(parse_import(&doc(&[("accessToken", "  ")]), None, NOW), Err(TransferError::NoAccessField)));
    assert!(matches!(parse_import(&doc(&[("accessToken", &a)]), None, NOW), Err(TransferError::NoRefreshField)));
    let sealed_r = encrypt_token(&r, &KEY, &[4u8; 12]).unwrap();
    assert!(matches!(
        parse_import(&doc(&[("accessToken", &a), ("refreshToken", &sealed_r)]), None, NOW),
        Err(TransferError::ForeignCipher(ref w)) if w == "refresh"
    ));
    assert!(matches!(
        parse_import(&doc(&[("accessToken", "x.y.z"), ("refreshToken", &r)]), None, NOW),
        Err(TransferError::AccessNotJwt)
    ));
    assert!(matches!(
        parse_import(&doc(&[("accessToken", &a), ("refreshToken", "nope")]), None, NOW),
        Err(TransferError::RefreshNotJwt)
    ));
    let b64 = |b: &[u8]| base64::engine::general_purpose::URL_SAFE_NO_PAD.encode(b);
    let no_sub = format!("{}.{}.s", b64(b"{}"), b64(b"{\"email\":\"a@b\"}"));
    assert!(matches!(
        parse_import(&doc(&[("accessToken", &no_sub), ("refreshToken", &r)]), None, NOW),
        Err(TransferError::NoSubject)
    ));
    let padded = format!(" {a} ");
    assert_eq!(parse_import(&doc(&[("accessToken", &padded), ("refreshToken", &r)]), None, NOW).unwrap().0, a);
}

#[test]
fn store_import_seals_and_names_snapshot() {
    let a = jwt("usr_new", "sam@example.com", "access", FAR);
    let r = jwt("usr_new", "sam@example.com", "refresh", FAR);
    let plan = plan_import(&a, &[]).unwrap();
    assert_eq!(plan.name, "sam");
    assert_eq!(plan.email.as_deref(), Some("sam@example.com"));
    assert_eq!(plan.display, "sam");
    let sealed = sealed_auth(Some(&KEY), &a, &r, &plan.display).unwrap();
    assert!(sealed.token.starts_with("mrs1:") && !sealed.token.contains(&a));
    assert_eq!(decrypt_token(&sealed.token, &KEY).unwrap(), a);
    assert_eq!(decrypt_token(&sealed.refresh_token, &KEY).unwrap(), r);
    assert_eq!(sealed.user_id, "usr_new");
    assert_eq!(sealed.exp, FAR);
    let auth = Auth {
        token: Some(sealed.token.clone()),
        refresh_token: Some(sealed.refresh_token.clone()),
        user_id: Some(sealed.user_id.clone()),
        name: Some(sealed.name.clone()),
        exp: Some(sealed.exp),
    };
    let snap = Snapshot {
        file: "sam.json".to_string(),
        name: plan.name.clone(),
        user_id: Some("usr_new".to_string()),
        account_name: Some("sam".to_string()),
        email: None,
        saved_at: Some(1),
        auth: auth.clone(),
    };
    let listed = collect_profiles(vec![snap]);
    let live = Auth {
        token: Some("mrs1:live".to_string()),
        refresh_token: None,
        user_id: Some("usr_live".to_string()),
        name: None,
        exp: None,
    };
    let v = build_view(Some(&KEY), &live, &listed);
    let p = v.profiles.iter().find(|p| p.name == "sam").unwrap();
    assert_eq!(p.email.as_deref(), Some("sam@example.com"), "快照里的密文本机可解");
    assert!(!p.current, "导入不切换登录");
    let again = plan_import(&a, &listed).unwrap();
    assert_eq!(again.name, "sam");
    assert!(matches!(sealed_auth(None, &a, &r, "x"), Err(TransferError::KeyUnavailable)));
}

#[test]
fn refresh_answers() {
    let (a, r) = refresh_outcome(200, r#"{"access_token":"n.a.x","refresh_token":"n.r.x"}"#, "old").unwrap();
    assert_eq!((a.as_str(), r.as_str()), ("n.a.x", "n.r.x"));
    let (_, kept) = refresh_outcome(200, r#"{"access_token":"x.y.z"}"#, "keep.me.pls").unwrap();
    assert_eq!(kept, "keep.me.pls");
    let err = refresh_outcome(401, r#"{"detail":"invalid"}"#, "dead").unwrap_err();
    assert!(matches!(err, RefreshErr::Rejected(401, _)));
    assert!(err.message().contains("重新登录"));
    let long = "y".repeat(300);
    match refresh_outcome(500, &long, "x").unwrap_err() {
        RefreshErr::Rejected(500, body) => assert_eq!(body.chars().count(), 120),
        other => panic!("{other:?}"),
    }
    assert_eq!(RefreshErr::Rejected(502, "bad".into()).message(), "服务端 HTTP 502：bad");
    assert!(matches!(refresh_outcome(200, "{}", "x"), Err(RefreshErr::BadResponse)));
    assert!(matches!(refresh_outcome(200, r#"{"access_token":""}"#, "x"), Err(RefreshErr::BadResponse)));
    assert_eq!(RefreshErr::Network("down".into()).message(), "网络不可达：down");
}

#[test]
fn write_back_only_onto_the_same_account() {
    assert!(write_back_allowed("usr_a1", "usr_a1"));
    assert!(!write_back_allowed("usr_b2", "usr_a1"));
    assert!(!write_back_allowed("", "usr_a1"));
    assert_eq!(TransferError::AccountChanged.message(), "当前登录账号已变，放弃写回");
}
