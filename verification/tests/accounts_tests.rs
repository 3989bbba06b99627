use aes_gcm::aead::{Aead, KeyInit};
use aes_gcm::{Aes256Gcm, Nonce};
use base64::Engine;
use glassgauge::accounts::{
    build_view, collect_profiles, email_of_auth, plan_save, plan_switch, setting_auth, snapshot_from_json,
    unique_auto_name, Auth, SaveError, SavePlan, Snapshot, SwitchError, SwitchPlan,
};

/// The `auth` block that a login as `uid` leaves in setting.json.
fn login(uid: &str, name: &str) -> Auth {
    Auth {
        token: Some(format!("mrs1:tok-{uid}")),
        refresh_token: Some(format!("mrs1:ref-{uid}")),
        user_id: Some(uid.to_string()),
        name: Some(name.to_string()),
        exp: Some(4_000_000_000),
    }
}

/// An in-memory profiles directory: saving writes `<name>.json`.
struct Profiles {
    files: Vec<Snapshot>,
}

impl Profiles {
    fn new() -> Self {
        Profiles { files: Vec::new() }
    }

    fn listed(&self) -> Vec<Snapshot> {
        collect_profiles(self.files.clone())
    }

    fn write(&mut self, name: &str, auth: &Auth, email: Option<String>) {
        let file = format!("{name}.json");
        self.files.retain(|p| p.file != file);
        self.files.push(Snapshot {
            file,
            name: name.to_string(),
            user_id: auth.user_id.clone(),
            account_name: Some(auth.name.clone().unwrap_or_default()),
            email,
            saved_at: Some(1),
            auth: auth.clone(),
        });
    }

    /// What saving the current login does: plan, drop the renamed old
    /// snapshot, write the new one.
    fn save(&mut self, key: Option<&[u8; 32]>, auth: &Auth, want: Option<&str>) -> Result<String, SaveError> {
        let listed = self.listed();
        let email = email_of_auth(key, auth);
        let SavePlan { name, replaces } = plan_save(auth, &email, want, &listed)?;
        if let Some(i) = replaces {
            let old = listed[i].file.clone();
            self.files.retain(|p| p.file != old);
        }
        self.write(&name, auth, email);
        Ok(name)
    }
}

#[test]
fn save_then_view_marks_current() {
    let mut s = Profiles::new();
    let a = login("usr_a", "账号A");
    assert_eq!(s.save(None, &a, Some("主号")).unwrap(), "主号");
    let v = build_view(None, &a, &s.listed());
    assert_eq!(v.profiles.len(), 1);
    assert!(v.profiles[0].current);
    assert_eq!(v.current.unwrap().profile.as_deref(), Some("主号"));
}

#[test]
fn save_rename_same_user_keeps_single_profile() {
    let mut s = Profiles::new();
    let a = login("usr_a", "账号A");
    s.save(None, &a, Some("旧名")).unwrap();
    s.save(None, &a, Some("新名")).unwrap();
    let v = build_view(None, &a, &s.listed());
    assert_eq!(v.profiles.len(), 1);
    assert_eq!(v.profiles[0].name, "新名");
}

#[test]
fn save_name_clash_with_other_user_rejected() {
    let mut s = Profiles::new();
    s.save(None, &login("usr_a", "A"), Some("同名")).unwrap();
    let err = s.save(None, &login("usr_b", "B"), Some("同名")).unwrap_err();
    assert!(err.message().contains("占用"));
    assert!(matches!(err, SaveError::NameTaken(ref n) if n == "同名"));
}

#[test]
fn save_without_login_is_refused() {
    let mut s = Profiles::new();
    let none = Auth { token: None, refresh_token: None, user_id: None, name: None, exp: None };
    let err = s.save(None, &none, Some("x")).unwrap_err();
    assert!(matches!(err, SaveError::NotLoggedIn));
    assert_eq!(err.message(), "当前没有登录，没什么可保存的");
}

#[test]
fn auto_save_disambiguates_instead_of_erroring() {
    let mut s = Profiles::new();
    let n1 = s.save(None, &login("usr_aaaa1111", "Same Name"), None).unwrap();
    let n2 = s.save(None, &login("usr_bbbb2222", "Same Name"), None).unwrap();
    assert_ne!(n1, n2, "两个不同账号的自动命名必须不同");
    assert_eq!(n1, "Same-Name");
    assert_eq!(n2, "Same-Name-bbbb2222");
    let v = build_view(None, &login("usr_bbbb2222", "Same Name"), &s.listed());
    assert_eq!(v.profiles.len(), 2, "两个账号都应保存下来");
}

fn make_token(key: &[u8; 32], jwt: &str) -> String {
    let cipher = Aes256Gcm::new_from_slice(key).unwrap();
    let iv = [7u8; 12];
    let out = cipher.encrypt(Nonce::from_slice(&iv), jwt.as_bytes()).unwrap();
    let (ct, tag) = out.split_at(out.len() - 16);
    let mut buf = Vec::new();
    buf.extend_from_slice(&iv);
    buf.extend_from_slice(tag);
    buf.extend_from_slice(ct);
    format!("mrs1:{}", base64::engine::general_purpose::STANDARD.encode(buf))
}

fn jwt_for(uid: &str, email: &str) -> String {
    let b64 = |b: &[u8]| base64::engine::general_purpose::URL_SAFE_NO_PAD.encode(b);
    format!(
        "{}.{}.sig",
        b64(b"{\"alg\":\"HS256\"}"),
        b64(format!("{{\"sub\":\"{uid}\",\"exp\":123,\"email\":\"{email}\"}}").as_bytes())
    )
}

#[test]
fn auto_save_same_localpart_different_domain_end_to_end() {
    let key = [33u8; 32];
    let real = |uid: &str, email: &str| Auth {
        token: Some(make_token(&key, &jwt_for(uid, email))),
        refresh_token: Some("mrs1:r".to_string()),
        user_id: Some(uid.to_string()),
        name: Some("N".to_string()),
        exp: Some(4_000_000_000),
    };
    let mut s = Profiles::new();
    assert_eq!(s.save(Some(&key), &real("usr_g1", "sam123@gmail.com"), None).unwrap(), "sam123");
    let o2 = real("usr_o2", "sam123@outlook.com");
    assert_eq!(s.save(Some(&key), &o2, None).unwrap(), "sam123-outlook", "撞名自动附域名，而不是报「占用」");
    let v = build_view(Some(&key), &o2, &s.listed());
    assert_eq!(v.profiles.len(), 2);
    let emails: Vec<_> = v.profiles.iter().filter_map(|p| p.email.clone()).collect();
    assert!(emails.contains(&"sam123@gmail.com".to_string()));
    assert!(emails.contains(&"sam123@outlook.com".to_string()));
    let cur = v.current.unwrap();
    assert_eq!(cur.email.as_deref(), Some("sam123@outlook.com"));
    assert_eq!(cur.profile.as_deref(), Some("sam123-outlook"));
}

#[test]
fn unique_auto_name_domain_then_shortid() {
    let mut s = Profiles::new();
    s.write("sam123", &login("usr_aaaa", "x"), None);
    let profiles = s.listed();
    assert_eq!(unique_auto_name("fresh", "usr_bbbb", None, &profiles), "fresh");
    assert_eq!(unique_auto_name("sam123", "usr_aaaa", Some("sam123@gmail.com"), &profiles), "sam123");
    assert_eq!(unique_auto_name("sam123", "usr_bbbb", Some("sam123@outlook.com"), &profiles), "sam123-outlook");
    assert_eq!(unique_auto_name("sam123", "usr_bbbb2222", None, &profiles), "sam123-bbbb2222");
}

#[test]
fn unique_auto_name_appends_x_until_free() {
    let mut s = Profiles::new();
    s.write("base", &login("usr_a", "x"), None);
    s.write("base-bbbb", &login("usr_c", "x"), None);
    s.write("base-bbbbx", &login("usr_d", "x"), None);
    assert_eq!(unique_auto_name("base", "usr_bbbb", Some("me@.com"), &s.listed()), "base-bbbbxx");
}

/// The decision side of a switch: the target snapshot's `auth` block is the
/// one to write and the current login is saved first under its display
/// name. Rewriting setting.json and the backup are file work done by the
/// application.
#[test]
fn switch_swaps_auth_snapshots_and_backs_up() {
    let mut s = Profiles::new();
    let a = login("usr_a", "A");
    s.save(None, &a, Some("甲")).unwrap();
    let b = login("usr_b", "B");
    let listed = s.listed();
    match plan_switch("甲", &listed, &b, &None).unwrap() {
        SwitchPlan::Replace { target, save_as } => {
            assert_eq!(listed[target].auth.user_id.as_deref(), Some("usr_a"));
            assert_eq!(listed[target].auth.token.as_deref(), Some("mrs1:tok-usr_a"));
            // B is saved first, named after its display name
            assert_eq!(save_as.as_deref(), Some("B"));
        },
        other => panic!("expected a full switch, got {other:?}"),
    }
}

#[test]
fn switch_to_current_only_refreshes() {
    let mut s = Profiles::new();
    let a = login("usr_a", "A");
    s.save(None, &a, Some("甲")).unwrap();
    let plan = plan_switch("甲", &s.listed(), &a, &None).unwrap();
    assert!(matches!(plan, SwitchPlan::RefreshOnly { target: 0 }), "同账号切换不应产生备份");
}

#[test]
fn switch_works_when_logged_out() {
    let mut s = Profiles::new();
    s.save(None, &login("usr_a", "A"), Some("甲")).unwrap();
    let out = setting_auth("{\"auth\":{},\"failover\":{\"enabled\":true}}");
    assert!(build_view(None, &out, &s.listed()).current.is_none());
    match plan_switch("甲", &s.listed(), &out, &None).unwrap() {
        SwitchPlan::Replace { target, save_as } => {
            assert_eq!(target, 0);
            assert!(save_as.is_none());
        },
        other => panic!("expected a full switch, got {other:?}"),
    }
}

#[test]
fn switch_to_missing_snapshot_fails() {
    let err = plan_switch("乙", &[], &login("usr_a", "A"), &None).unwrap_err();
    assert!(matches!(err, SwitchError::NotFound(ref n) if n == "乙"));
    assert_eq!(err.message(), "找不到快照「乙」");
}

#[test]
fn corrupt_profile_skipped() {
    let mut s = Profiles::new();
    s.save(None, &login("usr_a", "A"), Some("好的")).unwrap();
    s.files.push(snapshot_from_json("坏的.json".to_string(), b"not json"));
    assert_eq!(build_view(None, &login("usr_a", "A"), &s.listed()).profiles.len(), 1);
}

#[test]
fn profiles_read_from_json_and_sorted_by_name() {
    let rec = |name: &str, uid: &str| {
        format!(
            "{{\"name\":\"{name}\",\"userId\":\"{uid}\",\"accountName\":\"N\",\"savedAt\":7,\
             \"auth\":{{\"token\":\"mrs1:t\",\"userId\":\"{uid}\",\"exp\":9}}}}"
        )
    };
    let found = vec![
        snapshot_from_json("b.json".to_string(), rec("b", "u1").as_bytes()),
        snapshot_from_json("a.json".to_string(), rec("a", "u2").as_bytes()),
        snapshot_from_json("c.txt".to_string(), rec("c", "u3").as_bytes()),
        snapshot_from_json(".json".to_string(), rec("d", "u4").as_bytes()),
        snapshot_from_json("e.json".to_string(), b"{\"name\":\"e\",\"auth\":{\"token\":\"\",\"userId\":\"u5\"}}"),
    ];
    let listed = collect_profiles(found);
    let names: Vec<_> = listed.iter().map(|p| p.name.as_str()).collect();
    assert_eq!(names, vec!["a", "b"]);
    assert_eq!(listed[0].saved_at, Some(7));
    assert_eq!(listed[0].auth.exp, Some(9));
}

#[test]
fn setting_auth_reads_block_after_bom() {
    let a = setting_auth("\u{feff}{\"auth\":{\"token\":\"mrs1:x\",\"refreshToken\":\"mrs1:y\",\"userId\":\"usr_q\",\"name\":\"Q\",\"exp\":5}}");
    assert_eq!(a.token.as_deref(), Some("mrs1:x"));
    assert_eq!(a.refresh_token.as_deref(), Some("mrs1:y"));
    assert_eq!(a.user_id.as_deref(), Some("usr_q"));
    assert_eq!(a.name.as_deref(), Some("Q"));
    assert_eq!(a.exp, Some(5));
    let none = setting_auth("{\"other\":1}");
    assert!(none.token.is_none() && none.user_id.is_none() && none.exp.is_none());
}
