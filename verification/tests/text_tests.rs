use glassgauge::accounts::{backups_to_prune, profile_file_name};
use glassgauge::stamp::backup_stamp;
use glassgauge::text::{domain_head_of, sanitize_name, short_id};
use glassgauge::transfer::{export_filename, iso_stamp};

#[test]
fn sanitize_names() {
    assert_eq!(sanitize_name("Yi Liu"), "Yi-Liu");
    assert_eq!(sanitize_name("  主号!!"), "主号");
    assert_eq!(sanitize_name("a/b\\c"), "a-b-c");
    assert_eq!(sanitize_name("---"), "");
}

#[test]
fn sanitize_keeps_dashes_and_cuts_at_forty() {
    assert_eq!(sanitize_name("a--b"), "a--b");
    assert_eq!(sanitize_name(".hidden."), "hidden");
    let long = "x".repeat(50);
    assert_eq!(sanitize_name(&long).chars().count(), 40);
    let cut = format!("{}-y", "z".repeat(39));
    assert_eq!(sanitize_name(&cut), format!("{}-", "z".repeat(39)));
}

#[test]
fn backup_stamp_shape() {
    let secs = std::time::SystemTime::now()
        .duration_since(std::time::UNIX_EPOCH)
        .map(|d| d.as_secs())
        .unwrap_or(0);
    let st = backup_stamp(secs);
    assert_eq!(st.len(), 15, "{st}");
    assert_eq!(&st[8..9], "-");
}

#[test]
fn backup_stamp_known_dates() {
    assert_eq!(backup_stamp(0), "19700101-000000");
    assert_eq!(backup_stamp(951782400), "20000229-000000");
    assert_eq!(backup_stamp(951868799), "20000229-235959");
    assert_eq!(backup_stamp(1709164800 + 3661), "20240229-010101");
    assert_eq!(backup_stamp(4102444800), "21000101-000000");
    assert_eq!(backup_stamp(253402300799), "99991231-235959");
    assert_eq!(backup_stamp(253402300800), "100000101-000000");
}

#[test]
fn iso_and_export_file_names() {
    assert_eq!(iso_stamp(1788741296), "2026-09-07T00:34:56Z");
    assert_eq!(export_filename(Some("ann.lee@example.com"), 1788741296), "mirasim-ann.lee-20260907.json");
    assert_eq!(export_filename(None, 0), "mirasim-account-19700101.json");
    assert_eq!(export_filename(Some("@x.com"), 0), "mirasim-account-19700101.json");
}

#[test]
fn short_ids_and_domains() {
    assert_eq!(short_id("usr_bbbb2222"), "bbbb2222");
    assert_eq!(short_id("usr_usr_abcdefghijk"), "abcdefgh");
    assert_eq!(short_id("plain"), "plain");
    assert_eq!(domain_head_of("sam@outlook.com").as_deref(), Some("outlook"));
    assert_eq!(domain_head_of("a@b@c").as_deref(), Some("b"));
    assert_eq!(domain_head_of("nobody"), None);
}

#[test]
fn backups_keep_newest_twenty() {
    let mut files: Vec<String> = (0..25).rev().map(|i| format!("setting-2026{i:04}-000000.json")).collect();
    files.push("other.json".to_string());
    let gone = backups_to_prune(files);
    assert_eq!(gone.len(), 5);
    assert_eq!(gone[0], "setting-20260000-000000.json");
    assert_eq!(gone[4], "setting-20260004-000000.json");
    let few: Vec<String> = (0..3).map(|i| format!("setting-{i}.json")).collect();
    assert!(backups_to_prune(few).is_empty());
    assert_eq!(profile_file_name("甲"), "甲.json");
}

#[test]
fn stamps_order_like_times() {
    let times = [0u64, 59, 60, 3599, 3600, 86399, 86400, 951868799, 951868800, 1788741296, 253402300799];
    for w in times.windows(2) {
        let (a, b) = (backup_stamp(w[0]), backup_stamp(w[1]));
        assert!(a < b, "{a} !< {b}");
    }
}

#[test]
fn sanitizing_twice_changes_nothing() {
    for s in ["Yi Liu", "  主号!!", "a/b\\c", "---", "..x..", "sam.lee@x", "ab-_.cd"] {
        let once = sanitize_name(s);
        assert_eq!(sanitize_name(&once), once);
        assert!(!once.starts_with('-') && !once.starts_with('.'));
        assert!(!once.ends_with('-') && !once.ends_with('.'));
    }
}
