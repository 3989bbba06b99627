//! Exporting, importing and refreshing account credentials.
//!
//! An export is a plain JSON file holding the two JWTs (access and refresh)
//! with the account's metadata. An import reads such a file (or an
//! `/auth/verify` answer, or an `auth` block), checks both JWTs, and files
//! them, sealed with the machine key, as a snapshot. A refresh trades the
//! refresh JWT at the login server for a new pair.

use vstd::prelude::*;
use crate::accounts::{
    AccountsView, Auth, Snapshot, auto_name, filed, find_owned, first_owned, insert_pos, is_listed, kept_files, lemma_first_owned_facts, lemma_insert_pos_facts, lemma_kept_files_from, lemma_kept_files_none, lemma_listed_contains, lemma_name_keeps_one, lemma_sort_by_name_multiset, lemma_sort_by_name_sorted, listed, sort_by_name, names_distinct, one_per_account, owned_by, unique_auto_name, usr_dash,
};
use crate::json::{json_i64_at, json_i64_member, json_member, json_member_at, json_str_at, json_str_member};
use crate::stamp::{backup_stamp, decimal, push_decimal, stamp_text};
use crate::text::{before_first, chars_of, local_part, opt_chars, push_char, same_text, sanitize_name, sanitized,
    short_id, short_id_spec, starts_with_text, string_of, take_at_most, text_le, text_or_empty, trim_chars, trimmed, lemma_text_le_antisym};
use crate::token::{decrypt_token, decrypted_token, jwt_claims, jwt_claims_of, mrs1, seal_token};
use vstd::utf8::encode_utf8;
use vstd::string::StringSliceAdditionalSpecFns;

verus! {

/// The login server.
pub const AUTH_BASE: &'static str = "https://auth.mirasim.ai";

/// The `format` of an export file.
pub const EXPORT_FORMAT: &'static str = "mirasim-account-export";

/// What a cancelled file dialog answers (the panel stays silent on it).
pub const CANCELLED: &'static str = "cancelled";

/// Why an export, import or refresh stops.
#[derive(Debug)]
pub enum TransferError {
    NotLoggedIn,
    NoSnapshot(String),
    AccessUnreadable,
    RefreshUnreadable,
    NoAccessField,
    NoRefreshField,
    /// The named token (`access` or `refresh`) is sealed for another machine.
    ForeignCipher(String),
    AccessNotJwt,
    RefreshNotJwt,
    NotRefreshToken,
    NoSubject,
    DifferentAccounts,
    RefreshExpired,
    AccessWithoutSub,
    KeyUnavailable,
    AccountChanged,
}

impl TransferError {
    /// The message shown for this error.
    pub fn message(&self) -> (r: String)
        ensures
            r@ == match self {
                TransferError::NotLoggedIn => "当前没有登录"@,
                TransferError::NoSnapshot(n) => "找不到快照「"@ + n@ + "」"@,
                TransferError::AccessUnreadable => "解不出 access 令牌（secret.key 不可读，或密文来自别的机器）"@,
                TransferError::RefreshUnreadable => "解不出 refresh 令牌"@,
                TransferError::NoAccessField => "文件里没有 access 令牌字段"@,
                TransferError::NoRefreshField => "文件里没有 refresh 令牌字段"@,
                TransferError::ForeignCipher(w) => w@ + " 是 mrs1 密文且本机解不开——它绑定别的机器，请在源机用「导出」生成明文文件"@,
                TransferError::AccessNotJwt => "access 不是合法 JWT"@,
                TransferError::RefreshNotJwt => "refresh 不是合法 JWT"@,
                TransferError::NotRefreshToken => "refreshToken 字段里放的不是 refresh 令牌"@,
                TransferError::NoSubject => "access 令牌缺少 sub（账号 ID）"@,
                TransferError::DifferentAccounts => "两枚令牌不属于同一账号"@,
                TransferError::RefreshExpired => "refresh 令牌已过期（30 天），请在源机重新登录后再导出"@,
                TransferError::AccessWithoutSub => "access 缺少 sub"@,
                TransferError::KeyUnavailable => "本机 secret.key 不可用，无法加密入库"@,
                TransferError::AccountChanged => "当前登录账号已变，放弃写回"@,
            },
    {
        match self {
            TransferError::NotLoggedIn => String::from_str("当前没有登录"),
            TransferError::NoSnapshot(n) => {
                let mut m = String::from_str("找不到快照「");
                m.append(n.as_str());
                m.append("」");
                m
            },
            TransferError::AccessUnreadable => String::from_str("解不出 access 令牌（secret.key 不可读，或密文来自别的机器）"),
            TransferError::RefreshUnreadable => String::from_str("解不出 refresh 令牌"),
            TransferError::NoAccessField => String::from_str("文件里没有 access 令牌字段"),
            TransferError::NoRefreshField => String::from_str("文件里没有 refresh 令牌字段"),
            TransferError::ForeignCipher(w) => {
                let mut m = String::from_str(w.as_str());
                m.append(" 是 mrs1 密文且本机解不开——它绑定别的机器，请在源机用「导出」生成明文文件");
                m
            },
            TransferError::AccessNotJwt => String::from_str("access 不是合法 JWT"),
            TransferError::RefreshNotJwt => String::from_str("refresh 不是合法 JWT"),
            TransferError::NotRefreshToken => String::from_str("refreshToken 字段里放的不是 refresh 令牌"),
            TransferError::NoSubject => String::from_str("access 令牌缺少 sub（账号 ID）"),
            TransferError::DifferentAccounts => String::from_str("两枚令牌不属于同一账号"),
            TransferError::RefreshExpired => String::from_str("refresh 令牌已过期（30 天），请在源机重新登录后再导出"),
            TransferError::AccessWithoutSub => String::from_str("access 缺少 sub"),
            TransferError::KeyUnavailable => String::from_str("本机 secret.key 不可用，无法加密入库"),
            TransferError::AccountChanged => String::from_str("当前登录账号已变，放弃写回"),
        }
    }
}

/// How the panel names the target of an export or refresh: the current
/// login, or the snapshot `name`.
pub fn target_label(name: Option<&str>) -> (r: String)
    ensures
        r@ == match name {
            None => "当前登录"@,
            Some(n) => "快照「"@ + n@ + "」"@,
        },
{
    match name {
        None => String::from_str("当前登录"),
        Some(n) => {
            let mut m = String::from_str("快照「");
            m.append(n);
            m.append("」");
            m
        },
    }
}

/// The key, as bytes, when there is one.
pub open spec fn key_seq(key: Option<&[u8; 32]>) -> Option<Seq<u8>> {
    match key {
        Some(k) => Some(k@),
        None => None,
    }
}

/// The text sealed in `token` when there is a key and it opens the token.
pub open spec fn opened_with(key: Option<Seq<u8>>, token: Seq<char>) -> Option<Seq<char>> {
    match key {
        Some(k) => decrypted_token(token, k),
        None => None,
    }
}

fn open_with(key: Option<&[u8; 32]>, token: &str) -> (r: Option<String>)
    ensures
        opt_chars(r) == opened_with(key_seq(key), token@),
{
    match key {
        Some(k) => decrypt_token(token, k),
        None => None,
    }
}

/// The two JWTs of an `auth` block, opened with the machine key: the access
/// JWT from `token`, the refresh JWT from `refreshToken` (a missing field
/// reads as empty and does not open).
pub fn plain_pair(key: Option<&[u8; 32]>, auth: &Auth) -> (r: Result<(String, String), TransferError>)
    ensures
        match r {
            Ok((a, f)) => opened_with(key_seq(key), text_or_empty(auth.token)) == Some(a@) && opened_with(
                key_seq(key),
                text_or_empty(auth.refresh_token),
            ) == Some(f@),
            Err(TransferError::AccessUnreadable) => opened_with(key_seq(key), text_or_empty(auth.token)) is None,
            Err(TransferError::RefreshUnreadable) => opened_with(key_seq(key), text_or_empty(auth.token)) is Some
                && opened_with(key_seq(key), text_or_empty(auth.refresh_token)) is None,
            Err(_) => false,
        },
{
    let t = crate::text::string_or_empty(&auth.token);
    let access = match open_with(key, t.as_str()) {
        Some(a) => a,
        None => return Err(TransferError::AccessUnreadable),
    };
    let f = crate::text::string_or_empty(&auth.refresh_token);
    let refresh = match open_with(key, f.as_str()) {
        Some(r) => r,
        None => return Err(TransferError::RefreshUnreadable),
    };
    Ok((access, refresh))
}


/// `o` trimmed, when it is a text that trims to something.
pub open spec fn trimmed_nonempty(o: Option<Seq<char>>) -> Option<Seq<char>> {
    match o {
        Some(t) => if trimmed(t).len() > 0 {
            Some(trimmed(t))
        } else {
            None
        },
        None => None,
    }
}

/// The first of `k1`, `k2`, `k3` whose member of `doc` is a string; that
/// string trimmed, when not empty.
pub open spec fn first_text3(doc: Seq<u8>, k1: Seq<char>, k2: Seq<char>, k3: Seq<char>) -> Option<Seq<char>> {
    trimmed_nonempty(
        if json_str_member(doc, k1) is Some {
            json_str_member(doc, k1)
        } else if json_str_member(doc, k2) is Some {
            json_str_member(doc, k2)
        } else {
            json_str_member(doc, k3)
        },
    )
}

/// The access JWT field of an import file: `accessToken` (this tool's
/// export), `access_token` (a login answer) or `token` (an `auth` block).
pub open spec fn access_field(doc: Seq<u8>) -> Option<Seq<char>> {
    first_text3(doc, "accessToken"@, "access_token"@, "token"@)
}

/// The refresh JWT field of an import file: `refreshToken` or `refresh_token`.
pub open spec fn refresh_field(doc: Seq<u8>) -> Option<Seq<char>> {
    first_text3(doc, "refreshToken"@, "refresh_token"@, "refreshToken"@)
}

/// A field value as a JWT: an `mrs1:` token is opened with the machine key
/// (`None` when it does not open); anything else is taken as it is.
pub open spec fn unwrap_token(key: Option<Seq<u8>>, s: Seq<char>) -> Option<Seq<char>> {
    if s.len() >= 5 && s.take(5) == mrs1() {
        opened_with(key, s)
    } else {
        Some(s)
    }
}

/// What checking an import file gives.
pub enum ImportVerdict {
    Accepted(Seq<char>, Seq<char>),
    NoAccessField,
    NoRefreshField,
    ForeignAccess,
    ForeignRefresh,
    AccessNotJwt,
    RefreshNotJwt,
    NotRefreshToken,
    NoSubject,
    DifferentAccounts,
    RefreshExpired,
}

/// Checks an import file `doc` at time `now`, in this order: both fields
/// present; each opens (when sealed); both are JWTs; the refresh JWT's
/// `token_type`, when a string, is `refresh`; the access JWT has a string
/// `sub`; both JWTs have the same `sub`; the refresh JWT's `exp`, when an
/// integer, is not before `now`.
pub open spec fn import_verdict(doc: Seq<u8>, key: Option<Seq<u8>>, now: int) -> ImportVerdict {
    match (access_field(doc), refresh_field(doc)) {
        (None, _) => ImportVerdict::NoAccessField,
        (_, None) => ImportVerdict::NoRefreshField,
        (Some(a0), Some(f0)) => match (unwrap_token(key, a0), unwrap_token(key, f0)) {
            (None, _) => ImportVerdict::ForeignAccess,
            (_, None) => ImportVerdict::ForeignRefresh,
            (Some(a), Some(f)) => match (jwt_claims_of(a), jwt_claims_of(f)) {
                (None, _) => ImportVerdict::AccessNotJwt,
                (_, None) => ImportVerdict::RefreshNotJwt,
                (Some(ac), Some(rc)) => if json_str_member(rc, "token_type"@) matches Some(t) && t != "refresh"@ {
                    ImportVerdict::NotRefreshToken
                } else if json_str_member(ac, "sub"@) is None {
                    ImportVerdict::NoSubject
                } else if json_member(ac, "sub"@) != json_member(rc, "sub"@) {
                    ImportVerdict::DifferentAccounts
                } else if json_i64_member(rc, "exp"@) matches Some(e) && e < now {
                    ImportVerdict::RefreshExpired
                } else {
                    ImportVerdict::Accepted(a, f)
                },
            },
        },
    }
}

/// Whether the result `r` of an import check is the verdict `v`.
pub open spec fn import_result_is(r: Result<(String, String), TransferError>, v: ImportVerdict) -> bool {
    match v {
        ImportVerdict::Accepted(a, f) => r matches Ok((x, y)) && x@ == a && y@ == f,
        ImportVerdict::NoAccessField => r matches Err(TransferError::NoAccessField),
        ImportVerdict::NoRefreshField => r matches Err(TransferError::NoRefreshField),
        ImportVerdict::ForeignAccess => r matches Err(TransferError::ForeignCipher(w)) && w@ == "access"@,
        ImportVerdict::ForeignRefresh => r matches Err(TransferError::ForeignCipher(w)) && w@ == "refresh"@,
        ImportVerdict::AccessNotJwt => r matches Err(TransferError::AccessNotJwt),
        ImportVerdict::RefreshNotJwt => r matches Err(TransferError::RefreshNotJwt),
        ImportVerdict::NotRefreshToken => r matches Err(TransferError::NotRefreshToken),
        ImportVerdict::NoSubject => r matches Err(TransferError::NoSubject),
        ImportVerdict::DifferentAccounts => r matches Err(TransferError::DifferentAccounts),
        ImportVerdict::RefreshExpired => r matches Err(TransferError::RefreshExpired),
    }
}

fn trimmed_text(s: &str) -> (r: Option<String>)
    ensures
        opt_chars(r) == trimmed_nonempty(Some(s@)),
{
    let v = chars_of(s);
    let t = trim_chars(&v);
    if t.len() == 0 {
        None
    } else {
        Some(string_of(&t))
    }
}

fn first_text(doc: &[u8], k1: &str, k2: &str, k3: &str) -> (r: Option<String>)
    ensures
        opt_chars(r) == first_text3(doc@, k1@, k2@, k3@),
{
    let found = match json_str_at(doc, k1) {
        Some(x) => Some(x),
        None => match json_str_at(doc, k2) {
            Some(x) => Some(x),
            None => json_str_at(doc, k3),
        },
    };
    match found {
        Some(x) => trimmed_text(x.as_str()),
        None => None,
    }
}

fn unwrap_field(key: Option<&[u8; 32]>, s: String) -> (r: Option<String>)
    ensures
        opt_chars(r) == unwrap_token(key_seq(key), s@),
{
    let mut p = String::new();
    push_char(&mut p, 'm');
    push_char(&mut p, 'r');
    push_char(&mut p, 's');
    push_char(&mut p, '1');
    push_char(&mut p, ':');
    assert(p@ == mrs1());
    if starts_with_text(s.as_str(), p.as_str()) {
        open_with(key, s.as_str())
    } else {
        Some(s)
    }
}

fn same_vec(x: &Vec<u8>, y: &Vec<u8>) -> (r: bool)
    ensures
        r == (x@ == y@),
{
    if x.len() != y.len() {
        return false;
    }
    let mut i: usize = 0;
    while i < x.len()
        invariant
            x@.len() == y@.len(),
            i <= x@.len(),
            forall|j: int| 0 <= j < i ==> x@[j] == y@[j],
        decreases x@.len() - i,
    {
        if x[i] != y[i] {
            assert(x@[i as int] != y@[i as int]);
            return false;
        }
        i = i + 1;
    }
    assert(x@ == y@);
    true
}

fn same_bytes(a: &Option<Vec<u8>>, b: &Option<Vec<u8>>) -> (r: bool)
    ensures
        r == (match a {
            Some(x) => Some(x@),
            None => None,
        } == match b {
            Some(x) => Some(x@),
            None => None,
        }),
{
    match (a, b) {
        (Some(x), Some(y)) => same_vec(x, y),
        (None, None) => true,
        _ => false,
    }
}

/// Checks an import file and returns its two JWTs (see `import_verdict`);
/// `key` is the machine key, when readable, and `now` the time in Unix
/// seconds.
pub fn parse_import(doc: &[u8], key: Option<&[u8; 32]>, now: i64) -> (r: Result<(String, String), TransferError>)
    ensures
        import_result_is(r, import_verdict(doc@, key_seq(key), now as int)),
{
    let access = match first_text(doc, "accessToken", "access_token", "token") {
        Some(a) => a,
        None => return Err(TransferError::NoAccessField),
    };
    let refresh = match first_text(doc, "refreshToken", "refresh_token", "refreshToken") {
        Some(f) => f,
        None => return Err(TransferError::NoRefreshField),
    };
    let access = match unwrap_field(key, access) {
        Some(a) => a,
        None => return Err(TransferError::ForeignCipher(String::from_str("access"))),
    };
    let refresh = match unwrap_field(key, refresh) {
        Some(f) => f,
        None => return Err(TransferError::ForeignCipher(String::from_str("refresh"))),
    };
    let ac = match jwt_claims(access.as_str()) {
        Some(c) => c,
        None => return Err(TransferError::AccessNotJwt),
    };
    let rc = match jwt_claims(refresh.as_str()) {
        Some(c) => c,
        None => return Err(TransferError::RefreshNotJwt),
    };
    if let Some(t) = json_str_at(&rc, "token_type") {
        let want = String::from_str("refresh");
        if !same_text(t.as_str(), want.as_str()) {
            return Err(TransferError::NotRefreshToken);
        }
    }
    if json_str_at(&ac, "sub").is_none() {
        return Err(TransferError::NoSubject);
    }
    let asub = json_member_at(&ac, "sub");
    let rsub = json_member_at(&rc, "sub");
    if !same_bytes(&asub, &rsub) {
        return Err(TransferError::DifferentAccounts);
    }
    if let Some(e) = json_i64_at(&rc, "exp") {
        if e < now {
            return Err(TransferError::RefreshExpired);
        }
    }
    Ok((access, refresh))
}


/// An `auth` block to file for an account, its tokens sealed with the
/// machine key.
#[derive(Debug)]
pub struct SealedAuth {
    pub token: String,
    pub user_id: String,
    pub exp: i64,
    pub refresh_token: String,
    pub name: String,
}

/// Builds the `auth` block for the JWT pair `access`/`refresh` under the
/// display name `name`: `userId` is the access JWT's `sub`, `exp` its `exp`
/// (0 when absent), and both JWTs are sealed with the machine key.
pub fn sealed_auth(key: Option<&[u8; 32]>, access: &str, refresh: &str, name: &str) -> (r: Result<
    SealedAuth,
    TransferError,
>)
    ensures
        jwt_claims_of(access@) is None <==> r matches Err(TransferError::AccessNotJwt),
        r matches Err(TransferError::AccessWithoutSub) <==> (jwt_claims_of(access@) matches Some(c) && json_str_member(
            c,
            "sub"@,
        ) is None),
        r matches Err(TransferError::KeyUnavailable) ==> key is None || access.spec_bytes().len()
            > 0x10_0000_0000 || refresh.spec_bytes().len() > 0x10_0000_0000 || access.spec_bytes().len()
            > usize::MAX / 2 - 28 || refresh.spec_bytes().len() > usize::MAX / 2 - 28,
        r is Err ==> (r matches Err(TransferError::AccessNotJwt) || r matches Err(TransferError::AccessWithoutSub)
            || r matches Err(TransferError::KeyUnavailable)),
        r matches Ok(a) ==> {
            let c = jwt_claims_of(access@)->0;
            let k = key->0@;
            &&& key is Some
            &&& json_str_member(c, "sub"@) == Some(a.user_id@)
            &&& a.exp == match json_i64_member(c, "exp"@) {
                Some(e) => e,
                None => 0,
            }
            &&& a.name@ == name@
            &&& (access@.len() > 0 ==> decrypted_token(a.token@, k) == Some(access@))
            &&& (refresh@.len() > 0 ==> decrypted_token(a.refresh_token@, k) == Some(refresh@))
        },
        (jwt_claims_of(access@) matches Some(c) && json_str_member(c, "sub"@) is Some && key is Some
            && access.spec_bytes().len() <= 0x10_0000_0000 && refresh.spec_bytes().len() <= 0x10_0000_0000
            && access.spec_bytes().len() <= usize::MAX / 2 - 28 && refresh.spec_bytes().len() <= usize::MAX / 2
            - 28) ==> r is Ok,
{
    let ac = match jwt_claims(access) {
        Some(c) => c,
        None => return Err(TransferError::AccessNotJwt),
    };
    let sub = match json_str_at(&ac, "sub") {
        Some(s) => s,
        None => return Err(TransferError::AccessWithoutSub),
    };
    let exp = match json_i64_at(&ac, "exp") {
        Some(e) => e,
        None => 0,
    };
    let k = match key {
        Some(k) => k,
        None => return Err(TransferError::KeyUnavailable),
    };
    let token = match seal_token(access, k) {
        Some(t) => t,
        None => return Err(TransferError::KeyUnavailable),
    };
    let refresh_token = match seal_token(refresh, k) {
        Some(t) => t,
        None => return Err(TransferError::KeyUnavailable),
    };
    Ok(SealedAuth { token, user_id: sub, exp, refresh_token, name: String::from_str(name) })
}

/// A write-back onto the current login is allowed only while the account
/// whose `userId` is in `setting.json` is the one the new pair belongs to;
/// when the login changed during the refresh (another account, or nobody
/// logged in any more) it is given up.
pub fn write_back_allowed(current_uid: &str, sealed_uid: &str) -> (r: bool)
    ensures
        r == (sealed_uid@ == current_uid@),
{
    same_text(sealed_uid, current_uid)
}

/// Why the login server gave no new token pair.
#[derive(Debug)]
pub enum RefreshErr {
    /// A status other than 200, with the start of the answer.
    Rejected(u16, String),
    Network(String),
    BadResponse,
}

impl RefreshErr {
    /// The text of `message`.
    pub open spec fn message_text(self) -> Seq<char> {
        match self {
            RefreshErr::Rejected(code, body) => if code == 400 || code == 401 || code == 403 {
                "服务端拒绝：refresh 令牌已失效或被吊销，需要重新登录"@
            } else {
                "服务端 HTTP "@ + decimal(code as nat) + "："@ + body@
            },
            RefreshErr::Network(e) => "网络不可达："@ + e@,
            RefreshErr::BadResponse => "服务端响应缺少 access_token"@,
        }
    }

    /// The message shown for this failure.
    pub fn message(&self) -> (r: String)
        ensures
            r@ == self.message_text(),
            r@ == match self {
                RefreshErr::Rejected(code, body) => if *code == 400 || *code == 401 || *code == 403 {
                    "服务端拒绝：refresh 令牌已失效或被吊销，需要重新登录"@
                } else {
                    "服务端 HTTP "@ + decimal(*code as nat) + "："@ + body@
                },
                RefreshErr::Network(e) => "网络不可达："@ + e@,
                RefreshErr::BadResponse => "服务端响应缺少 access_token"@,
            },
    {
        match self {
            RefreshErr::Rejected(code, body) => {
                if *code == 400 || *code == 401 || *code == 403 {
                    String::from_str("服务端拒绝：refresh 令牌已失效或被吊销，需要重新登录")
                } else {
                    let mut m = String::from_str("服务端 HTTP ");
                    push_decimal(&mut m, *code as u64);
                    m.append("：");
                    m.append(body.as_str());
                    m
                }
            },
            RefreshErr::Network(e) => {
                let mut m = String::from_str("网络不可达：");
                m.append(e.as_str());
                m
            },
            RefreshErr::BadResponse => String::from_str("服务端响应缺少 access_token"),
        }
    }
}

/// A non-empty string member of the JSON document `doc`.
pub open spec fn nonempty_member(doc: Seq<u8>, key: Seq<char>) -> Option<Seq<char>> {
    match json_str_member(doc, key) {
        Some(s) => if s.len() > 0 {
            Some(s)
        } else {
            None
        },
        None => None,
    }
}

/// What the login server's answer (status `status`, text `body`) to a
/// refresh with `old_refresh` gives: a status other than 200 is `Rejected`
/// with the first 120 characters of the answer; an answer without a
/// non-empty `access_token` string is `BadResponse`; otherwise the new
/// access JWT and the new refresh JWT (the old one when none is sent).
pub fn refresh_outcome(status: u16, body: &str, old_refresh: &str) -> (r: Result<(String, String), RefreshErr>)
    ensures
        status != 200 ==> (r matches Err(RefreshErr::Rejected(c, b)) && c == status && b@ == take_at_most(
            body@,
            120,
        )),
        status == 200 ==> match nonempty_member(encode_utf8(body@), "access_token"@) {
            None => r matches Err(RefreshErr::BadResponse),
            Some(a) => (r matches Ok((x, y)) && x@ == a && y@ == match nonempty_member(
                encode_utf8(body@),
                "refresh_token"@,
            ) {
                Some(f) => f,
                None => old_refresh@,
            }),
        },
{
    if status != 200 {
        let v = chars_of(body);
        let end = if v.len() > 120 { 120 } else { v.len() };
        let head = crate::text::copy_range(&v, 0, end);
        return Err(RefreshErr::Rejected(status, string_of(&head)));
    }
    let bytes = body.as_bytes();
    let access = match json_str_at(bytes, "access_token") {
        Some(a) => if a.as_str().is_empty() {
            return Err(RefreshErr::BadResponse);
        } else {
            a
        },
        None => return Err(RefreshErr::BadResponse),
    };
    let refresh = match json_str_at(bytes, "refresh_token") {
        Some(f) => if f.as_str().is_empty() {
            String::from_str(old_refresh)
        } else {
            f
        },
        None => String::from_str(old_refresh),
    };
    Ok((access, refresh))
}


/// The preferred snapshot name of an imported account: the cleaned local
/// part of its e-mail, else `usr-<short id>`.
pub open spec fn import_base(email: Option<Seq<char>>, sub: Seq<char>) -> Seq<char> {
    let b = match email {
        Some(e) => sanitized(before_first(e, '@')),
        None => Seq::empty(),
    };
    if b.len() > 0 {
        b
    } else {
        usr_dash() + short_id_spec(sub)
    }
}

/// The snapshot name an import files account `sub` (whose e-mail is
/// `email`) under: its existing snapshot's name (one snapshot per
/// account), else an automatic name that no other account holds.
pub open spec fn import_name(sub: Seq<char>, email: Option<Seq<char>>, ps: Seq<Snapshot>) -> Seq<char> {
    match first_owned(ps, sub) {
        Some(i) => ps[i].name@,
        None => auto_name(import_base(email, sub), sub, email, ps),
    }
}

/// Where and how an imported pair is filed.
#[derive(Debug)]
pub struct ImportPlan {
    /// The snapshot name.
    pub name: String,
    /// The account id (the access JWT's `sub`).
    pub user_id: String,
    /// The access JWT's `email`.
    pub email: Option<String>,
    /// The display name filed in the `auth` block: the e-mail's local part.
    pub display: String,
}

/// Plans filing the imported access JWT `access`: under the name of the
/// account's existing snapshot (one snapshot per account), else under an
/// automatic name that no other account holds.
pub fn plan_import(access: &str, profiles: &[Snapshot]) -> (r: Result<ImportPlan, TransferError>)
    ensures
        jwt_claims_of(access@) is None <==> r matches Err(TransferError::AccessNotJwt),
        r matches Err(TransferError::AccessWithoutSub) <==> (jwt_claims_of(access@) matches Some(c) && json_str_member(
            c,
            "sub"@,
        ) is None),
        r is Err ==> (r matches Err(TransferError::AccessNotJwt) || r matches Err(TransferError::AccessWithoutSub)),
        r matches Ok(p) ==> {
            let c = jwt_claims_of(access@)->0;
            let sub = p.user_id@;
            let email = json_str_member(c, "email"@);
            &&& json_str_member(c, "sub"@) == Some(sub)
            &&& opt_chars(p.email) == email
            &&& p.display@ == match email {
                Some(e) => before_first(e, '@'),
                None => Seq::empty(),
            }
            &&& p.name@ == import_name(sub, email, profiles@)
        },
        // filing the import keeps one snapshot per account and touches no
        // other account's
        one_per_account(profiles@) ==> (r matches Ok(p) ==> forall|k: int|
            0 <= k < profiles@.len() && profiles@[k].name@ != p.name@ ==> !owned_by(
                #[trigger] profiles@[k],
                p.user_id@,
            )),
        names_distinct(profiles@) ==> (r matches Ok(p) ==> forall|k: int|
            0 <= k < profiles@.len() && profiles@[k].name@ == p.name@ ==> owned_by(#[trigger] profiles@[k], p.user_id@)),
{
    let ac = match jwt_claims(access) {
        Some(c) => c,
        None => return Err(TransferError::AccessNotJwt),
    };
    let sub = match json_str_at(&ac, "sub") {
        Some(s) => s,
        None => return Err(TransferError::AccessWithoutSub),
    };
    let email = json_str_at(&ac, "email");
    let e: Option<&str> = match &email {
        Some(e) => Some(e.as_str()),
        None => None,
    };
    let found = find_owned(profiles, sub.as_str());
    let name = match found {
        Some(i) => profiles[i].name.clone(),
        None => {
            let base = match e {
                Some(x) => {
                    let lp = local_part(x);
                    sanitize_name(lp.as_str())
                },
                None => String::new(),
            };
            let base = if base.as_str().is_empty() {
                let mut b = String::new();
                push_char(&mut b, 'u');
                push_char(&mut b, 's');
                push_char(&mut b, 'r');
                push_char(&mut b, '-');
                let sid = short_id(sub.as_str());
                b.append(sid.as_str());
                b
            } else {
                base
            };
            assert(base@ == import_base(opt_chars(email), sub@));
            unique_auto_name(base.as_str(), sub.as_str(), e, profiles)
        },
    };
    let display = match e {
        Some(x) => local_part(x),
        None => String::new(),
    };
    proof {
        lemma_name_keeps_one(profiles@, sub@, name@, match found { Some(i) => Some(i as int), None => None });
        let c = jwt_claims_of(access@)->0;
        assert(opt_chars(email) == json_str_member(c, "email"@));
        assert(match e { Some(x) => Some(x@), None => None::<Seq<char>> } == opt_chars(email));
        assert(display@ == match opt_chars(email) {
            Some(x) => before_first(x, '@'),
            None => Seq::<char>::empty(),
        });
    }
    Ok(ImportPlan { name, user_id: sub, email, display })
}

/// The member `key` of the claims of `jwt`, as JSON text.
pub open spec fn claim_member(jwt: Seq<char>, key: Seq<char>) -> Option<Seq<u8>> {
    match jwt_claims_of(jwt) {
        Some(c) => json_member(c, key),
        None => None,
    }
}

/// The claims copied into an export file (JSON text; `None` is written as
/// `null`).
#[derive(Debug)]
pub struct ExportFields {
    pub user_id: Option<Vec<u8>>,
    pub email: Option<Vec<u8>>,
    pub plan: Option<Vec<u8>>,
    pub plan_exp: Option<Vec<u8>>,
    pub access_exp: Option<Vec<u8>>,
    pub refresh_exp: Option<Vec<u8>>,
}

pub open spec fn bytes_opt(o: Option<Vec<u8>>) -> Option<Seq<u8>> {
    match o {
        Some(b) => Some(b@),
        None => None,
    }
}

fn member_of(claims: &Option<Vec<u8>>, key: &str) -> (r: Option<Vec<u8>>)
    ensures
        bytes_opt(r) == match claims {
            Some(c) => json_member(c@, key@),
            None => None,
        },
{
    match claims {
        Some(c) => json_member_at(c, key),
        None => None,
    }
}

/// The claims an export file copies: `sub` (as `userId`), `email`, `plan`,
/// `plan_exp` and `exp` of the access JWT, and `exp` of the refresh JWT.
pub fn export_fields(access: &str, refresh: &str) -> (r: ExportFields)
    ensures
        bytes_opt(r.user_id) == claim_member(access@, "sub"@),
        bytes_opt(r.email) == claim_member(access@, "email"@),
        bytes_opt(r.plan) == claim_member(access@, "plan"@),
        bytes_opt(r.plan_exp) == claim_member(access@, "plan_exp"@),
        bytes_opt(r.access_exp) == claim_member(access@, "exp"@),
        bytes_opt(r.refresh_exp) == claim_member(refresh@, "exp"@),
{
    let a = jwt_claims(access);
    let f = jwt_claims(refresh);
    ExportFields {
        user_id: member_of(&a, "sub"),
        email: member_of(&a, "email"),
        plan: member_of(&a, "plan"),
        plan_exp: member_of(&a, "plan_exp"),
        access_exp: member_of(&a, "exp"),
        refresh_exp: member_of(&f, "exp"),
    }
}

/// The `email` claim of a JWT as it stands (not trimmed).
pub fn jwt_email(jwt: &str) -> (r: Option<String>)
    ensures
        opt_chars(r) == match jwt_claims_of(jwt@) {
            Some(c) => json_str_member(c, "email"@),
            None => None,
        },
{
    match jwt_claims(jwt) {
        Some(c) => json_str_at(&c, "email"),
        None => None,
    }
}

/// `YYYY-MM-DDTHH:MM:SSZ` cut out of the backup stamp of `secs`.
pub open spec fn iso_text(secs: nat) -> Seq<char> {
    let s = stamp_text(secs);
    s.subrange(0, 4) + seq!['-'] + s.subrange(4, 6) + seq!['-'] + s.subrange(6, 8) + seq!['T'] + s.subrange(9, 11)
        + seq![':'] + s.subrange(11, 13) + seq![':'] + s.subrange(13, 15) + seq!['Z']
}

proof fn lemma_stamp_len(secs: nat)
    ensures
        stamp_text(secs).len() >= 15,
{
    let days = secs / 86400;
    let rem = secs % 86400;
    let (y, m, d) = crate::stamp::civil_from_days(days as int);
    crate::stamp::lemma_zero_padded_len(y as nat, 4);
    crate::stamp::lemma_zero_padded_len(m as nat, 2);
    crate::stamp::lemma_zero_padded_len(d as nat, 2);
    crate::stamp::lemma_zero_padded_len(rem / 3600, 2);
    crate::stamp::lemma_zero_padded_len(rem % 3600 / 60, 2);
    crate::stamp::lemma_zero_padded_len(rem % 60, 2);
}

fn push_range(out: &mut String, v: &Vec<char>, from: usize, to: usize)
    requires
        from <= to <= v@.len(),
    ensures
        final(out)@ == old(out)@ + v@.subrange(from as int, to as int),
{
    let mut j = from;
    let ghost start = out@;
    while j < to
        invariant
            from <= j <= to <= v@.len(),
            out@ == start + v@.subrange(from as int, j as int),
        decreases to - j,
    {
        push_char(out, v[j]);
        j = j + 1;
    }
}

/// The export time stamp of Unix time `secs` (see `iso_text`).
pub fn iso_stamp(secs: u64) -> (r: String)
    ensures
        r@ == iso_text(secs as nat),
{
    let st = backup_stamp(secs);
    let v = chars_of(st.as_str());
    proof {
        lemma_stamp_len(secs as nat);
    }
    let mut out = String::new();
    push_range(&mut out, &v, 0, 4);
    push_char(&mut out, '-');
    push_range(&mut out, &v, 4, 6);
    push_char(&mut out, '-');
    push_range(&mut out, &v, 6, 8);
    push_char(&mut out, 'T');
    push_range(&mut out, &v, 9, 11);
    push_char(&mut out, ':');
    push_range(&mut out, &v, 11, 13);
    push_char(&mut out, ':');
    push_range(&mut out, &v, 13, 15);
    push_char(&mut out, 'Z');
    out
}

/// The default name of an export file: `mirasim-<local part>-<YYYYMMDD>.json`,
/// the local part being that of the account's e-mail, cleaned, or `account`.
pub open spec fn export_file_name(email: Option<Seq<char>>, secs: nat) -> Seq<char> {
    let local = match email {
        Some(e) => sanitized(before_first(e, '@')),
        None => Seq::empty(),
    };
    let local = if local.len() > 0 {
        local
    } else {
        "account"@
    };
    "mirasim-"@ + local + seq!['-'] + stamp_text(secs).subrange(0, 8) + ".json"@
}

/// The default name of an export file (see `export_file_name`), for the
/// account whose e-mail is `email`, exported at Unix time `secs`.
pub fn export_filename(email: Option<&str>, secs: u64) -> (r: String)
    ensures
        r@ == export_file_name(
            match email {
                Some(e) => Some(e@),
                None => None,
            },
            secs as nat,
        ),
{
    let local = match email {
        Some(e) => {
            let lp = local_part(e);
            sanitize_name(lp.as_str())
        },
        None => String::new(),
    };
    let local = if local.as_str().is_empty() {
        String::from_str("account")
    } else {
        local
    };
    let st = backup_stamp(secs);
    let v = chars_of(st.as_str());
    proof {
        lemma_stamp_len(secs as nat);
    }
    let mut out = String::from_str("mirasim-");
    out.append(local.as_str());
    push_char(&mut out, '-');
    push_range(&mut out, &v, 0, 8);
    out.append(".json");
    out
}

/// What an export reports.
#[derive(Debug)]
pub struct ExportResult {
    pub path: String,
    pub email: Option<String>,
    /// "当前登录" or "快照「x」".
    pub target: String,
}

/// What an import reports.
#[derive(Debug)]
pub struct ImportResult {
    pub name: String,
    pub email: Option<String>,
    /// Whether the pair was refreshed online (which proves it alive).
    pub refreshed: bool,
    /// A note, such as that it could not be checked online.
    pub note: Option<String>,
    pub view: AccountsView,
}

/// What a refresh reports.
#[derive(Debug)]
pub struct RefreshResult {
    pub target: String,
    pub access_exp: i64,
    pub view: AccountsView,
}


/// The `auth` block to export or refresh: the current login (`name` is
/// `None`; refused when not logged in) or the first snapshot called `name`
/// (refused when there is none); with its label (see `target_label`).
pub fn target_auth(name: Option<&str>, current: &Auth, profiles: &[Snapshot]) -> (r: Result<(Auth, String), TransferError>)
    ensures
        match name {
            None => match r {
                Ok((a, label)) => crate::accounts::logged_in(*current) && a == *current && label@ == "当前登录"@,
                Err(e) => !crate::accounts::logged_in(*current) && e is NotLoggedIn,
            },
            Some(n) => match r {
                Ok((a, label)) => (crate::accounts::first_named(profiles@, n@) matches Some(i) && a
                    == profiles@[i].auth) && label@ == "快照「"@ + n@ + "」"@,
                Err(e) => crate::accounts::first_named(profiles@, n@) is None && (e matches TransferError::NoSnapshot(
                    m,
                ) && m@ == n@),
            },
        },
{
    match name {
        None => {
            if !crate::accounts::has_login(current) {
                return Err(TransferError::NotLoggedIn);
            }
            Ok((current.clone_auth(), target_label(None)))
        },
        Some(n) => match crate::accounts::find_named(profiles, n) {
            Some(i) => Ok((profiles[i].auth.clone_auth(), target_label(Some(n)))),
            None => Err(TransferError::NoSnapshot(String::from_str(n))),
        },
    }
}

/// What an import does with the login server's answer to the online check:
/// a new pair replaces the file's pair (`refreshed`); a refusal stops the
/// import (`凭证无效：…`); any other failure keeps the file's pair with a note.
pub fn online_check_outcome(
    answer: Result<(String, String), RefreshErr>,
    access: String,
    refresh: String,
) -> (r: Result<(String, String, bool, Option<String>), String>)
    ensures
        match answer {
            Ok((a, f)) => (r matches Ok((x, y, true, None)) && x@ == a@ && y@ == f@),
            Err(RefreshErr::Rejected(c, b)) => (r matches Err(m) && m@ == "凭证无效："@ + RefreshErr::Rejected(
                c,
                b,
            ).message_text()),
            Err(e) => (r matches Ok((x, y, false, Some(note))) && x@ == access@ && y@ == refresh@ && note@
                == "未能联网验证（"@ + e.message_text() + "），已按原样入库"@),
        },
{
    match answer {
        Ok((a, f)) => Ok((a, f, true, None)),
        Err(e) => {
            let msg = e.message();
            match e {
                RefreshErr::Rejected(..) => {
                    let mut m = String::from_str("凭证无效：");
                    m.append(msg.as_str());
                    Err(m)
                },
                _ => {
                    let mut m = String::from_str("未能联网验证（");
                    m.append(msg.as_str());
                    m.append("），已按原样入库");
                    Ok((access, refresh, false, Some(m)))
                },
            }
        },
    }
}


/// Importing the same account again changes nothing. Say the profiles
/// directory held the snapshots `dir`; an import of account `sub` writes
/// its snapshot `new` under the name `import_name` picks from the listing
/// of `dir`, to the file `<name>.json`. A second import then picks the same
/// name from the new listing, and writing its snapshot `new2` (same name and
/// file, same account) lists the same snapshots under the same names, only
/// the account's new record in place of the first.
pub proof fn lemma_import_repeat(
    sub: Seq<char>,
    email: Option<Seq<char>>,
    dir: Seq<Snapshot>,
    new: Snapshot,
    new2: Snapshot,
)
    requires
        new.name@ == import_name(sub, email, listed(dir)),
        new.file@ == new.name@ + ".json"@,
        owned_by(new, sub),
        is_listed(new),
        new2.name@ == new.name@,
        new2.file@ == new.file@,
        owned_by(new2, sub),
        is_listed(new2),
    ensures
        ({
            let dir1 = filed(dir, -1, new);
            let dir2 = filed(dir1, -1, new2);
            &&& import_name(sub, email, listed(dir1)) == new.name@
            &&& exists|p: int|
                0 <= p < listed(dir1).len() && #[trigger] listed(dir1)[p] == new && listed(dir2) == listed(
                    dir1,
                ).update(p, new2)
        }),
{
    let name = new.name@;
    let file = new.file@;
    let l0 = listed(dir);
    let kept = kept_files(dir, file, -1);
    let dir1 = filed(dir, -1, new);
    let dir2 = filed(dir1, -1, new2);
    lemma_kept_files_from(dir, file, -1);
    // the second write replaces exactly the first one's file
    assert(dir1.drop_last() == kept);
    assert(kept_files(dir1, file, -1) == kept_files(kept, file, -1));
    lemma_kept_files_none(kept, file);
    assert(dir2 == kept.push(new2));
    let f = kept.filter(|p: Snapshot| is_listed(p));
    kept.lemma_filter_push(new, |p: Snapshot| is_listed(p));
    kept.lemma_filter_push(new2, |p: Snapshot| is_listed(p));
    assert(dir1.filter(|p: Snapshot| is_listed(p)) == f.push(new));
    assert(dir2.filter(|p: Snapshot| is_listed(p)) == f.push(new2));
    let t = sort_by_name(f);
    assert(f.push(new).drop_last() == f && f.push(new2).drop_last() == f);
    lemma_insert_pos_facts(t, new, new2);
    let p = insert_pos(t, new);
    let s1 = listed(dir1);
    assert(s1 == t.insert(p, new));
    assert(listed(dir2) == t.insert(p, new2));
    assert(listed(dir2) == s1.update(p, new2));
    assert(s1[p] == new);
    // no snapshot before the new one in the listing is another of the account under another name
    lemma_first_owned_facts(l0, sub);
    lemma_first_owned_facts(s1, sub);
    lemma_sort_by_name_sorted(dir.filter(|p: Snapshot| is_listed(p)));
    assert forall|k: int| 0 <= k < p && owned_by(#[trigger] s1[k], sub) implies s1[k].name@ == name by {
        let x = s1[k];
        assert(x == t[k]);
        lemma_sort_by_name_multiset(f);
        vstd::seq_lib::to_multiset_contains(t, x);
        vstd::seq_lib::to_multiset_contains(f, x);
        kept.lemma_filter_contains_rev(|p: Snapshot| is_listed(p), x);
        let m = choose|m: int| 0 <= m < f.len() && f[m] == x;
        kept.lemma_filter_pred(|p: Snapshot| is_listed(p), m);
        lemma_listed_contains(dir, x);
        let j = choose|j: int| 0 <= j < l0.len() && l0[j] == x;
        let i = first_owned(l0, sub)->0;
        assert(j >= i);
        if j > i {
            assert(text_le(l0[i].name@, l0[j].name@));
        }
        lemma_text_le_antisym(x.name@, name);
    }
    let j = first_owned(s1, sub)->0;
    assert(j <= p);
}


/// An import file is accepted on the refresh JWT's expiry alone. Say the
/// file's `accessToken` and `refreshToken` are the JWTs `a` and `f` as they
/// stand (no surrounding white space, not sealed), the refresh JWT's
/// `token_type` is absent or `refresh`, the access JWT has a string `sub`
/// equal to the refresh JWT's, and the refresh JWT's `exp`, when an
/// integer, is not before `now`. Then the import check returns exactly the
/// pair `(a, f)`, whatever the access JWT's own `exp` says (an access
/// token is short-lived and is traded for a fresh pair online).
pub proof fn lemma_import_accepts_on_refresh_expiry(
    doc: Seq<u8>,
    key: Option<Seq<u8>>,
    now: int,
    a: Seq<char>,
    f: Seq<char>,
    ac: Seq<u8>,
    rc: Seq<u8>,
)
    requires
        json_str_member(doc, "accessToken"@) == Some(a),
        json_str_member(doc, "refreshToken"@) == Some(f),
        a.len() > 0 && trimmed(a) == a && !(a.len() >= 5 && a.take(5) == mrs1()),
        f.len() > 0 && trimmed(f) == f && !(f.len() >= 5 && f.take(5) == mrs1()),
        jwt_claims_of(a) == Some(ac),
        jwt_claims_of(f) == Some(rc),
        json_str_member(rc, "token_type"@) is None || json_str_member(rc, "token_type"@) == Some("refresh"@),
        json_str_member(ac, "sub"@) is Some,
        json_member(ac, "sub"@) == json_member(rc, "sub"@),
        json_i64_member(rc, "exp"@) is None || json_i64_member(rc, "exp"@)->0 >= now,
    ensures
        import_verdict(doc, key, now) == ImportVerdict::Accepted(a, f),
        forall|r: Result<(String, String), TransferError>|
            import_result_is(r, #[trigger] import_verdict(doc, key, now)) ==> (r matches Ok((x, y)) && x@ == a
                && y@ == f),
{
}

/// Why a well-formed import file is refused. With the file's `accessToken`
/// and `refreshToken` the plain JWTs `a` and `f` (claims `ac` and `rc`):
/// a refresh `token_type` other than `refresh` is refused first; then an
/// access JWT without a string `sub`; then two different `sub`s; then a
/// refresh JWT whose `exp` is before `now`.
pub proof fn lemma_import_refusals(
    doc: Seq<u8>,
    key: Option<Seq<u8>>,
    now: int,
    a: Seq<char>,
    f: Seq<char>,
    ac: Seq<u8>,
    rc: Seq<u8>,
)
    requires
        json_str_member(doc, "accessToken"@) == Some(a),
        json_str_member(doc, "refreshToken"@) == Some(f),
        a.len() > 0 && trimmed(a) == a && !(a.len() >= 5 && a.take(5) == mrs1()),
        f.len() > 0 && trimmed(f) == f && !(f.len() >= 5 && f.take(5) == mrs1()),
        jwt_claims_of(a) == Some(ac),
        jwt_claims_of(f) == Some(rc),
    ensures
        (json_str_member(rc, "token_type"@) is Some && json_str_member(rc, "token_type"@)->0 != "refresh"@)
            ==> import_verdict(doc, key, now) == ImportVerdict::NotRefreshToken,
        (json_str_member(rc, "token_type"@) is None || json_str_member(rc, "token_type"@) == Some("refresh"@)) ==> {
            &&& json_str_member(ac, "sub"@) is None ==> import_verdict(doc, key, now) == ImportVerdict::NoSubject
            &&& (json_str_member(ac, "sub"@) is Some && json_member(ac, "sub"@) != json_member(rc, "sub"@))
                ==> import_verdict(doc, key, now) == ImportVerdict::DifferentAccounts
            &&& (json_str_member(ac, "sub"@) is Some && json_member(ac, "sub"@) == json_member(rc, "sub"@)
                && json_i64_member(rc, "exp"@) is Some && json_i64_member(rc, "exp"@)->0 < now) ==> import_verdict(
                doc,
                key,
                now,
            ) == ImportVerdict::RefreshExpired
        },
{
}
} // verus!
