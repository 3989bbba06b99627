//! Subscription-account snapshots: what the logic reads of the `auth` block
//! of `setting.json` and of saved snapshots, and the naming rules for them.

use vstd::prelude::*;
use crate::json::{json_i64_at, json_i64_member, json_member, json_member_at, json_str_at, json_str_member};
use crate::text::{
    before_first, chars_of, copy_opt, domain_head, domain_head_of, is_nonempty, opt_chars, push_char, same_text,
    sanitize_name, sanitized, short_id, short_id_spec, strip_bom, strip_bom_text, text_le, text_le_exec,
    text_or_empty, lemma_text_le_total, lemma_text_le_trans,
};
use vstd::utf8::encode_utf8;
use crate::token::{account_of, token_account, Account};

verus! {

/// What the logic reads of an `auth` block (`setting.json` or a snapshot):
/// each field is the string (or integer) found under its key, or `None`.
#[derive(Clone, Debug)]
pub struct Auth {
    pub token: Option<String>,
    pub refresh_token: Option<String>,
    pub user_id: Option<String>,
    pub name: Option<String>,
    pub exp: Option<i64>,
}

/// A saved snapshot record (`<home>/_account_switcher/profiles/<name>.json`).
#[derive(Clone, Debug)]
pub struct Snapshot {
    /// The file the record was read from, within the profiles directory.
    pub file: String,
    /// The record's `name` (empty when absent).
    pub name: String,
    pub user_id: Option<String>,
    pub account_name: Option<String>,
    pub email: Option<String>,
    pub saved_at: Option<i64>,
    pub auth: Auth,
}

/// Whether the snapshot's `userId` is the text `uid`.
pub open spec fn owned_by(p: Snapshot, uid: Seq<char>) -> bool {
    opt_chars(p.user_id) == Some(uid)
}

/// Whether the name `n` is held by a snapshot of an account other than `uid`.
pub open spec fn taken_by_other(ps: Seq<Snapshot>, n: Seq<char>, uid: Seq<char>) -> bool {
    exists|i: int| 0 <= i < ps.len() && (#[trigger] ps[i]).name@ == n && !owned_by(ps[i], uid)
}

/// `c` followed by `k` letters 'x'.
pub open spec fn with_xs(c: Seq<char>, k: nat) -> Seq<char> {
    c + Seq::new(k, |_i: int| 'x')
}

/// Whether `k` is the least count of appended 'x' that frees `c`.
pub open spec fn least_free_xs(ps: Seq<Snapshot>, c: Seq<char>, uid: Seq<char>, k: nat) -> bool {
    &&& !taken_by_other(ps, with_xs(c, k), uid)
    &&& forall|j: nat| j < k ==> taken_by_other(ps, #[trigger] with_xs(c, j), uid)
}

/// `c` with as few 'x' appended as frees it from other accounts.
pub open spec fn first_free(ps: Seq<Snapshot>, c: Seq<char>, uid: Seq<char>) -> Seq<char> {
    with_xs(c, choose|k: nat| least_free_xs(ps, c, uid, k))
}

pub open spec fn dash() -> Seq<char> {
    seq!['-']
}

/// The automatic snapshot name for account `uid` with preferred name `base`:
/// `base` when no other account holds it; else `base-<domain head>` (the
/// first label of the e-mail's domain, cleaned) when that is free; else
/// `base-<short id>` with 'x' appended until free.
pub open spec fn auto_name(
    base: Seq<char>,
    uid: Seq<char>,
    email: Option<Seq<char>>,
    ps: Seq<Snapshot>,
) -> Seq<char> {
    if !taken_by_other(ps, base, uid) {
        base
    } else {
        let by_domain = match email {
            Some(e) => match domain_head(e) {
                Some(d) => {
                    let dom = sanitized(d);
                    if dom.len() > 0 && !taken_by_other(ps, base + dash() + dom, uid) {
                        Some(base + dash() + dom)
                    } else {
                        None
                    }
                },
                None => None,
            },
            None => None,
        };
        match by_domain {
            Some(n) => n,
            None => first_free(ps, base + dash() + short_id_spec(uid), uid),
        }
    }
}

/// Whether the name `n` is held by a snapshot of an account other than `uid`.
pub fn is_taken_by_other(ps: &[Snapshot], n: &str, uid: &str) -> (r: bool)
    ensures
        r == taken_by_other(ps@, n@, uid@),
{
    let mut i: usize = 0;
    while i < ps.len()
        invariant
            i <= ps@.len(),
            forall|j: int| 0 <= j < i ==> !((#[trigger] ps@[j]).name@ == n@ && !owned_by(ps@[j], uid@)),
        decreases ps@.len() - i,
    {
        let p = &ps[i];
        if same_text(p.name.as_str(), n) {
            let mine = match &p.user_id {
                Some(u) => same_text(u.as_str(), uid),
                None => false,
            };
            if !mine {
                return true;
            }
        }
        i = i + 1;
    }
    false
}

/// The length of the longest snapshot name.
pub open spec fn longest_name(ps: Seq<Snapshot>) -> nat
    decreases ps.len(),
{
    if ps.len() == 0 {
        0
    } else {
        let rest = longest_name(ps.drop_last());
        if ps.last().name@.len() > rest {
            ps.last().name@.len()
        } else {
            rest
        }
    }
}

proof fn lemma_longest_name(ps: Seq<Snapshot>, i: int)
    requires
        0 <= i < ps.len(),
    ensures
        ps[i].name@.len() <= longest_name(ps),
    decreases ps.len(),
{
    if i < ps.len() - 1 {
        lemma_longest_name(ps.drop_last(), i);
    }
}

/// `cand` with as few 'x' appended as frees it from other accounts.
fn pad_until_free(ps: &[Snapshot], cand: String, uid: &str) -> (r: String)
    ensures
        r@ == first_free(ps@, cand@, uid@),
        !taken_by_other(ps@, r@, uid@),
{
    let ghost c0 = cand@;
    let ghost bound = longest_name(ps@);
    let mut c = cand;
    let ghost mut k: nat = 0;
    assert(c@ == with_xs(c0, 0));
    while is_taken_by_other(ps, c.as_str(), uid)
        invariant
            c@ == with_xs(c0, k),
            bound == longest_name(ps@),
            forall|j: nat| j < k ==> taken_by_other(ps@, #[trigger] with_xs(c0, j), uid@),
        decreases (if c@.len() <= bound + 1 { bound + 1 - c@.len() } else { 0 }),
    {
        proof {
            let i = choose|i: int| 0 <= i < ps@.len() && (#[trigger] ps@[i]).name@ == c@ && !owned_by(ps@[i], uid@);
            lemma_longest_name(ps@, i);
            assert(taken_by_other(ps@, with_xs(c0, k), uid@));
        }
        push_char(&mut c, 'x');
        proof {
            assert(c@ == with_xs(c0, k + 1));
            k = k + 1;
        }
    }
    proof {
        assert(least_free_xs(ps@, c0, uid@, k));
        let k2 = choose|k2: nat| least_free_xs(ps@, c0, uid@, k2);
        if k2 < k {
            assert(taken_by_other(ps@, with_xs(c0, k2), uid@));
        } else if k2 > k {
            assert(taken_by_other(ps@, with_xs(c0, k), uid@));
        }
    }
    c
}

/// `a` followed by '-' and `b`.
fn join_dash(a: &str, b: &str) -> (r: String)
    ensures
        r@ == a@ + dash() + b@,
{
    let mut out = String::from_str(a);
    push_char(&mut out, '-');
    out.append(b);
    out
}

/// Picks an automatic snapshot name for account `uid` (see `auto_name`).
/// The name picked is never held by another account's snapshot.
pub fn unique_auto_name(base: &str, uid: &str, email: Option<&str>, profiles: &[Snapshot]) -> (r: String)
    ensures
        r@ == auto_name(base@, uid@, match email { Some(e) => Some(e@), None => None }, profiles@),
        !taken_by_other(profiles@, r@, uid@),
{
    if !is_taken_by_other(profiles, base, uid) {
        return String::from_str(base);
    }
    if let Some(e) = email {
        if let Some(d) = domain_head_of(e) {
            let dom = sanitize_name(d.as_str());
            if !dom.as_str().is_empty() {
                let cand = join_dash(base, dom.as_str());
                if !is_taken_by_other(profiles, cand.as_str(), uid) {
                    return cand;
                }
            }
        }
    }
    let sid = short_id(uid);
    let cand = join_dash(base, sid.as_str());
    pad_until_free(profiles, cand, uid)
}


impl Auth {
    /// A copy of this block.
    pub fn clone_auth(&self) -> (r: Auth)
        ensures
            r == *self,
    {
        Auth {
            token: copy_opt_exact(&self.token),
            refresh_token: copy_opt_exact(&self.refresh_token),
            user_id: copy_opt_exact(&self.user_id),
            name: copy_opt_exact(&self.name),
            exp: self.exp,
        }
    }
}

fn copy_opt_exact(o: &Option<String>) -> (r: Option<String>)
    ensures
        r == *o,
{
    match o {
        Some(s) => Some(s.clone()),
        None => None,
    }
}

/// Whether `a` holds what the JSON object `doc` has under `token`,
/// `refreshToken`, `userId`, `name` (strings) and `exp` (integer).
pub open spec fn auth_read_from(a: Auth, doc: Seq<u8>) -> bool {
    &&& opt_chars(a.token) == json_str_member(doc, "token"@)
    &&& opt_chars(a.refresh_token) == json_str_member(doc, "refreshToken"@)
    &&& opt_chars(a.user_id) == json_str_member(doc, "userId"@)
    &&& opt_chars(a.name) == json_str_member(doc, "name"@)
    &&& a.exp == json_i64_member(doc, "exp"@)
}

/// An `auth` block with nothing in it (what a missing block reads as).
pub open spec fn auth_is_empty(a: Auth) -> bool {
    a.token is None && a.refresh_token is None && a.user_id is None && a.name is None && a.exp is None
}

/// Whether `a` holds what the member `auth` of the JSON object `doc` has
/// (nothing when there is no such member).
pub open spec fn auth_block_of(a: Auth, doc: Seq<u8>) -> bool {
    match json_member(doc, "auth"@) {
        Some(m) => auth_read_from(a, m),
        None => auth_is_empty(a),
    }
}

fn str_field(doc: &[u8], key: &str) -> (r: Option<String>)
    ensures
        opt_chars(r) == json_str_member(doc@, key@),
{
    json_str_at(doc, key)
}

/// Reads an `auth` block from its JSON text (see `auth_read_from`).
pub fn auth_from_json(doc: &[u8]) -> (r: Auth)
    ensures
        auth_read_from(r, doc@),
{
    Auth {
        token: str_field(doc, "token"),
        refresh_token: str_field(doc, "refreshToken"),
        user_id: str_field(doc, "userId"),
        name: str_field(doc, "name"),
        exp: json_i64_at(doc, "exp"),
    }
}

/// Where the mirasim data directory is: `MIRASIM_HOME` (trimmed) when set
/// and not blank, used as it is; otherwise `.mirasim` under `USERPROFILE`,
/// else under `HOME`, else under the working directory `.`.
pub open spec fn home_choice(mirasim_home: Option<Seq<char>>, userprofile: Option<Seq<char>>, home: Option<Seq<char>>) -> (Seq<char>, bool) {
    if mirasim_home matches Some(h) && crate::text::trimmed(h).len() > 0 {
        (crate::text::trimmed(mirasim_home->0), true)
    } else {
        (match (userprofile, home) {
            (Some(u), _) => u,
            (None, Some(h)) => h,
            (None, None) => seq!['.'],
        }, false)
    }
}

/// Picks the mirasim data directory (see `home_choice`): the directory
/// itself when the flag is set, else the base under which `.mirasim` lies.
pub fn home_dir(mirasim_home: Option<&str>, userprofile: Option<&str>, home: Option<&str>) -> (r: (String, bool))
    ensures
        (r.0@, r.1) == home_choice(
            match mirasim_home {
                Some(h) => Some(h@),
                None => None,
            },
            match userprofile {
                Some(h) => Some(h@),
                None => None,
            },
            match home {
                Some(h) => Some(h@),
                None => None,
            },
        ),
{
    if let Some(h) = mirasim_home {
        let v = chars_of(h);
        let t = crate::text::trim_chars(&v);
        if t.len() > 0 {
            return (crate::text::string_of(&t), true);
        }
    }
    match (userprofile, home) {
        (Some(u), _) => (String::from_str(u), false),
        (None, Some(h)) => (String::from_str(h), false),
        (None, None) => {
            let mut d = String::new();
            push_char(&mut d, '.');
            (d, false)
        },
    }
}

/// The `token` string of the `auth` block of the JSON document `doc`.
pub open spec fn setting_token(doc: Seq<u8>) -> Option<Seq<char>> {
    match json_member(doc, "auth"@) {
        Some(m) => json_str_member(m, "token"@),
        None => None,
    }
}

/// Reads the member `auth` of a JSON document (see `auth_block_of`).
pub fn auth_block(doc: &[u8]) -> (r: Auth)
    ensures
        auth_block_of(r, doc@),
{
    match json_member_at(doc, "auth") {
        Some(m) => auth_from_json(&m),
        None => Auth { token: None, refresh_token: None, user_id: None, name: None, exp: None },
    }
}

/// The `auth` block of the text of `setting.json` (byte-order marks at the
/// front are skipped).
pub fn setting_auth(text: &str) -> (r: Auth)
    ensures
        auth_block_of(r, encode_utf8(strip_bom(text@))),
{
    let t = strip_bom_text(text);
    auth_block(t.as_str().as_bytes())
}

/// Logged in: both the token and the user id are non-empty strings.
pub open spec fn logged_in(a: Auth) -> bool {
    is_nonempty(a.token) && is_nonempty(a.user_id)
}

fn nonempty(o: &Option<String>) -> (r: bool)
    ensures
        r == is_nonempty(*o),
{
    match o {
        Some(s) => !s.as_str().is_empty(),
        None => false,
    }
}

/// Whether `auth` is a login (see `logged_in`).
pub fn has_login(auth: &Auth) -> (r: bool)
    ensures
        r == logged_in(*auth),
{
    nonempty(&auth.token) && nonempty(&auth.user_id)
}


/// Whether `p` holds what the snapshot record `doc` has: `name`, `userId`,
/// `accountName`, `email` (strings; a missing name reads as empty),
/// `savedAt` (integer) and the `auth` block.
pub open spec fn snapshot_read_from(p: Snapshot, doc: Seq<u8>) -> bool {
    &&& p.name@ == match json_str_member(doc, "name"@) {
        Some(n) => n,
        None => Seq::empty(),
    }
    &&& opt_chars(p.user_id) == json_str_member(doc, "userId"@)
    &&& opt_chars(p.account_name) == json_str_member(doc, "accountName"@)
    &&& opt_chars(p.email) == json_str_member(doc, "email"@)
    &&& p.saved_at == json_i64_member(doc, "savedAt"@)
    &&& auth_block_of(p.auth, doc)
}

/// Reads a snapshot record saved in the file `file` (see `snapshot_read_from`).
pub fn snapshot_from_json(file: String, doc: &[u8]) -> (r: Snapshot)
    ensures
        snapshot_read_from(r, doc@),
        r.file@ == file@,
{
    let name = match json_str_at(doc, "name") {
        Some(n) => n,
        None => String::new(),
    };
    Snapshot {
        file,
        name,
        user_id: str_field(doc, "userId"),
        account_name: str_field(doc, "accountName"),
        email: str_field(doc, "email"),
        saved_at: json_i64_at(doc, "savedAt"),
        auth: auth_block(doc),
    }
}

/// The extension of a file name, as `Path::extension` gives it: what follows
/// the last '.', unless there is no '.' or the only one starts the name.
pub open spec fn file_extension(name: Seq<char>) -> Option<Seq<char>>
    decreases name.len(),
{
    if name.len() == 0 {
        None
    } else if name.last() == '.' {
        if name.len() == 1 {
            None
        } else {
            Some(Seq::empty())
        }
    } else {
        match file_extension(name.drop_last()) {
            Some(e) => Some(e.push(name.last())),
            None => None,
        }
    }
}

/// Whether the file name `name` has the extension `json`.
pub open spec fn is_json_file(name: Seq<char>) -> bool {
    file_extension(name) == Some(seq!['j', 's', 'o', 'n'])
}

/// Whether the file name `name` has the extension `json`.
pub fn has_json_extension(name: &str) -> (r: bool)
    ensures
        r == is_json_file(name@),
{
    let v = chars_of(name);
    let n = v.len();
    // the last '.' must sit exactly five characters from the end, not first
    let ok = n >= 6 && v[n - 5] == '.' && v[n - 4] == 'j' && v[n - 3] == 's' && v[n - 2] == 'o' && v[n - 1] == 'n';
    proof {
        let s = v@;
        let j = seq!['j', 's', 'o', 'n'];
        if n >= 5 && s[n - 5] == '.' && s[n - 4] == 'j' && s[n - 3] == 's' && s[n - 2] == 'o' && s[n - 1] == 'n' {
            let t = s.take(n - 4);
            let t1 = s.take(n - 3);
            let t2 = s.take(n - 2);
            let t3 = s.take(n - 1);
            assert(t.last() == '.');
            assert(t1.drop_last() == t && t1.last() == 'j');
            assert(t2.drop_last() == t1 && t2.last() == 's');
            assert(t3.drop_last() == t2 && t3.last() == 'o');
            assert(s.drop_last() == t3 && s.last() == 'n');
            if n >= 6 {
                assert(file_extension(t) == Some(Seq::<char>::empty()));
                assert(file_extension(t1) == Some(seq!['j']));
                assert(file_extension(t2) == Some(seq!['j', 's']));
                assert(file_extension(t3) == Some(seq!['j', 's', 'o']));
                assert(file_extension(s) == Some(seq!['j', 's', 'o', 'n']));
            } else {
                assert(file_extension(t) is None);
                assert(file_extension(t1) is None);
                assert(file_extension(t2) is None);
                assert(file_extension(t3) is None);
                assert(file_extension(s) is None);
            }
        } else if is_json_file(s) {
            lemma_json_ext_shape(s);
        }
    }
    ok
}

proof fn lemma_ext_suffix(s: Seq<char>)
    ensures
        file_extension(s) matches Some(e) ==> {
            &&& e.len() + 2 <= s.len()
            &&& s[s.len() - e.len() - 1] == '.'
            &&& s.skip(s.len() - e.len()) == e
        },
    decreases s.len(),
{
    if s.len() > 0 && s.last() != '.' {
        lemma_ext_suffix(s.drop_last());
        if let Some(e) = file_extension(s.drop_last()) {
            assert(s.skip(s.len() - e.len() - 1) == s.drop_last().skip(s.len() - 1 - e.len()).push(s.last()));
        }
    } else if s.len() > 1 {
        assert(s.skip(s.len() as int) == Seq::<char>::empty());
    }
}

proof fn lemma_json_ext_shape(s: Seq<char>)
    requires
        is_json_file(s),
    ensures
        s.len() >= 6,
        s[s.len() - 5] == '.' && s[s.len() - 4] == 'j' && s[s.len() - 3] == 's' && s[s.len() - 2] == 'o'
            && s[s.len() - 1] == 'n',
{
    lemma_ext_suffix(s);
    let e = seq!['j', 's', 'o', 'n'];
    assert(s.skip(s.len() - 4)[0] == s[s.len() - 4]);
    assert(s.skip(s.len() - 4)[1] == s[s.len() - 3]);
    assert(s.skip(s.len() - 4)[2] == s[s.len() - 2]);
    assert(s.skip(s.len() - 4)[3] == s[s.len() - 1]);
}


/// Where `x` goes in `s` to keep names in order, after every snapshot whose
/// name is not greater than its own.
pub open spec fn insert_pos(s: Seq<Snapshot>, x: Snapshot) -> int
    decreases s.len(),
{
    if s.len() == 0 {
        0
    } else if !text_le(s[0].name@, x.name@) {
        0
    } else {
        1 + insert_pos(s.drop_first(), x)
    }
}

/// `s` stably sorted by name.
pub open spec fn sort_by_name(s: Seq<Snapshot>) -> Seq<Snapshot>
    decreases s.len(),
{
    if s.len() == 0 {
        s
    } else {
        let t = sort_by_name(s.drop_last());
        t.insert(insert_pos(t, s.last()), s.last())
    }
}

/// A snapshot that is listed: read from a `.json` file and holding a login.
pub open spec fn is_listed(p: Snapshot) -> bool {
    is_json_file(p.file@) && logged_in(p.auth)
}

/// The snapshots listed: those read from `.json` files that hold a login,
/// stably sorted by name.
pub open spec fn listed(s: Seq<Snapshot>) -> Seq<Snapshot> {
    sort_by_name(s.filter(|p: Snapshot| is_listed(p)))
}

proof fn lemma_insert_pos_bounds(s: Seq<Snapshot>, x: Snapshot)
    ensures
        0 <= insert_pos(s, x) <= s.len(),
    decreases s.len(),
{
    if s.len() > 0 {
        lemma_insert_pos_bounds(s.drop_first(), x);
    }
}

fn find_insert_pos(s: &Vec<Snapshot>, x: &Snapshot) -> (r: usize)
    ensures
        r == insert_pos(s@, *x),
{
    let mut i: usize = 0;
    proof {
        assert(s@.skip(0) == s@);
        lemma_insert_pos_bounds(s@, *x);
    }
    while i < s.len() && text_le_exec(s[i].name.as_str(), x.name.as_str())
        invariant
            i <= s@.len(),
            insert_pos(s@, *x) == i + insert_pos(s@.skip(i as int), *x),
        decreases s@.len() - i,
    {
        assert(s@.skip(i as int).drop_first() == s@.skip(i + 1));
        i = i + 1;
    }
    i
}

/// Whether the snapshots are in name order.
pub open spec fn names_sorted(s: Seq<Snapshot>) -> bool {
    forall|i: int, j: int| 0 <= i < j < s.len() ==> text_le(#[trigger] s[i].name@, #[trigger] s[j].name@)
}

proof fn lemma_insert_keeps_sorted(s: Seq<Snapshot>, x: Snapshot)
    requires
        names_sorted(s),
    ensures
        names_sorted(s.insert(insert_pos(s, x), x)),
        0 <= insert_pos(s, x) <= s.len(),
    decreases s.len(),
{
    lemma_insert_pos_bounds(s, x);
    let p = insert_pos(s, x);
    let t = s.insert(p, x);
    if s.len() > 0 && text_le(s[0].name@, x.name@) {
        let r = s.drop_first();
        assert(names_sorted(r));
        lemma_insert_keeps_sorted(r, x);
        let tr = r.insert(insert_pos(r, x), x);
        assert(t == seq![s[0]] + tr);
        assert forall|i: int, j: int| 0 <= i < j < t.len() implies text_le(#[trigger] t[i].name@, #[trigger] t[j].name@) by {
            if i == 0 {
                if j - 1 == insert_pos(r, x) {
                    assert(t[j] == x);
                } else {
                    let k = if j - 1 < insert_pos(r, x) { j - 1 } else { j - 2 };
                    assert(t[j] == r[k]);
                    assert(r[k] == s[k + 1]);
                }
            } else {
                assert(t[i] == tr[i - 1]);
                assert(t[j] == tr[j - 1]);
            }
        }
    } else {
        assert(t == seq![x] + s);
        assert forall|i: int, j: int| 0 <= i < j < t.len() implies text_le(#[trigger] t[i].name@, #[trigger] t[j].name@) by {
            if i == 0 {
                assert(t[j] == s[j - 1]);
                if s.len() > 0 {
                    lemma_text_le_total(s[0].name@, x.name@);
                    if j - 1 > 0 {
                        lemma_text_le_trans(x.name@, s[0].name@, s[j - 1].name@);
                    }
                }
            } else {
                assert(t[i] == s[i - 1]);
                assert(t[j] == s[j - 1]);
            }
        }
    }
}

/// Sorting by name gives snapshots in name order.
pub proof fn lemma_sort_by_name_sorted(s: Seq<Snapshot>)
    ensures
        names_sorted(sort_by_name(s)),
        sort_by_name(s).len() == s.len(),
    decreases s.len(),
{
    if s.len() > 0 {
        lemma_sort_by_name_sorted(s.drop_last());
        lemma_insert_keeps_sorted(sort_by_name(s.drop_last()), s.last());
    }
}

/// The snapshots to list (see `listed`).
pub fn collect_profiles(found: Vec<Snapshot>) -> (r: Vec<Snapshot>)
    ensures
        r@ == listed(found@),
        names_sorted(r@),
{
    proof {
        lemma_sort_by_name_sorted(found@.filter(|p: Snapshot| is_listed(p)));
    }
    let ghost orig = found@;
    let mut rest = found;
    let mut out: Vec<Snapshot> = Vec::new();
    let ghost mut i: int = 0;
    proof {
        assert(orig.take(0).filter(|p: Snapshot| is_listed(p)) == Seq::<Snapshot>::empty()) by {
            reveal_with_fuel(Seq::filter, 1);
        }
        assert(orig.skip(0) == orig);
    }
    while rest.len() > 0
        invariant
            0 <= i <= orig.len(),
            rest@ == orig.skip(i),
            out@ == sort_by_name(orig.take(i).filter(|p: Snapshot| is_listed(p))),
        decreases rest@.len(),
    {
        let x = rest.remove(0);
        proof {
            assert(x == orig[i]);
            assert(orig.skip(i).remove(0) == orig.skip(i + 1));
            assert(orig.take(i + 1).drop_last() == orig.take(i));
            assert(orig.take(i + 1).last() == x);
            reveal_with_fuel(Seq::filter, 1);
        }
        if has_json_extension(x.file.as_str()) && has_login(&x.auth) {
            let p = find_insert_pos(&out, &x);
            proof {
                lemma_insert_pos_bounds(out@, x);
                let f = orig.take(i + 1).filter(|p: Snapshot| is_listed(p));
                assert(f.drop_last() == orig.take(i).filter(|p: Snapshot| is_listed(p)));
                assert(f.last() == x);
            }
            out.insert(p, x);
        } else {
            proof {
                assert(orig.take(i + 1).filter(|p: Snapshot| is_listed(p))
                    == orig.take(i).filter(|p: Snapshot| is_listed(p)));
            }
        }
        proof {
            i = i + 1;
        }
    }
    assert(orig.take(orig.len() as int) == orig);
    out
}


/// The master key, when there is one, as bytes.
pub open spec fn key_bytes(key: Option<&[u8; 32]>) -> Option<Seq<u8>> {
    match key {
        Some(k) => Some(k@),
        None => None,
    }
}

/// The account fields named by the token of `a`, when there is a master key
/// and the token opens with it.
pub open spec fn auth_account(key: Option<Seq<u8>>, a: Auth) -> Option<(Option<Seq<char>>, Option<Seq<char>>, Option<i64>)> {
    match (key, a.token) {
        (Some(k), Some(t)) => token_account(t@, k),
        _ => None,
    }
}

/// The e-mail named by the token of `a` (see `auth_account`).
pub open spec fn auth_email(key: Option<Seq<u8>>, a: Auth) -> Option<Seq<char>> {
    match auth_account(key, a) {
        Some(acc) => acc.0,
        None => None,
    }
}

/// Reads the account fields of the token of `auth` (see `auth_account`).
pub fn account_of_auth(key: Option<&[u8; 32]>, auth: &Auth) -> (r: Option<Account>)
    ensures
        r matches Some(a) ==> auth_account(key_bytes(key), *auth) == Some(a@),
        r is None ==> auth_account(key_bytes(key), *auth) is None,
{
    match (key, &auth.token) {
        (Some(k), Some(t)) => account_of(k, t.as_str()),
        _ => None,
    }
}

/// Reads the e-mail of the token of `auth` (see `auth_email`).
pub fn email_of_auth(key: Option<&[u8; 32]>, auth: &Auth) -> (r: Option<String>)
    ensures
        opt_chars(r) == auth_email(key_bytes(key), *auth),
{
    match account_of_auth(key, auth) {
        Some(a) => a.email,
        None => None,
    }
}

/// The index of the first snapshot of account `uid`.
pub open spec fn first_owned(ps: Seq<Snapshot>, uid: Seq<char>) -> Option<int>
    decreases ps.len(),
{
    if ps.len() == 0 {
        None
    } else if owned_by(ps[0], uid) {
        Some(0)
    } else {
        match first_owned(ps.drop_first(), uid) {
            Some(i) => Some(i + 1),
            None => None,
        }
    }
}

pub(crate) proof fn lemma_first_owned(ps: Seq<Snapshot>, uid: Seq<char>, i: int)
    requires
        0 <= i <= ps.len(),
        forall|j: int| 0 <= j < i ==> !owned_by(#[trigger] ps[j], uid),
    ensures
        first_owned(ps, uid) == match first_owned(ps.skip(i), uid) {
            Some(k) => Some(k + i),
            None => None,
        },
    decreases i,
{
    if i > 0 {
        lemma_first_owned(ps.drop_first(), uid, i - 1);
        assert(ps.drop_first().skip(i - 1) == ps.skip(i));
    } else {
        assert(ps.skip(0) == ps);
    }
}

fn owns(p: &Snapshot, uid: &str) -> (r: bool)
    ensures
        r == owned_by(*p, uid@),
{
    match &p.user_id {
        Some(u) => same_text(u.as_str(), uid),
        None => false,
    }
}

/// Finds the first snapshot of account `uid` (see `first_owned`).
pub fn find_owned(ps: &[Snapshot], uid: &str) -> (r: Option<usize>)
    ensures
        match r {
            Some(i) => first_owned(ps@, uid@) == Some(i as int),
            None => first_owned(ps@, uid@) is None,
        },
        r matches Some(i) ==> i < ps@.len() && owned_by(ps@[i as int], uid@),
{
    let mut i: usize = 0;
    while i < ps.len()
        invariant
            i <= ps@.len(),
            forall|j: int| 0 <= j < i ==> !owned_by(#[trigger] ps@[j], uid@),
        decreases ps@.len() - i,
    {
        if owns(&ps[i], uid) {
            proof {
                lemma_first_owned(ps@, uid@, i as int);
            }
            return Some(i);
        }
        i = i + 1;
    }
    proof {
        lemma_first_owned(ps@, uid@, i as int);
    }
    None
}

pub open spec fn usr_dash() -> Seq<char> {
    seq!['u', 's', 'r', '-']
}

/// The preferred automatic name of an account: the cleaned local part of its
/// e-mail, else its cleaned display name, else `usr-<short id>`.
pub open spec fn auto_base(email: Option<Seq<char>>, name: Option<String>, uid: Seq<char>) -> Seq<char> {
    let from_email = match email {
        Some(e) => sanitized(before_first(e, '@')),
        None => Seq::empty(),
    };
    if from_email.len() > 0 {
        from_email
    } else {
        let n = sanitized(text_or_empty(name));
        if n.len() > 0 {
            n
        } else {
            usr_dash() + short_id_spec(uid)
        }
    }
}

fn auto_base_of(email: &Option<String>, name: &Option<String>, uid: &str) -> (r: String)
    ensures
        r@ == auto_base(opt_chars(*email), *name, uid@),
{
    if let Some(e) = email {
        let lp = crate::text::local_part(e.as_str());
        let b = sanitize_name(lp.as_str());
        if !b.as_str().is_empty() {
            return b;
        }
    }
    let n = match name {
        Some(n) => sanitize_name(n.as_str()),
        None => {
            let empty = String::new();
            sanitize_name(empty.as_str())
        },
    };
    if !n.as_str().is_empty() {
        return n;
    }
    let mut out = String::new();
    push_char(&mut out, 'u');
    push_char(&mut out, 's');
    push_char(&mut out, 'r');
    push_char(&mut out, '-');
    let sid = short_id(uid);
    out.append(sid.as_str());
    out
}

/// The name under which the current login is saved before a switch: the
/// name of the account's existing snapshot, else an automatic name; nothing
/// when not logged in.
pub open spec fn snapshot_name(a: Auth, email: Option<Seq<char>>, ps: Seq<Snapshot>) -> Option<Seq<char>> {
    if !logged_in(a) {
        None
    } else {
        let uid = text_or_empty(a.user_id);
        match first_owned(ps, uid) {
            Some(i) => Some(ps[i].name@),
            None => Some(auto_name(auto_base(email, a.name, uid), uid, email, ps)),
        }
    }
}

/// Picks the name for saving the current login before a switch (see
/// `snapshot_name`).
pub fn plan_snapshot(auth: &Auth, email: &Option<String>, profiles: &[Snapshot]) -> (r: Option<String>)
    ensures
        opt_chars(r) == snapshot_name(*auth, opt_chars(*email), profiles@),
        one_per_account(profiles@) ==> (r matches Some(n) ==> forall|k: int|
            0 <= k < profiles@.len() && profiles@[k].name@ != n@ ==> !owned_by(
                #[trigger] profiles@[k],
                text_or_empty(auth.user_id),
            )),
        names_distinct(profiles@) ==> (r matches Some(n) ==> forall|k: int|
            0 <= k < profiles@.len() && profiles@[k].name@ == n@ ==> owned_by(
                #[trigger] profiles@[k],
                text_or_empty(auth.user_id),
            )),
{
    if !has_login(auth) {
        return None;
    }
    let uid = crate::text::string_or_empty(&auth.user_id);
    let found = find_owned(profiles, uid.as_str());
    let name = match found {
        Some(i) => profiles[i].name.clone(),
        None => {
            let base = auto_base_of(email, &auth.name, uid.as_str());
            let e: Option<&str> = match email {
                Some(e) => Some(e.as_str()),
                None => None,
            };
            unique_auto_name(base.as_str(), uid.as_str(), e, profiles)
        },
    };
    proof {
        lemma_name_keeps_one(profiles@, uid@, name@, match found { Some(i) => Some(i as int), None => None });
    }
    Some(name)
}

/// Writing account `uid`'s snapshot under `name`, which is the name of its
/// first snapshot `found` or, when it has none, a name no other account
/// holds, leaves it one snapshot and touches no other account's.
pub proof fn lemma_name_keeps_one(ps: Seq<Snapshot>, uid: Seq<char>, name: Seq<char>, found: Option<int>)
    requires
        found == first_owned(ps, uid),
        match found {
            Some(i) => name == ps[i].name@,
            None => !taken_by_other(ps, name, uid),
        },
    ensures
        one_per_account(ps) ==> forall|k: int|
            0 <= k < ps.len() && ps[k].name@ != name ==> !owned_by(#[trigger] ps[k], uid),
        names_distinct(ps) ==> forall|k: int| 0 <= k < ps.len() && ps[k].name@ == name ==> owned_by(#[trigger] ps[k], uid),
{
    lemma_first_owned_facts(ps, uid);
    if one_per_account(ps) {
        assert forall|k: int| 0 <= k < ps.len() && ps[k].name@ != name implies !owned_by(#[trigger] ps[k], uid) by {
            if owned_by(ps[k], uid) {
                let i = found->0;
                if k < i {
                    assert(opt_chars(ps[k].user_id) != opt_chars(ps[i].user_id));
                } else if k > i {
                    assert(opt_chars(ps[i].user_id) != opt_chars(ps[k].user_id));
                }
            }
        }
    }
    if names_distinct(ps) {
        assert forall|k: int| 0 <= k < ps.len() && ps[k].name@ == name implies owned_by(#[trigger] ps[k], uid) by {
            match found {
                Some(i) => {
                    if k < i {
                        assert(ps[k].name@ != ps[i].name@);
                    } else if k > i {
                        assert(ps[i].name@ != ps[k].name@);
                    }
                },
                None => {
                    assert(!(ps[k].name@ == name && !owned_by(ps[k], uid)));
                },
            }
        }
    }
}


/// Why a save is refused.
#[derive(Debug)]
pub enum SaveError {
    /// Nobody is logged in, so there is nothing to save.
    NotLoggedIn,
    /// The name asked for (cleaned) belongs to another account's snapshot.
    NameTaken(String),
}

impl SaveError {
    /// The message shown for this refusal.
    pub fn message(&self) -> (r: String)
        ensures
            r@ == match self {
                SaveError::NotLoggedIn => "当前没有登录，没什么可保存的"@,
                SaveError::NameTaken(n) => "名字「"@ + n@ + "」已被另一个账号占用，换个名字"@,
            },
    {
        match self {
            SaveError::NotLoggedIn => String::from_str("当前没有登录，没什么可保存的"),
            SaveError::NameTaken(n) => {
                let mut m = String::from_str("名字「");
                m.append(n.as_str());
                m.append("」已被另一个账号占用，换个名字");
                m
            },
        }
    }
}

/// How to save the current login.
#[derive(Clone, Debug)]
pub struct SavePlan {
    /// The snapshot name to write.
    pub name: String,
    /// The account's existing snapshot (an index into the listed snapshots)
    /// to delete because the account is saved under a new name.
    pub replaces: Option<usize>,
}

/// No two snapshots belong to the same account.
pub open spec fn one_per_account(ps: Seq<Snapshot>) -> bool {
    forall|i: int, j: int|
        0 <= i < j < ps.len() && (#[trigger] ps[i]).user_id is Some ==> opt_chars(ps[i].user_id) != opt_chars(
            (#[trigger] ps[j]).user_id,
        )
}

/// No two snapshots have the same name (they are files of one directory).
pub open spec fn names_distinct(ps: Seq<Snapshot>) -> bool {
    forall|i: int, j: int| 0 <= i < j < ps.len() ==> (#[trigger] ps[i]).name@ != (#[trigger] ps[j]).name@
}

/// What `first_owned` finds: the first snapshot of the account, or none.
pub proof fn lemma_first_owned_facts(ps: Seq<Snapshot>, uid: Seq<char>)
    ensures
        first_owned(ps, uid) matches Some(i) ==> 0 <= i < ps.len() && owned_by(ps[i], uid),
        first_owned(ps, uid) matches Some(i) ==> forall|k: int| 0 <= k < i ==> !owned_by(#[trigger] ps[k], uid),
        first_owned(ps, uid) is None ==> forall|k: int| 0 <= k < ps.len() ==> !owned_by(#[trigger] ps[k], uid),
    decreases ps.len(),
{
    if ps.len() > 0 {
        lemma_first_owned_facts(ps.drop_first(), uid);
        if first_owned(ps, uid) is Some {
            let i = first_owned(ps, uid)->0;
            assert forall|k: int| 0 <= k < i implies !owned_by(#[trigger] ps[k], uid) by {
                if k > 0 {
                    assert(ps[k] == ps.drop_first()[k - 1]);
                }
            }
        }
        if first_owned(ps, uid) is None {
            assert forall|k: int| 0 <= k < ps.len() implies !owned_by(#[trigger] ps[k], uid) by {
                if k > 0 {
                    assert(ps[k] == ps.drop_first()[k - 1]);
                }
            }
        }
    }
}

/// The name asked for, cleaned (an absent name cleans to empty).
pub open spec fn explicit_name(want: Option<Seq<char>>) -> Seq<char> {
    match want {
        Some(w) => sanitized(w),
        None => sanitized(Seq::empty()),
    }
}

/// The name the current login is saved under: the name asked for when it
/// cleans to something; else the account's existing snapshot name; else an
/// automatic name.
pub open spec fn save_name(a: Auth, email: Option<Seq<char>>, want: Option<Seq<char>>, ps: Seq<Snapshot>) -> Seq<char> {
    let uid = text_or_empty(a.user_id);
    if explicit_name(want).len() > 0 {
        explicit_name(want)
    } else {
        match first_owned(ps, uid) {
            Some(i) => ps[i].name@,
            None => auto_name(auto_base(email, a.name, uid), uid, email, ps),
        }
    }
}

/// Plans saving the current login `auth` (whose token names `email`) as a
/// snapshot, optionally under the name `want`. Refused when not logged in,
/// or when the cleaned `want` is another account's snapshot name; an
/// automatic name never collides. The account keeps a single snapshot: its
/// old one is marked for deletion when the name changes.
pub fn plan_save(auth: &Auth, email: &Option<String>, want: Option<&str>, profiles: &[Snapshot]) -> (r: Result<
    SavePlan,
    SaveError,
>)
    ensures
        r matches Err(SaveError::NotLoggedIn) <==> !logged_in(*auth),
        r matches Err(SaveError::NameTaken(n)) ==> n@ == explicit_name(
            match want {
                Some(w) => Some(w@),
                None => None,
            },
        ),
        r is Err && logged_in(*auth) <==> logged_in(*auth) && explicit_name(
            match want {
                Some(w) => Some(w@),
                None => None,
            },
        ).len() > 0 && taken_by_other(
            profiles@,
            explicit_name(
                match want {
                    Some(w) => Some(w@),
                    None => None,
                },
            ),
            text_or_empty(auth.user_id),
        ),
        r matches Ok(plan) ==> {
            let w = match want {
                Some(w) => Some(w@),
                None => None,
            };
            let uid = text_or_empty(auth.user_id);
            &&& plan.name@ == save_name(*auth, opt_chars(*email), w, profiles@)
            &&& plan.replaces == match first_owned(profiles@, uid) {
                Some(i) => if profiles@[i].name@ != plan.name@ {
                    Some(i as usize)
                } else {
                    None
                },
                None => None,
            }
        },
        // one snapshot per account: once the snapshot is written under its
        // name and the replaced one deleted, no other snapshot of the account
        // is left, and no other account's snapshot is touched
        one_per_account(profiles@) ==> (r matches Ok(plan) ==> forall|k: int|
            0 <= k < profiles@.len() && plan.replaces != Some(k as usize) && profiles@[k].name@ != plan.name@
                ==> !owned_by(#[trigger] profiles@[k], text_or_empty(auth.user_id))),
        names_distinct(profiles@) ==> (r matches Ok(plan) ==> forall|k: int|
            0 <= k < profiles@.len() && (plan.replaces == Some(k as usize) || profiles@[k].name@ == plan.name@)
                ==> owned_by(#[trigger] profiles@[k], text_or_empty(auth.user_id))),
{
    if !has_login(auth) {
        return Err(SaveError::NotLoggedIn);
    }
    let uid = crate::text::string_or_empty(&auth.user_id);
    let same_user = find_owned(profiles, uid.as_str());
    let explicit = match want {
        Some(w) => sanitize_name(w),
        None => {
            let empty = String::new();
            sanitize_name(empty.as_str())
        },
    };
    let name = if !explicit.as_str().is_empty() {
        if is_taken_by_other(profiles, explicit.as_str(), uid.as_str()) {
            return Err(SaveError::NameTaken(explicit));
        }
        explicit
    } else if let Some(i) = same_user {
        profiles[i].name.clone()
    } else {
        let base = auto_base_of(email, &auth.name, uid.as_str());
        let e: Option<&str> = match email {
            Some(e) => Some(e.as_str()),
            None => None,
        };
        unique_auto_name(base.as_str(), uid.as_str(), e, profiles)
    };
    let replaces = match same_user {
        Some(i) => if !same_text(profiles[i].name.as_str(), name.as_str()) {
            Some(i)
        } else {
            None
        },
        None => None,
    };
    proof {
        lemma_first_owned_facts(profiles@, uid@);
        let ps = profiles@;
        assert(!taken_by_other(ps, name@, uid@) || (same_user matches Some(i) && name@ == ps[i as int].name@));
        if names_distinct(ps) {
            assert forall|k: int|
                0 <= k < ps.len() && (replaces == Some(k as usize) || ps[k].name@ == name@) implies owned_by(
                #[trigger] ps[k],
                uid@,
            ) by {
                if replaces != Some(k as usize) && taken_by_other(ps, name@, uid@) {
                    let i = same_user->0 as int;
                    if k != i {
                        if k < i {
                            assert(ps[k].name@ != ps[i].name@);
                        } else {
                            assert(ps[i].name@ != ps[k].name@);
                        }
                    }
                } else if replaces != Some(k as usize) {
                    assert(!(ps[k].name@ == name@ && !owned_by(ps[k], uid@)));
                }
            }
        }
        if one_per_account(ps) {
            assert forall|k: int|
                0 <= k < ps.len() && replaces != Some(k as usize) && ps[k].name@ != name@ implies !owned_by(
                #[trigger] ps[k],
                uid@,
            ) by {
                if owned_by(ps[k], uid@) {
                    let i = same_user->0 as int;
                    if k != i {
                        if k < i {
                            assert(opt_chars(ps[k].user_id) != opt_chars(ps[i].user_id));
                        } else {
                            assert(opt_chars(ps[i].user_id) != opt_chars(ps[k].user_id));
                        }
                    }
                }
            }
        }
    }
    Ok(SavePlan { name, replaces })
}


/// The index of the first snapshot named `n`.
pub open spec fn first_named(ps: Seq<Snapshot>, n: Seq<char>) -> Option<int>
    decreases ps.len(),
{
    if ps.len() == 0 {
        None
    } else if ps[0].name@ == n {
        Some(0)
    } else {
        match first_named(ps.drop_first(), n) {
            Some(i) => Some(i + 1),
            None => None,
        }
    }
}

proof fn lemma_first_named(ps: Seq<Snapshot>, n: Seq<char>, i: int)
    requires
        0 <= i <= ps.len(),
        forall|j: int| 0 <= j < i ==> (#[trigger] ps[j]).name@ != n,
    ensures
        first_named(ps, n) == match first_named(ps.skip(i), n) {
            Some(k) => Some(k + i),
            None => None,
        },
    decreases i,
{
    if i > 0 {
        lemma_first_named(ps.drop_first(), n, i - 1);
        assert(ps.drop_first().skip(i - 1) == ps.skip(i));
    } else {
        assert(ps.skip(0) == ps);
    }
}

/// Finds the first snapshot named `name` (see `first_named`).
pub fn find_named(ps: &[Snapshot], name: &str) -> (r: Option<usize>)
    ensures
        match r {
            Some(i) => first_named(ps@, name@) == Some(i as int),
            None => first_named(ps@, name@) is None,
        },
        r matches Some(i) ==> i < ps@.len() && ps@[i as int].name@ == name@,
{
    let mut i: usize = 0;
    while i < ps.len()
        invariant
            i <= ps@.len(),
            forall|j: int| 0 <= j < i ==> (#[trigger] ps@[j]).name@ != name@,
        decreases ps@.len() - i,
    {
        if same_text(ps[i].name.as_str(), name) {
            proof {
                lemma_first_named(ps@, name@, i as int);
            }
            return Some(i);
        }
        i = i + 1;
    }
    proof {
        lemma_first_named(ps@, name@, i as int);
    }
    None
}

/// Why a switch is refused.
#[derive(Debug)]
pub enum SwitchError {
    /// No snapshot has the name asked for.
    NotFound(String),
}

impl SwitchError {
    /// The message shown for this refusal.
    pub fn message(&self) -> (r: String)
        ensures
            r@ == match self {
                SwitchError::NotFound(n) => "找不到快照「"@ + n@ + "」"@,
            },
    {
        match self {
            SwitchError::NotFound(n) => {
                let mut m = String::from_str("找不到快照「");
                m.append(n.as_str());
                m.append("」");
                m
            },
        }
    }
}

/// How to switch the login to a snapshot.
#[derive(Debug)]
pub enum SwitchPlan {
    /// The snapshot's account is already logged in: only rewrite that
    /// snapshot (at this index) from the current login.
    RefreshOnly { target: usize },
    /// Save the current login (under `save_as`, when logged in), back up
    /// `setting.json`, then write the `auth` block of the snapshot at
    /// `target` into it.
    Replace { target: usize, save_as: Option<String> },
}

/// Plans switching the login `cur` (whose token names `email`) to the
/// snapshot named `name`: refused when there is none; when that snapshot's
/// account is the one logged in, only the snapshot is refreshed; otherwise
/// the current login is saved first (see `snapshot_name`) and replaced.
pub fn plan_switch(name: &str, profiles: &[Snapshot], cur: &Auth, email: &Option<String>) -> (r: Result<
    SwitchPlan,
    SwitchError,
>)
    ensures
        r matches Err(SwitchError::NotFound(n)) ==> n@ == name@,
        r is Err <==> first_named(profiles@, name@) is None,
        r matches Ok(plan) ==> {
            let t = first_named(profiles@, name@)->0;
            let target_uid = text_or_empty(profiles@[t].auth.user_id);
            if logged_in(*cur) && opt_chars(cur.user_id) == Some(target_uid) {
                plan matches SwitchPlan::RefreshOnly { target } && target == t
            } else {
                plan matches SwitchPlan::Replace { target, save_as } && target == t && opt_chars(save_as)
                    == snapshot_name(*cur, opt_chars(*email), profiles@)
            }
        },
        // saving the current login first leaves its account one snapshot and
        // touches no other account's
        one_per_account(profiles@) ==> (r matches Ok(SwitchPlan::Replace { save_as: Some(n), .. }) ==> forall|k: int|
            0 <= k < profiles@.len() && profiles@[k].name@ != n@ ==> !owned_by(
                #[trigger] profiles@[k],
                text_or_empty(cur.user_id),
            )),
        names_distinct(profiles@) ==> (r matches Ok(SwitchPlan::Replace { save_as: Some(n), .. }) ==> forall|k: int|
            0 <= k < profiles@.len() && profiles@[k].name@ == n@ ==> owned_by(
                #[trigger] profiles@[k],
                text_or_empty(cur.user_id),
            )),
{
    let t = match find_named(profiles, name) {
        Some(t) => t,
        None => return Err(SwitchError::NotFound(String::from_str(name))),
    };
    let target_uid = crate::text::string_or_empty(&profiles[t].auth.user_id);
    let same = match &cur.user_id {
        Some(u) => same_text(u.as_str(), target_uid.as_str()),
        None => false,
    };
    if has_login(cur) && same {
        Ok(SwitchPlan::RefreshOnly { target: t })
    } else {
        Ok(SwitchPlan::Replace { target: t, save_as: plan_snapshot(cur, email, profiles) })
    }
}

/// The file name of the snapshot called `name`.
pub fn profile_file_name(name: &str) -> (r: String)
    ensures
        r@ == name@ + ".json"@,
{
    let mut f = String::from_str(name);
    f.append(".json");
    f
}


/// One snapshot as the panel lists it.
#[derive(Clone, Debug)]
pub struct ProfileMeta {
    pub name: String,
    pub user_id: String,
    pub account_name: String,
    /// The e-mail of the account (stored with the snapshot, or read from
    /// its token); `None` when neither gives one.
    pub email: Option<String>,
    pub saved_at: i64,
    /// Whether this is the account logged in now.
    pub current: bool,
}

/// The account logged in now, as the panel shows it.
#[derive(Clone, Debug)]
pub struct CurrentMeta {
    pub user_id: String,
    pub name: String,
    /// The e-mail in the token's JWT, when it can be read.
    pub email: Option<String>,
    /// The plan in the token's JWT (such as "plus"), when it can be read.
    pub plan: Option<String>,
    /// Plan expiry, Unix seconds (JWT `plan_exp`), when it can be read.
    pub plan_exp: Option<i64>,
    /// Access-token expiry, Unix seconds; 0 when absent.
    pub exp: i64,
    /// The name of this account's snapshot, if it has one.
    pub profile: Option<String>,
}

/// What the account panel shows.
#[derive(Clone, Debug)]
pub struct AccountsView {
    /// The account logged in now; `None` when logged out.
    pub current: Option<CurrentMeta>,
    pub profiles: Vec<ProfileMeta>,
}

/// How the panel lists the snapshot `p` while `cur` is logged in.
pub open spec fn meta_of(key: Option<Seq<u8>>, cur: Auth, p: Snapshot, m: ProfileMeta) -> bool {
    &&& m.name@ == p.name@
    &&& m.user_id@ == text_or_empty(p.user_id)
    &&& m.account_name@ == text_or_empty(p.account_name)
    &&& opt_chars(m.email) == if is_nonempty(p.email) {
        opt_chars(p.email)
    } else {
        auth_email(key, p.auth)
    }
    &&& m.saved_at == match p.saved_at {
        Some(t) => t,
        None => 0,
    }
    &&& m.current == (logged_in(cur) && text_or_empty(p.user_id) == text_or_empty(cur.user_id))
}

/// The index of the first listed snapshot whose user id is `uid`.
pub open spec fn first_meta_of(ms: Seq<ProfileMeta>, uid: Seq<char>) -> Option<int>
    decreases ms.len(),
{
    if ms.len() == 0 {
        None
    } else if ms[0].user_id@ == uid {
        Some(0)
    } else {
        match first_meta_of(ms.drop_first(), uid) {
            Some(i) => Some(i + 1),
            None => None,
        }
    }
}

/// How the panel shows the login `cur` given the listed snapshots `ms`.
pub open spec fn current_of(key: Option<Seq<u8>>, cur: Auth, ms: Seq<ProfileMeta>, c: CurrentMeta) -> bool {
    let acc = auth_account(key, cur);
    let uid = text_or_empty(cur.user_id);
    &&& c.user_id@ == uid
    &&& c.name@ == text_or_empty(cur.name)
    &&& opt_chars(c.email) == match acc {
        Some(a) => a.0,
        None => None,
    }
    &&& opt_chars(c.plan) == match acc {
        Some(a) => a.1,
        None => None,
    }
    &&& c.plan_exp == match acc {
        Some(a) => a.2,
        None => None,
    }
    &&& c.exp == match cur.exp {
        Some(e) => e,
        None => 0,
    }
    &&& opt_chars(c.profile) == match first_meta_of(ms, uid) {
        Some(i) => Some(ms[i].name@),
        None => None,
    }
}

fn meta_for(key: Option<&[u8; 32]>, cur: &Auth, p: &Snapshot) -> (m: ProfileMeta)
    ensures
        meta_of(key_bytes(key), *cur, *p, m),
{
    let uid = crate::text::string_or_empty(&p.user_id);
    let cur_uid = crate::text::string_or_empty(&cur.user_id);
    let email = if nonempty(&p.email) {
        copy_opt(&p.email)
    } else {
        email_of_auth(key, &p.auth)
    };
    let current = has_login(cur) && same_text(uid.as_str(), cur_uid.as_str());
    ProfileMeta {
        name: p.name.clone(),
        user_id: uid,
        account_name: crate::text::string_or_empty(&p.account_name),
        email,
        saved_at: match p.saved_at {
            Some(t) => t,
            None => 0,
        },
        current,
    }
}

proof fn lemma_first_meta(ms: Seq<ProfileMeta>, uid: Seq<char>, i: int)
    requires
        0 <= i <= ms.len(),
        forall|j: int| 0 <= j < i ==> (#[trigger] ms[j]).user_id@ != uid,
    ensures
        first_meta_of(ms, uid) == match first_meta_of(ms.skip(i), uid) {
            Some(k) => Some(k + i),
            None => None,
        },
    decreases i,
{
    if i > 0 {
        lemma_first_meta(ms.drop_first(), uid, i - 1);
        assert(ms.drop_first().skip(i - 1) == ms.skip(i));
    } else {
        assert(ms.skip(0) == ms);
    }
}

fn find_meta(ms: &Vec<ProfileMeta>, uid: &str) -> (r: Option<usize>)
    ensures
        match r {
            Some(i) => first_meta_of(ms@, uid@) == Some(i as int) && i < ms@.len(),
            None => first_meta_of(ms@, uid@) is None,
        },
{
    let mut i: usize = 0;
    while i < ms.len()
        invariant
            i <= ms@.len(),
            forall|j: int| 0 <= j < i ==> (#[trigger] ms@[j]).user_id@ != uid@,
        decreases ms@.len() - i,
    {
        if same_text(ms[i].user_id.as_str(), uid) {
            proof {
                lemma_first_meta(ms@, uid@, i as int);
            }
            return Some(i);
        }
        i = i + 1;
    }
    proof {
        lemma_first_meta(ms@, uid@, i as int);
    }
    None
}

/// What the account panel shows for the login `auth` and the listed
/// snapshots: one entry per snapshot (its e-mail stored or read from its
/// token, marked current when it is the logged-in account) and, when logged
/// in, the account's e-mail, plan and expiry from its token and the name of
/// its snapshot.
pub fn build_view(key: Option<&[u8; 32]>, auth: &Auth, profiles: &[Snapshot]) -> (r: AccountsView)
    ensures
        r.profiles@.len() == profiles@.len(),
        forall|i: int| 0 <= i < profiles@.len() ==> meta_of(key_bytes(key), *auth, #[trigger] profiles@[i], r.profiles@[i]),
        r.current is Some <==> logged_in(*auth),
        r.current matches Some(c) ==> current_of(key_bytes(key), *auth, r.profiles@, c),
{
    let mut metas: Vec<ProfileMeta> = Vec::new();
    let mut i: usize = 0;
    while i < profiles.len()
        invariant
            i <= profiles@.len(),
            metas@.len() == i,
            forall|j: int| 0 <= j < i ==> meta_of(key_bytes(key), *auth, #[trigger] profiles@[j], metas@[j]),
        decreases profiles@.len() - i,
    {
        let m = meta_for(key, auth, &profiles[i]);
        metas.push(m);
        i = i + 1;
    }
    if !has_login(auth) {
        return AccountsView { current: None, profiles: metas };
    }
    let uid = crate::text::string_or_empty(&auth.user_id);
    let acct = account_of_auth(key, auth);
    let profile = match find_meta(&metas, uid.as_str()) {
        Some(k) => Some(metas[k].name.clone()),
        None => None,
    };
    let (email, plan, plan_exp) = match acct {
        Some(a) => (a.email, a.plan, a.plan_exp),
        None => (None, None, None),
    };
    let current = CurrentMeta {
        user_id: uid,
        name: crate::text::string_or_empty(&auth.name),
        email,
        plan,
        plan_exp,
        exp: match auth.exp {
            Some(e) => e,
            None => 0,
        },
        profile,
    };
    AccountsView { current: Some(current), profiles: metas }
}


/// How many backups of `setting.json` are kept.
pub const BACKUP_KEEP: usize = 20;

/// Where `x` goes in `s` to keep texts in order, after every text not
/// greater than it.
pub open spec fn text_insert_pos(s: Seq<String>, x: String) -> int
    decreases s.len(),
{
    if s.len() == 0 {
        0
    } else if !text_le(s[0]@, x@) {
        0
    } else {
        1 + text_insert_pos(s.drop_first(), x)
    }
}

/// `s` stably sorted.
pub open spec fn sort_texts(s: Seq<String>) -> Seq<String>
    decreases s.len(),
{
    if s.len() == 0 {
        s
    } else {
        let t = sort_texts(s.drop_last());
        t.insert(text_insert_pos(t, s.last()), s.last())
    }
}

pub open spec fn backup_prefix() -> Seq<char> {
    seq!['s', 'e', 't', 't', 'i', 'n', 'g', '-']
}

/// Whether a file in the backups directory is a backup of `setting.json`.
pub open spec fn is_backup(f: String) -> bool {
    f@.len() >= 8 && f@.take(8) == backup_prefix()
}

/// The backups to delete so that only the newest `BACKUP_KEEP` remain: all
/// but the last `BACKUP_KEEP` of the backup files in name order (names
/// carry their time stamp).
pub open spec fn backups_to_delete(files: Seq<String>) -> Seq<String> {
    let b = sort_texts(files.filter(|f: String| is_backup(f)));
    if b.len() > BACKUP_KEEP {
        b.take(b.len() - BACKUP_KEEP)
    } else {
        Seq::empty()
    }
}

/// The backups that remain after pruning: those after the deleted ones in
/// name order.
pub open spec fn backups_kept(files: Seq<String>) -> Seq<String> {
    let b = sort_texts(files.filter(|f: String| is_backup(f)));
    b.skip(backups_to_delete(files).len() as int)
}

proof fn lemma_text_insert_pos_bounds(s: Seq<String>, x: String)
    ensures
        0 <= text_insert_pos(s, x) <= s.len(),
    decreases s.len(),
{
    if s.len() > 0 {
        lemma_text_insert_pos_bounds(s.drop_first(), x);
    }
}

/// Whether the texts are in order.
pub open spec fn texts_sorted(s: Seq<String>) -> bool {
    forall|i: int, j: int| 0 <= i < j < s.len() ==> text_le(#[trigger] s[i]@, #[trigger] s[j]@)
}

proof fn lemma_text_insert_keeps_sorted(s: Seq<String>, x: String)
    requires
        texts_sorted(s),
    ensures
        texts_sorted(s.insert(text_insert_pos(s, x), x)),
    decreases s.len(),
{
    lemma_text_insert_pos_bounds(s, x);
    let p = text_insert_pos(s, x);
    let t = s.insert(p, x);
    if s.len() > 0 && text_le(s[0]@, x@) {
        let r = s.drop_first();
        assert(texts_sorted(r));
        lemma_text_insert_keeps_sorted(r, x);
        lemma_text_insert_pos_bounds(r, x);
        let tr = r.insert(text_insert_pos(r, x), x);
        assert(t == seq![s[0]] + tr);
        assert forall|i: int, j: int| 0 <= i < j < t.len() implies text_le(#[trigger] t[i]@, #[trigger] t[j]@) by {
            if i == 0 {
                if j - 1 == text_insert_pos(r, x) {
                    assert(t[j] == x);
                } else {
                    let k = if j - 1 < text_insert_pos(r, x) { j - 1 } else { j - 2 };
                    assert(t[j] == r[k]);
                    assert(r[k] == s[k + 1]);
                }
            } else {
                assert(t[i] == tr[i - 1]);
                assert(t[j] == tr[j - 1]);
            }
        }
    } else {
        assert(t == seq![x] + s);
        assert forall|i: int, j: int| 0 <= i < j < t.len() implies text_le(#[trigger] t[i]@, #[trigger] t[j]@) by {
            if i == 0 {
                assert(t[j] == s[j - 1]);
                if s.len() > 0 {
                    lemma_text_le_total(s[0]@, x@);
                    if j - 1 > 0 {
                        lemma_text_le_trans(x@, s[0]@, s[j - 1]@);
                    }
                }
            } else {
                assert(t[i] == s[i - 1]);
                assert(t[j] == s[j - 1]);
            }
        }
    }
}

/// Sorting texts puts them in order and keeps each of them, as often as it
/// occurs.
proof fn lemma_sort_texts(s: Seq<String>)
    ensures
        texts_sorted(sort_texts(s)),
        sort_texts(s).to_multiset() == s.to_multiset(),
        sort_texts(s).len() == s.len(),
    decreases s.len(),
{
    if s.len() > 0 {
        lemma_sort_texts(s.drop_last());
        let t = sort_texts(s.drop_last());
        lemma_text_insert_pos_bounds(t, s.last());
        lemma_text_insert_keeps_sorted(t, s.last());
        vstd::seq_lib::to_multiset_insert(t, text_insert_pos(t, s.last()), s.last());
        vstd::seq_lib::to_multiset_build(s.drop_last(), s.last());
        assert(s.drop_last().push(s.last()) == s);
    }
    vstd::seq_lib::to_multiset_len(s);
    vstd::seq_lib::to_multiset_len(sort_texts(s));
}

/// Pruning keeps the newest backups. Of the backup files, `BACKUP_KEEP`
/// remain (all of them when there are no more); the deleted ones and the
/// kept ones are together exactly the backup files; and every deleted
/// backup comes, in name order (the order of the time stamps in the names),
/// before or level with every kept one.
pub proof fn lemma_prune_keeps_newest(files: Seq<String>)
    ensures
        ({
            let n = files.filter(|f: String| is_backup(f)).len();
            backups_kept(files).len() == if n > BACKUP_KEEP { BACKUP_KEEP as int } else { n as int }
        }),
        (backups_to_delete(files) + backups_kept(files)).to_multiset() == files.filter(
            |f: String| is_backup(f),
        ).to_multiset(),
        forall|i: int, j: int|
            0 <= i < backups_to_delete(files).len() && 0 <= j < backups_kept(files).len() ==> text_le(
                #[trigger] backups_to_delete(files)[i]@,
                #[trigger] backups_kept(files)[j]@,
            ),
{
    let b = files.filter(|f: String| is_backup(f));
    lemma_sort_texts(b);
    let s = sort_texts(b);
    let d = backups_to_delete(files);
    let k = backups_kept(files);
    assert(d + k == s);
    assert forall|i: int, j: int| 0 <= i < d.len() && 0 <= j < k.len() implies text_le(
        #[trigger] d[i]@,
        #[trigger] k[j]@,
    ) by {
        assert(d[i] == s[i]);
        assert(k[j] == s[d.len() + j]);
    }
}

fn find_text_pos(s: &Vec<String>, x: &String) -> (r: usize)
    ensures
        r == text_insert_pos(s@, *x),
{
    let mut i: usize = 0;
    proof {
        assert(s@.skip(0) == s@);
        lemma_text_insert_pos_bounds(s@, *x);
    }
    while i < s.len() && text_le_exec(s[i].as_str(), x.as_str())
        invariant
            i <= s@.len(),
            text_insert_pos(s@, *x) == i + text_insert_pos(s@.skip(i as int), *x),
        decreases s@.len() - i,
    {
        assert(s@.skip(i as int).drop_first() == s@.skip(i + 1));
        i = i + 1;
    }
    i
}

fn is_backup_name(f: &String) -> (r: bool)
    ensures
        r == is_backup(*f),
{
    let mut p = String::new();
    push_char(&mut p, 's');
    push_char(&mut p, 'e');
    push_char(&mut p, 't');
    push_char(&mut p, 't');
    push_char(&mut p, 'i');
    push_char(&mut p, 'n');
    push_char(&mut p, 'g');
    push_char(&mut p, '-');
    assert(p@ == backup_prefix());
    crate::text::starts_with_text(f.as_str(), p.as_str())
}

/// The backup files to delete (see `backups_to_delete`).
pub fn backups_to_prune(files: Vec<String>) -> (r: Vec<String>)
    ensures
        r@ == backups_to_delete(files@),
{
    let ghost orig = files@;
    let mut rest = files;
    let mut out: Vec<String> = Vec::new();
    let ghost mut i: int = 0;
    proof {
        assert(orig.take(0).filter(|f: String| is_backup(f)) == Seq::<String>::empty()) by {
            reveal_with_fuel(Seq::filter, 1);
        }
        assert(orig.skip(0) == orig);
    }
    while rest.len() > 0
        invariant
            0 <= i <= orig.len(),
            rest@ == orig.skip(i),
            out@ == sort_texts(orig.take(i).filter(|f: String| is_backup(f))),
        decreases rest@.len(),
    {
        let x = rest.remove(0);
        proof {
            assert(x == orig[i]);
            assert(orig.skip(i).remove(0) == orig.skip(i + 1));
            assert(orig.take(i + 1).drop_last() == orig.take(i));
            assert(orig.take(i + 1).last() == x);
            reveal_with_fuel(Seq::filter, 1);
        }
        if is_backup_name(&x) {
            let p = find_text_pos(&out, &x);
            proof {
                lemma_text_insert_pos_bounds(out@, x);
                let f = orig.take(i + 1).filter(|f: String| is_backup(f));
                assert(f.drop_last() == orig.take(i).filter(|f: String| is_backup(f)));
                assert(f.last() == x);
            }
            out.insert(p, x);
        } else {
            proof {
                assert(orig.take(i + 1).filter(|f: String| is_backup(f))
                    == orig.take(i).filter(|f: String| is_backup(f)));
            }
        }
        proof {
            i = i + 1;
        }
    }
    assert(orig.take(orig.len() as int) == orig);
    if out.len() > BACKUP_KEEP {
        let excess = out.len() - BACKUP_KEEP;
        out.truncate(excess);
        out
    } else {
        Vec::new()
    }
}


/// Once the count of appended 'x' exceeds the longest snapshot name, the
/// candidate is longer than every name, so nobody holds it.
proof fn lemma_some_xs_free(ps: Seq<Snapshot>, c: Seq<char>, uid: Seq<char>)
    ensures
        !taken_by_other(ps, with_xs(c, longest_name(ps) + 1), uid),
{
    let k = longest_name(ps) + 1;
    if taken_by_other(ps, with_xs(c, k), uid) {
        let i = choose|i: int| 0 <= i < ps.len() && (#[trigger] ps[i]).name@ == with_xs(c, k) && !owned_by(ps[i], uid);
        lemma_longest_name(ps, i);
        assert(with_xs(c, k).len() == c.len() + k);
    }
}

proof fn lemma_least_free_below(ps: Seq<Snapshot>, c: Seq<char>, uid: Seq<char>, k: nat)
    requires
        !taken_by_other(ps, with_xs(c, k), uid),
    ensures
        exists|k2: nat| least_free_xs(ps, c, uid, k2),
    decreases k,
{
    if forall|j: nat| j < k ==> taken_by_other(ps, #[trigger] with_xs(c, j), uid) {
        assert(least_free_xs(ps, c, uid, k));
    } else {
        let j = choose|j: nat| j < k && !taken_by_other(ps, #[trigger] with_xs(c, j), uid);
        lemma_least_free_below(ps, c, uid, j);
    }
}

/// An automatic snapshot name is never held by another account's snapshot.
pub proof fn lemma_auto_name_free(base: Seq<char>, uid: Seq<char>, email: Option<Seq<char>>, ps: Seq<Snapshot>)
    ensures
        !taken_by_other(ps, auto_name(base, uid, email, ps), uid),
{
    let c = base + dash() + short_id_spec(uid);
    lemma_some_xs_free(ps, c, uid);
    lemma_least_free_below(ps, c, uid, (longest_name(ps) + 1) as nat);
}

/// The snapshots left in the profiles directory when the one at index
/// `drop` (none when `drop` is negative) is deleted and the file `file` is
/// written: whatever was read from that file is replaced.
pub open spec fn kept_files(ps: Seq<Snapshot>, file: Seq<char>, drop: int) -> Seq<Snapshot>
    decreases ps.len(),
{
    if ps.len() == 0 {
        ps
    } else {
        let rest = kept_files(ps.drop_last(), file, drop);
        if ps.len() - 1 == drop || ps.last().file@ == file {
            rest
        } else {
            rest.push(ps.last())
        }
    }
}

/// The snapshots after `new` is written to its file and the one at index
/// `drop` (none when negative) is deleted.
pub open spec fn filed(ps: Seq<Snapshot>, drop: int, new: Snapshot) -> Seq<Snapshot> {
    kept_files(ps, new.file@, drop).push(new)
}

pub(crate) proof fn lemma_kept_files(ps: Seq<Snapshot>, file: Seq<char>, drop: int, uid: Seq<char>)
    requires
        forall|k: int| 0 <= k < ps.len() && k != drop && (#[trigger] ps[k]).file@ != file ==> !owned_by(ps[k], uid),
    ensures
        forall|j: int|
            0 <= j < kept_files(ps, file, drop).len() ==> !owned_by(#[trigger] kept_files(ps, file, drop)[j], uid)
                && ps.contains(kept_files(ps, file, drop)[j]) && kept_files(ps, file, drop)[j].file@ != file,
        forall|k: int|
            0 <= k < ps.len() && k != drop && (#[trigger] ps[k]).file@ != file ==> kept_files(ps, file, drop).contains(
                ps[k],
            ),
        one_per_account(ps) ==> one_per_account(kept_files(ps, file, drop)),
    decreases ps.len(),
{
    lemma_kept_files_from(ps, file, drop);
    if ps.len() > 0 {
        let p = ps.drop_last();
        let n = ps.len() - 1;
        assert forall|k: int| 0 <= k < p.len() && k != drop && (#[trigger] p[k]).file@ != file implies !owned_by(
            p[k],
            uid,
        ) by {
            assert(p[k] == ps[k]);
        }
        lemma_kept_files(p, file, drop, uid);
        let rest = kept_files(p, file, drop);
        let kept = kept_files(ps, file, drop);
        if !(n == drop || ps.last().file@ == file) {
            assert(ps[n] == ps.last());
            assert forall|j: int| 0 <= j < kept.len() implies !owned_by(#[trigger] kept[j], uid) by {
                if j < rest.len() {
                    assert(kept[j] == rest[j]);
                } else {
                    assert(kept[j] == ps[n]);
                }
            }
            assert forall|k: int| 0 <= k < ps.len() && k != drop && (#[trigger] ps[k]).file@ != file implies kept.contains(
                ps[k],
            ) by {
                if k < n {
                    assert(ps[k] == p[k]);
                    let m = choose|m: int| 0 <= m < rest.len() && rest[m] == p[k];
                    assert(kept[m] == rest[m]);
                } else {
                    assert(kept[rest.len() as int] == ps[k]);
                }
            }
            if one_per_account(ps) {
                assert(one_per_account(p)) by {
                    assert forall|i: int, j: int|
                        0 <= i < j < p.len() && (#[trigger] p[i]).user_id is Some implies opt_chars(p[i].user_id)
                        != opt_chars((#[trigger] p[j]).user_id) by {
                        assert(p[i] == ps[i] && p[j] == ps[j]);
                    }
                }
                assert forall|i: int, j: int|
                    0 <= i < j < kept.len() && (#[trigger] kept[i]).user_id is Some implies opt_chars(kept[i].user_id)
                    != opt_chars((#[trigger] kept[j]).user_id) by {
                    assert(kept[i] == rest[i]);
                    if j < rest.len() {
                        assert(kept[j] == rest[j]);
                    } else {
                        assert(kept[j] == ps[n]);
                        let m = choose|m: int| 0 <= m < p.len() && p[m] == rest[i];
                        assert(ps[m] == rest[i]);
                    }
                }
            }
        } else {
            assert(kept == rest);
            assert forall|k: int| 0 <= k < ps.len() && k != drop && (#[trigger] ps[k]).file@ != file implies kept.contains(
                ps[k],
            ) by {
                assert(k < n);
                assert(ps[k] == p[k]);
            }
            if one_per_account(ps) {
                assert forall|i: int, j: int|
                    0 <= i < j < p.len() && (#[trigger] p[i]).user_id is Some implies opt_chars(p[i].user_id)
                    != opt_chars((#[trigger] p[j]).user_id) by {
                    assert(p[i] == ps[i] && p[j] == ps[j]);
                }
            }
        }
    }
}

/// What is kept comes from the directory and is not read from `file`.
pub(crate) proof fn lemma_kept_files_from(ps: Seq<Snapshot>, file: Seq<char>, drop: int)
    ensures
        forall|j: int|
            0 <= j < kept_files(ps, file, drop).len() ==> ps.contains(#[trigger] kept_files(ps, file, drop)[j])
                && kept_files(ps, file, drop)[j].file@ != file,
    decreases ps.len(),
{
    if ps.len() > 0 {
        let p = ps.drop_last();
        lemma_kept_files_from(p, file, drop);
        let rest = kept_files(p, file, drop);
        let kept = kept_files(ps, file, drop);
        assert forall|j: int| 0 <= j < kept.len() implies ps.contains(#[trigger] kept[j]) && kept[j].file@ != file by {
            if j < rest.len() {
                assert(kept[j] == rest[j]);
                let m = choose|m: int| 0 <= m < p.len() && p[m] == rest[j];
                assert(ps[m] == rest[j]);
            } else {
                assert(kept[j] == ps[ps.len() - 1]);
            }
        }
    }
}

/// Nothing is taken out of snapshots none of which was read from `file`.
pub(crate) proof fn lemma_kept_files_none(s: Seq<Snapshot>, file: Seq<char>)
    requires
        forall|j: int| 0 <= j < s.len() ==> (#[trigger] s[j]).file@ != file,
    ensures
        kept_files(s, file, -1) == s,
    decreases s.len(),
{
    if s.len() > 0 {
        lemma_kept_files_none(s.drop_last(), file);
        assert(s.drop_last().push(s.last()) == s);
    }
}

/// The index of the snapshot a save deletes (see `plan_save`): the
/// account's first snapshot when it is saved under another name; else -1.
pub open spec fn save_drop(ps: Seq<Snapshot>, uid: Seq<char>, name: Seq<char>) -> int {
    match first_owned(ps, uid) {
        Some(i) => if ps[i].name@ != name {
            i
        } else {
            -1
        },
        None => -1,
    }
}

/// Where no two snapshots share an account, writing the file `file` for
/// account `uid` (where only the account's own snapshots lie) and deleting
/// the snapshot at `drop` (its first snapshot, when that is not the one in
/// `file`) replaces only the account's own snapshots and leaves none of its
/// others.
pub(crate) proof fn lemma_file_targets(ps: Seq<Snapshot>, uid: Seq<char>, file: Seq<char>, drop: int)
    requires
        one_per_account(ps),
        drop == -1 || first_owned(ps, uid) == Some(drop),
        first_owned(ps, uid) is Some ==> (ps[first_owned(ps, uid)->0].file@ == file || drop == first_owned(ps, uid)->0),
        forall|k: int| 0 <= k < ps.len() && (#[trigger] ps[k]).file@ == file ==> owned_by(ps[k], uid),
    ensures
        forall|k: int| 0 <= k < ps.len() && k != drop && (#[trigger] ps[k]).file@ != file ==> !owned_by(ps[k], uid),
        forall|k: int| 0 <= k < ps.len() && (k == drop || (#[trigger] ps[k]).file@ == file) ==> owned_by(ps[k], uid),
{
    lemma_first_owned_facts(ps, uid);
    assert forall|k: int| 0 <= k < ps.len() && k != drop && (#[trigger] ps[k]).file@ != file implies !owned_by(
        ps[k],
        uid,
    ) by {
        if owned_by(ps[k], uid) {
            let i = first_owned(ps, uid)->0;
            if k < i {
                assert(opt_chars(ps[k].user_id) != opt_chars(ps[i].user_id));
            } else if k > i {
                assert(opt_chars(ps[i].user_id) != opt_chars(ps[k].user_id));
            }
        }
    }
}

/// Filing a snapshot `new` of account `uid` over such writes leaves no two
/// snapshots of one account, exactly one snapshot of `uid` (the new one),
/// and every other account's snapshot in place.
pub(crate) proof fn lemma_filed_one_per_account(ps: Seq<Snapshot>, uid: Seq<char>, drop: int, new: Snapshot)
    requires
        one_per_account(ps),
        owned_by(new, uid),
        forall|k: int| 0 <= k < ps.len() && k != drop && (#[trigger] ps[k]).file@ != new.file@ ==> !owned_by(ps[k], uid),
        forall|k: int| 0 <= k < ps.len() && (k == drop || (#[trigger] ps[k]).file@ == new.file@) ==> owned_by(ps[k], uid),
    ensures
        one_per_account(filed(ps, drop, new)),
        forall|k: int|
            0 <= k < filed(ps, drop, new).len() ==> (owned_by(#[trigger] filed(ps, drop, new)[k], uid) <==> k
                == filed(ps, drop, new).len() - 1),
        forall|k: int| 0 <= k < ps.len() && !owned_by(#[trigger] ps[k], uid) ==> filed(ps, drop, new).contains(ps[k]),
{
    let file = new.file@;
    lemma_kept_files(ps, file, drop, uid);
    let kept = kept_files(ps, file, drop);
    let after = filed(ps, drop, new);
    assert forall|i: int, j: int|
        0 <= i < j < after.len() && (#[trigger] after[i]).user_id is Some implies opt_chars(after[i].user_id)
        != opt_chars((#[trigger] after[j]).user_id) by {
        assert(after[i] == kept[i]);
        if j < kept.len() {
            assert(after[j] == kept[j]);
        } else {
            assert(after[j] == new);
        }
    }
    assert forall|k: int| 0 <= k < after.len() implies (owned_by(#[trigger] after[k], uid) <==> k == after.len() - 1) by {
        if k < kept.len() {
            assert(after[k] == kept[k]);
        }
    }
    assert forall|k: int| 0 <= k < ps.len() && !owned_by(#[trigger] ps[k], uid) implies after.contains(ps[k]) by {
        let m = choose|m: int| 0 <= m < kept.len() && kept[m] == ps[k];
        assert(after[m] == kept[m]);
    }
}

/// Saving keeps one snapshot per account. Where no two snapshots share an
/// account, an accepted save of the login `a` (logged in, and not under a
/// cleaned name that another account's snapshot holds) writes the
/// account's snapshot `new`, named as `save_name` picks, to the file
/// `<name>.json`, and deletes the file of the snapshot `plan_save` marks.
/// Afterwards no two snapshots share an account, exactly one snapshot is
/// the account's (the new one) and every snapshot of another account is
/// still there. Left out are the stores on which the save itself breaks
/// this: another account's snapshot read from `<name>.json` (it would be
/// overwritten), or the account's snapshot that already bears the name
/// read from some other file (it would stay beside the new one).
pub proof fn lemma_save_keeps_one_per_account(
    a: Auth,
    email: Option<Seq<char>>,
    want: Option<Seq<char>>,
    ps: Seq<Snapshot>,
    new: Snapshot,
)
    requires
        logged_in(a),
        !(explicit_name(want).len() > 0 && taken_by_other(ps, explicit_name(want), text_or_empty(a.user_id))),
        one_per_account(ps),
        new.name@ == save_name(a, email, want, ps),
        new.file@ == new.name@ + ".json"@,
        owned_by(new, text_or_empty(a.user_id)),
        forall|k: int| 0 <= k < ps.len() && (#[trigger] ps[k]).file@ == new.file@ ==> owned_by(ps[k], text_or_empty(a.user_id)),
        (first_owned(ps, text_or_empty(a.user_id)) is Some && ps[first_owned(ps, text_or_empty(a.user_id))->0].name@
            == new.name@) ==> ps[first_owned(ps, text_or_empty(a.user_id))->0].file@ == new.file@,
    ensures
        ({
            let uid = text_or_empty(a.user_id);
            let after = filed(ps, save_drop(ps, uid, new.name@), new);
            &&& one_per_account(after)
            &&& forall|k: int| 0 <= k < after.len() ==> (owned_by(#[trigger] after[k], uid) <==> k == after.len() - 1)
            &&& forall|k: int| 0 <= k < ps.len() && !owned_by(#[trigger] ps[k], uid) ==> after.contains(ps[k])
        }),
{
    let uid = text_or_empty(a.user_id);
    let drop = save_drop(ps, uid, new.name@);
    lemma_first_owned_facts(ps, uid);
    lemma_file_targets(ps, uid, new.file@, drop);
    lemma_filed_one_per_account(ps, uid, drop, new);
}

/// No two snapshots were read from the same file (as in any directory).
pub open spec fn files_distinct(ps: Seq<Snapshot>) -> bool {
    forall|i: int, j: int| 0 <= i < j < ps.len() ==> (#[trigger] ps[i]).file@ != (#[trigger] ps[j]).file@
}

/// Every snapshot lies in the file named after it, as this library writes
/// them.
pub open spec fn in_own_files(ps: Seq<Snapshot>) -> bool {
    forall|k: int| 0 <= k < ps.len() ==> (#[trigger] ps[k]).file@ == ps[k].name@ + ".json"@
}

proof fn lemma_json_suffix_cancel(x: Seq<char>, y: Seq<char>)
    requires
        x + ".json"@ == y + ".json"@,
    ensures
        x == y,
{
    let j = ".json"@;
    assert((x + j).len() == x.len() + j.len());
    assert((y + j).len() == y.len() + j.len());
    assert(x == (x + j).take(x.len() as int));
    assert(y == (y + j).take(y.len() as int));
}

/// In a store whose snapshots each lie in the file named after them, both
/// stores left out of `lemma_save_keeps_one_per_account` never occur: the
/// file an accepted save writes holds only the account's own snapshot, and
/// the account's snapshot that bears the name lies in that file.
pub proof fn lemma_tidy_store_save(a: Auth, email: Option<Seq<char>>, want: Option<Seq<char>>, ps: Seq<Snapshot>)
    requires
        !(explicit_name(want).len() > 0 && taken_by_other(ps, explicit_name(want), text_or_empty(a.user_id))),
        files_distinct(ps),
        in_own_files(ps),
    ensures
        ({
            let uid = text_or_empty(a.user_id);
            let name = save_name(a, email, want, ps);
            &&& forall|k: int| 0 <= k < ps.len() && (#[trigger] ps[k]).file@ == name + ".json"@ ==> owned_by(ps[k], uid)
            &&& (first_owned(ps, uid) is Some && ps[first_owned(ps, uid)->0].name@ == name) ==> ps[first_owned(
                ps,
                uid,
            )->0].file@ == name + ".json"@
        }),
{
    let uid = text_or_empty(a.user_id);
    let name = save_name(a, email, want, ps);
    lemma_first_owned_facts(ps, uid);
    if explicit_name(want).len() == 0 && first_owned(ps, uid) is None {
        lemma_auto_name_free(auto_base(email, a.name, uid), uid, email, ps);
    }
    assert forall|k: int| 0 <= k < ps.len() && (#[trigger] ps[k]).file@ == name + ".json"@ implies owned_by(ps[k], uid) by {
        lemma_json_suffix_cancel(ps[k].name@, name);
        if explicit_name(want).len() == 0 && first_owned(ps, uid) is Some {
            let i = first_owned(ps, uid)->0;
            if k < i {
                assert(ps[k].file@ != ps[i].file@);
            } else if k > i {
                assert(ps[i].file@ != ps[k].file@);
            }
        } else {
            assert(!(ps[k].name@ == name && !owned_by(ps[k], uid)));
        }
    }
}


/// Where `x` goes in `s` depends only on its name; everything before it is
/// named no later than it.
pub(crate) proof fn lemma_insert_pos_facts(s: Seq<Snapshot>, x: Snapshot, y: Snapshot)
    requires
        x.name@ == y.name@,
    ensures
        insert_pos(s, x) == insert_pos(s, y),
        0 <= insert_pos(s, x) <= s.len(),
        forall|k: int| 0 <= k < insert_pos(s, x) ==> text_le((#[trigger] s[k]).name@, x.name@),
    decreases s.len(),
{
    lemma_insert_pos_bounds(s, x);
    if s.len() > 0 && text_le(s[0].name@, x.name@) {
        lemma_insert_pos_facts(s.drop_first(), x, y);
        assert forall|k: int| 0 <= k < insert_pos(s, x) implies text_le((#[trigger] s[k]).name@, x.name@) by {
            if k > 0 {
                assert(s[k] == s.drop_first()[k - 1]);
            }
        }
    }
}

/// Sorting by name keeps each snapshot, as often as it occurs.
pub(crate) proof fn lemma_sort_by_name_multiset(s: Seq<Snapshot>)
    ensures
        sort_by_name(s).to_multiset() == s.to_multiset(),
    decreases s.len(),
{
    if s.len() > 0 {
        lemma_sort_by_name_multiset(s.drop_last());
        let t = sort_by_name(s.drop_last());
        lemma_insert_pos_bounds(t, s.last());
        vstd::seq_lib::to_multiset_insert(t, insert_pos(t, s.last()), s.last());
        vstd::seq_lib::to_multiset_build(s.drop_last(), s.last());
        assert(s.drop_last().push(s.last()) == s);
    }
}

/// A snapshot is listed exactly when it was found and is listed.
pub(crate) proof fn lemma_listed_contains(s: Seq<Snapshot>, x: Snapshot)
    ensures
        listed(s).contains(x) <==> s.contains(x) && is_listed(x),
{
    let f = s.filter(|p: Snapshot| is_listed(p));
    lemma_sort_by_name_multiset(f);
    vstd::seq_lib::to_multiset_contains(f, x);
    vstd::seq_lib::to_multiset_contains(listed(s), x);
    if f.contains(x) {
        s.lemma_filter_contains_rev(|p: Snapshot| is_listed(p), x);
        let i = choose|i: int| 0 <= i < f.len() && f[i] == x;
        s.lemma_filter_pred(|p: Snapshot| is_listed(p), i);
    }
    if s.contains(x) && is_listed(x) {
        let i = choose|i: int| 0 <= i < s.len() && s[i] == x;
        s.lemma_filter_contains(|p: Snapshot| is_listed(p), i);
    }
}


/// Before a switch the current login is always saved, into the account's
/// own snapshot when it has one. A name to save it under exists exactly
/// when `a` is logged in; when some snapshot `ps[k]` belongs to the account
/// and none before it does, that name is `ps[k]`'s.
pub proof fn lemma_switch_saves_current(a: Auth, email: Option<Seq<char>>, ps: Seq<Snapshot>, k: int)
    ensures
        logged_in(a) <==> snapshot_name(a, email, ps) is Some,
        (0 <= k < ps.len() && opt_chars(ps[k].user_id) == Some(text_or_empty(a.user_id)) && forall|j: int|
            0 <= j < k ==> opt_chars((#[trigger] ps[j]).user_id) != Some(text_or_empty(a.user_id))) && logged_in(a)
            ==> snapshot_name(
            a,
            email,
            ps,
        ) == Some(ps[k].name@),
{
    let uid = text_or_empty(a.user_id);
    lemma_first_owned_facts(ps, uid);
    if 0 <= k < ps.len() && opt_chars(ps[k].user_id) == Some(uid) && forall|j: int|
        0 <= j < k ==> opt_chars((#[trigger] ps[j]).user_id) != Some(uid) {
        let i = first_owned(ps, uid)->0;
        if i < k {
            assert(opt_chars(ps[i].user_id) != Some(uid));
        }
    }
}

/// The panel lists each snapshot by its record: its name, its `userId`
/// and its `accountName` (empty when absent), its `savedAt` (0 when
/// absent), and its stored e-mail when it has a non-empty one.
pub proof fn lemma_listed_entry_is_record(key: Option<Seq<u8>>, cur: Auth, p: Snapshot, m: ProfileMeta)
    requires
        meta_of(key, cur, p, m),
    ensures
        m.name@ == p.name@,
        m.account_name@ == match p.account_name {
            Some(s) => s@,
            None => Seq::<char>::empty(),
        },
        m.user_id@ == match p.user_id {
            Some(s) => s@,
            None => Seq::<char>::empty(),
        },
        m.saved_at == match p.saved_at {
            Some(t) => t,
            None => 0,
        },
        (p.email is Some && p.email->0@.len() > 0) ==> (m.email is Some && m.email->0@ == p.email->0@),
{
}
} // verus!
