//! Character-level text helpers: whitespace trimming, snapshot-name
//! sanitising, short user ids and e-mail local parts.

use vstd::prelude::*;

verus! {

/// Whether the non-ASCII character `c` carries the Unicode `White_Space`
/// property.
pub uninterp spec fn non_ascii_white_space(c: char) -> bool;

/// Whether the non-ASCII character `c` is alphabetic or numeric in the
/// Unicode sense.
pub uninterp spec fn non_ascii_alphanumeric(c: char) -> bool;

/// What `char::is_whitespace` answers: within ASCII exactly the space and the
/// controls U+0009..=U+000D.
pub open spec fn is_white_space(c: char) -> bool {
    if (c as u32) < 0x80 {
        c == ' ' || ('\t' <= c && c <= '\r')
    } else {
        non_ascii_white_space(c)
    }
}

/// What `char::is_alphanumeric` answers: within ASCII exactly the letters and
/// the decimal digits.
pub open spec fn is_alphanumeric(c: char) -> bool {
    if (c as u32) < 0x80 {
        is_ascii_alnum(c)
    } else {
        non_ascii_alphanumeric(c)
    }
}

/// `char::is_whitespace`. Claimed: the answer is `is_white_space(c)` (the
/// Unicode `White_Space` property; within ASCII the space and U+0009..=U+000D).
#[verifier::external_body]
pub(crate) fn char_is_whitespace(c: char) -> (r: bool)
    ensures
        r == is_white_space(c),
        (c as u32) >= 0x80 ==> r == non_ascii_white_space(c),
{
    c.is_whitespace()
}

/// `char::is_alphanumeric`. Claimed: the answer is `is_alphanumeric(c)`
/// (alphabetic or numeric; within ASCII the letters and decimal digits).
#[verifier::external_body]
pub(crate) fn char_is_alphanumeric(c: char) -> (r: bool)
    ensures
        r == is_alphanumeric(c),
        (c as u32) >= 0x80 ==> r == non_ascii_alphanumeric(c),
{
    c.is_alphanumeric()
}

/// `String::push`. Claimed: the character is appended.
#[verifier::external_body]
pub(crate) fn push_char(s: &mut String, c: char)
    ensures
        final(s)@ == old(s)@.push(c),
{
    s.push(c);
}

pub open spec fn is_ascii_alnum(c: char) -> bool {
    ('a' <= c && c <= 'z') || ('A' <= c && c <= 'Z') || ('0' <= c && c <= '9')
}

/// `s` without its leading white space.
pub open spec fn trim_start(s: Seq<char>) -> Seq<char>
    decreases s.len(),
{
    if s.len() > 0 && is_white_space(s[0]) {
        trim_start(s.drop_first())
    } else {
        s
    }
}

/// `s` without its trailing white space.
pub open spec fn trim_end(s: Seq<char>) -> Seq<char>
    decreases s.len(),
{
    if s.len() > 0 && is_white_space(s.last()) {
        trim_end(s.drop_last())
    } else {
        s
    }
}

/// `s` without leading and trailing white space (`str::trim`).
pub open spec fn trimmed(s: Seq<char>) -> Seq<char> {
    trim_end(trim_start(s))
}

/// The characters of `s`, in order.
pub fn chars_of(s: &str) -> (r: Vec<char>)
    ensures
        r@ == s@,
{
    let mut out: Vec<char> = Vec::new();
    for c in it: s.chars()
        invariant
            out@ == it.seq().take(it.index() as int),
            it.seq() == s@,
    {
        out.push(c);
    }
    out
}

/// The string made of the characters of `v`.
pub fn string_of(v: &[char]) -> (r: String)
    ensures
        r@ == v@,
{
    let mut out = String::new();
    for i in 0..v.len()
        invariant
            out@ == v@.take(i as int),
    {
        push_char(&mut out, v[i]);
        assert(v@.take(i + 1) == v@.take(i as int).push(v@[i as int]));
    }
    assert(v@.take(v@.len() as int) == v@);
    out
}

proof fn lemma_trim_start_skip(s: Seq<char>, i: int)
    requires
        0 <= i <= s.len(),
        forall|j: int| 0 <= j < i ==> is_white_space(#[trigger] s[j]),
    ensures
        trim_start(s) == trim_start(s.skip(i)),
    decreases i,
{
    if i > 0 {
        assert(s.skip(1) == s.drop_first());
        lemma_trim_start_skip(s.drop_first(), i - 1);
        assert(s.drop_first().skip(i - 1) == s.skip(i));
    } else {
        assert(s.skip(0) == s);
    }
}

proof fn lemma_trim_end_take(s: Seq<char>, k: int)
    requires
        0 <= k <= s.len(),
        forall|j: int| k <= j < s.len() ==> is_white_space(#[trigger] s[j]),
    ensures
        trim_end(s) == trim_end(s.take(k)),
    decreases s.len() - k,
{
    if k < s.len() {
        assert(s.take(s.len() - 1) == s.drop_last());
        lemma_trim_end_take(s.drop_last(), k);
        assert(s.drop_last().take(k) == s.take(k));
    } else {
        assert(s.take(k) == s);
    }
}

/// `v` with leading and trailing white space removed.
pub fn trim_chars(v: &[char]) -> (r: Vec<char>)
    ensures
        r@ == trimmed(v@),
{
    let n = v.len();
    let mut i: usize = 0;
    while i < n && char_is_whitespace(v[i])
        invariant
            i <= n,
            n == v@.len(),
            forall|j: int| 0 <= j < i ==> is_white_space(#[trigger] v@[j]),
        decreases n - i,
    {
        i = i + 1;
    }
    proof {
        lemma_trim_start_skip(v@, i as int);
    }
    let ghost rest = v@.skip(i as int);
    assert(i == n || !is_white_space(rest[0]));
    assert(trim_start(rest) == rest);
    let mut k: usize = n;
    while k > i && char_is_whitespace(v[k - 1])
        invariant
            i <= k <= n,
            n == v@.len(),
            forall|j: int| k <= j < n ==> is_white_space(#[trigger] v@[j]),
        decreases k,
    {
        k = k - 1;
    }
    proof {
        let kk = (k - i) as int;
        assert forall|j: int| kk <= j < rest.len() implies is_white_space(#[trigger] rest[j]) by {
            assert(rest[j] == v@[j + i]);
        }
        lemma_trim_end_take(rest, kk);
        let t = rest.take(kk);
        assert(t.len() == 0 || !is_white_space(t.last()));
        assert(trim_end(t) == t);
    }
    let mut out: Vec<char> = Vec::new();
    let mut j: usize = i;
    while j < k
        invariant
            i <= j <= k <= n,
            n == v@.len(),
            out@ == v@.subrange(i as int, j as int),
        decreases k - j,
    {
        out.push(v[j]);
        j = j + 1;
    }
    assert(out@ == rest.take((k - i) as int));
    out
}


/// Characters a snapshot name may keep as they are.
pub open spec fn is_name_char(c: char) -> bool {
    is_alphanumeric(c) || c == '_' || c == '-' || c == '.'
}

/// One step of name cleaning: keep a name character, turn anything else
/// into a single '-' (no '-' is added right after another '-').
pub open spec fn clean_step(acc: Seq<char>, c: char) -> Seq<char> {
    if is_name_char(c) {
        acc.push(c)
    } else if acc.len() > 0 && acc.last() == '-' {
        acc
    } else {
        acc.push('-')
    }
}

/// `s` cleaned character by character, left to right.
pub open spec fn clean_chars(s: Seq<char>) -> Seq<char>
    decreases s.len(),
{
    if s.len() == 0 {
        Seq::empty()
    } else {
        clean_step(clean_chars(s.drop_last()), s.last())
    }
}

pub open spec fn is_dash_or_dot(c: char) -> bool {
    c == '-' || c == '.'
}

/// `s` without its leading '-' and '.' characters.
pub open spec fn strip_start_dash_dot(s: Seq<char>) -> Seq<char>
    decreases s.len(),
{
    if s.len() > 0 && is_dash_or_dot(s[0]) {
        strip_start_dash_dot(s.drop_first())
    } else {
        s
    }
}

/// `s` without its trailing '-' and '.' characters.
pub open spec fn strip_end_dash_dot(s: Seq<char>) -> Seq<char>
    decreases s.len(),
{
    if s.len() > 0 && is_dash_or_dot(s.last()) {
        strip_end_dash_dot(s.drop_last())
    } else {
        s
    }
}

/// At most the first `n` characters of `s`.
pub open spec fn take_at_most(s: Seq<char>, n: int) -> Seq<char> {
    if s.len() <= n {
        s
    } else {
        s.take(n)
    }
}

/// The longest a snapshot name gets.
pub const NAME_MAX: usize = 40;

/// A user-supplied text turned into a snapshot name: trimmed, every run of
/// characters other than letters, digits, '_', '-' and '.' turned into one
/// '-', leading and trailing '-'/'.' removed, then cut to 40 characters.
pub open spec fn sanitized(s: Seq<char>) -> Seq<char> {
    take_at_most(strip_end_dash_dot(strip_start_dash_dot(clean_chars(trimmed(s)))), NAME_MAX as int)
}

proof fn lemma_clean_chars_name_chars(s: Seq<char>)
    ensures
        forall|j: int| 0 <= j < clean_chars(s).len() ==> is_name_char(#[trigger] clean_chars(s)[j]),
        clean_chars(s).len() <= s.len(),
    decreases s.len(),
{
    if s.len() > 0 {
        lemma_clean_chars_name_chars(s.drop_last());
    }
}

proof fn lemma_strip_start_skip(s: Seq<char>, i: int)
    requires
        0 <= i <= s.len(),
        forall|j: int| 0 <= j < i ==> is_dash_or_dot(#[trigger] s[j]),
    ensures
        strip_start_dash_dot(s) == strip_start_dash_dot(s.skip(i)),
    decreases i,
{
    if i > 0 {
        lemma_strip_start_skip(s.drop_first(), i - 1);
        assert(s.drop_first().skip(i - 1) == s.skip(i));
    } else {
        assert(s.skip(0) == s);
    }
}

proof fn lemma_strip_end_take(s: Seq<char>, k: int)
    requires
        0 <= k <= s.len(),
        forall|j: int| k <= j < s.len() ==> is_dash_or_dot(#[trigger] s[j]),
    ensures
        strip_end_dash_dot(s) == strip_end_dash_dot(s.take(k)),
    decreases s.len() - k,
{
    if k < s.len() {
        assert(s.take(s.len() - 1) == s.drop_last());
        lemma_strip_end_take(s.drop_last(), k);
        assert(s.drop_last().take(k) == s.take(k));
    } else {
        assert(s.take(k) == s);
    }
}

/// Every character of a sanitized name is a letter, a digit, '_', '-' or
/// '.', the name is at most 40 characters long, does not start with '-' or
/// '.', and, when shorter than 40 characters (so not cut), does not end
/// with one either.
pub proof fn lemma_sanitized_shape(s: Seq<char>)
    ensures
        sanitized(s).len() <= NAME_MAX,
        forall|j: int| 0 <= j < sanitized(s).len() ==> is_name_char(#[trigger] sanitized(s)[j]),
        sanitized(s).len() > 0 ==> !is_dash_or_dot(sanitized(s)[0]),
        0 < sanitized(s).len() < NAME_MAX ==> !is_dash_or_dot(sanitized(s).last()),
{
    let c = clean_chars(trimmed(s));
    lemma_clean_chars_name_chars(trimmed(s));
    let i = lemma_strip_start_suffix(c);
    let a = c.skip(i);
    let k = lemma_strip_end_prefix(a);
    let b = a.take(k);
    assert(b.len() > 0 ==> b[0] == a[0]);
    assert(b.len() > 0 ==> b.last() == a[k - 1]);
    assert forall|j: int| 0 <= j < b.len() implies is_name_char(#[trigger] b[j]) by {
        assert(b[j] == c[j + i]);
    }
}

/// Cleaning keeps a text made of name characters as it is.
proof fn lemma_clean_chars_keeps_names(s: Seq<char>)
    requires
        forall|j: int| 0 <= j < s.len() ==> is_name_char(#[trigger] s[j]),
    ensures
        clean_chars(s) == s,
    decreases s.len(),
{
    if s.len() > 0 {
        lemma_clean_chars_keeps_names(s.drop_last());
        assert(s.drop_last().push(s.last()) == s);
    }
}

/// Sanitizing a sanitized name that does not end with '-' or '.' (every
/// name shorter than 40 characters) gives it back unchanged, provided none
/// of its characters is white space. (Unicode gives no letter or digit the
/// White_Space property; that fact about the non-ASCII characters is not
/// among what the library takes from `char`.)
pub proof fn lemma_sanitized_idempotent(s: Seq<char>)
    requires
        sanitized(s).len() == 0 || !is_dash_or_dot(sanitized(s).last()),
        forall|j: int| 0 <= j < sanitized(s).len() ==> !is_white_space(#[trigger] sanitized(s)[j]),
    ensures
        sanitized(sanitized(s)) == sanitized(s),
{
    let r = sanitized(s);
    lemma_sanitized_shape(s);
    assert(r.len() == 0 || !is_white_space(r[0]));
    assert(trim_start(r) == r);
    assert(r.len() == 0 || !is_white_space(r.last()));
    assert(trimmed(r) == r);
    lemma_clean_chars_keeps_names(r);
    assert(strip_start_dash_dot(r) == r);
    assert(strip_end_dash_dot(r) == r);
}

/// What `strip_start_dash_dot` leaves is a suffix not starting with '-'/'.'.
proof fn lemma_strip_start_suffix(s: Seq<char>) -> (i: int)
    ensures
        0 <= i <= s.len(),
        strip_start_dash_dot(s) == s.skip(i),
        s.skip(i).len() == 0 || !is_dash_or_dot(s.skip(i)[0]),
    decreases s.len(),
{
    if s.len() > 0 && is_dash_or_dot(s[0]) {
        let i = lemma_strip_start_suffix(s.drop_first());
        assert(s.drop_first().skip(i) == s.skip(i + 1));
        i + 1
    } else {
        assert(s.skip(0) == s);
        0
    }
}

/// What `strip_end_dash_dot` leaves is a prefix not ending with '-'/'.'.
proof fn lemma_strip_end_prefix(s: Seq<char>) -> (k: int)
    ensures
        0 <= k <= s.len(),
        strip_end_dash_dot(s) == s.take(k),
        k == 0 || !is_dash_or_dot(s[k - 1]),
    decreases s.len(),
{
    if s.len() > 0 && is_dash_or_dot(s.last()) {
        let k = lemma_strip_end_prefix(s.drop_last());
        assert(s.drop_last().take(k) == s.take(k));
        k
    } else {
        assert(s.take(s.len() as int) == s);
        s.len() as int
    }
}

/// Cleans a user-supplied text into a snapshot name (see `sanitized`).
pub fn sanitize_name(name: &str) -> (r: String)
    ensures
        r@ == sanitized(name@),
        r@.len() <= NAME_MAX,
        forall|j: int| 0 <= j < r@.len() ==> is_name_char(#[trigger] r@[j]),
{
    proof {
        lemma_sanitized_shape(name@);
    }
    let all = chars_of(name);
    let t = trim_chars(&all);
    let mut out: Vec<char> = Vec::new();
    for i in 0..t.len()
        invariant
            out@ == clean_chars(t@.take(i as int)),
    {
        let c = t[i];
        proof {
            assert(t@.take(i + 1).drop_last() == t@.take(i as int));
        }
        if char_is_alphanumeric(c) || c == '_' || c == '-' || c == '.' {
            out.push(c);
        } else if !(out.len() > 0 && out[out.len() - 1] == '-') {
            out.push('-');
        }
    }
    assert(t@.take(t@.len() as int) == t@);
    let n = out.len();
    let mut i: usize = 0;
    while i < n && (out[i] == '-' || out[i] == '.')
        invariant
            i <= n,
            n == out@.len(),
            forall|j: int| 0 <= j < i ==> is_dash_or_dot(#[trigger] out@[j]),
        decreases n - i,
    {
        i = i + 1;
    }
    proof {
        lemma_strip_start_skip(out@, i as int);
    }
    let ghost a = out@.skip(i as int);
    assert(a.len() == 0 || !is_dash_or_dot(a[0]));
    assert(strip_start_dash_dot(a) == a);
    let mut k: usize = n;
    while k > i && (out[k - 1] == '-' || out[k - 1] == '.')
        invariant
            i <= k <= n,
            n == out@.len(),
            forall|j: int| k <= j < n ==> is_dash_or_dot(#[trigger] out@[j]),
        decreases k,
    {
        k = k - 1;
    }
    proof {
        let kk = (k - i) as int;
        assert forall|j: int| kk <= j < a.len() implies is_dash_or_dot(#[trigger] a[j]) by {
            assert(a[j] == out@[j + i]);
        }
        lemma_strip_end_take(a, kk);
        let b = a.take(kk);
        assert(b.len() == 0 || !is_dash_or_dot(b.last()));
        assert(strip_end_dash_dot(b) == b);
    }
    let end = if k - i > NAME_MAX { i + NAME_MAX } else { k };
    let mut res = String::new();
    let mut j: usize = i;
    while j < end
        invariant
            i <= j <= end <= k <= n,
            n == out@.len(),
            res@ == out@.subrange(i as int, j as int),
        decreases end - j,
    {
        push_char(&mut res, out[j]);
        j = j + 1;
    }
    assert(res@ == take_at_most(a.take((k - i) as int), NAME_MAX as int));
    res
}


/// The part of `s` before the first `c` (all of `s` when there is none):
/// the first piece of `s.split(c)`.
pub open spec fn before_first(s: Seq<char>, c: char) -> Seq<char>
    decreases s.len(),
{
    if s.len() == 0 {
        s
    } else if s[0] == c {
        Seq::empty()
    } else {
        seq![s[0]] + before_first(s.drop_first(), c)
    }
}

/// The second piece of `s.split(c)`: what lies between the first and the
/// second `c` (or the end); `None` when `s` holds no `c`.
pub open spec fn second_piece(s: Seq<char>, c: char) -> Option<Seq<char>>
    decreases s.len(),
{
    if s.len() == 0 {
        None
    } else if s[0] == c {
        Some(before_first(s.drop_first(), c))
    } else {
        second_piece(s.drop_first(), c)
    }
}

proof fn lemma_before_first_skip(s: Seq<char>, c: char, i: int)
    requires
        0 <= i <= s.len(),
        forall|j: int| 0 <= j < i ==> #[trigger] s[j] != c,
    ensures
        before_first(s, c) == s.take(i) + before_first(s.skip(i), c),
        second_piece(s, c) == second_piece(s.skip(i), c),
    decreases i,
{
    if i > 0 {
        lemma_before_first_skip(s.drop_first(), c, i - 1);
        assert(s.drop_first().skip(i - 1) == s.skip(i));
        assert(s.take(i) == seq![s[0]] + s.drop_first().take(i - 1));
    } else {
        assert(s.skip(0) == s);
        assert(s.take(0) + before_first(s, c) == before_first(s, c));
    }
}

/// Index of the first `c` in `v` at or after `from`, or `v.len()`.
fn find_from(v: &[char], c: char, from: usize) -> (r: usize)
    requires
        from <= v@.len(),
    ensures
        from <= r <= v@.len(),
        r < v@.len() ==> v@[r as int] == c,
        forall|j: int| from <= j < r ==> #[trigger] v@[j] != c,
{
    let mut i = from;
    while i < v.len() && v[i] != c
        invariant
            from <= i <= v@.len(),
            forall|j: int| from <= j < i ==> #[trigger] v@[j] != c,
        decreases v@.len() - i,
    {
        i = i + 1;
    }
    i
}

/// The characters of `v` before the first `c` (all of them when there is none).
pub fn before_first_char(v: &[char], c: char) -> (r: Vec<char>)
    ensures
        r@ == before_first(v@, c),
{
    let i = find_from(v, c, 0);
    proof {
        lemma_before_first_skip(v@, c, i as int);
        assert(i < v@.len() ==> v@.skip(i as int)[0] == c);
        assert(before_first(v@.skip(i as int), c) == Seq::<char>::empty());
        assert(v@.take(i as int) + Seq::<char>::empty() == v@.take(i as int));
    }
    let mut out: Vec<char> = Vec::new();
    for j in 0..i
        invariant
            i <= v@.len(),
            out@ == v@.take(j as int),
    {
        out.push(v[j]);
        assert(v@.take(j + 1) == v@.take(j as int).push(v@[j as int]));
    }
    out
}

/// The second piece of `v.split(c)`, when `v` holds a `c`.
pub fn second_piece_chars(v: &[char], c: char) -> (r: Option<Vec<char>>)
    ensures
        r matches Some(p) ==> second_piece(v@, c) == Some(p@),
        r is None ==> second_piece(v@, c) is None,
{
    let i = find_from(v, c, 0);
    proof {
        lemma_before_first_skip(v@, c, i as int);
    }
    if i == v.len() {
        assert(v@.skip(i as int).len() == 0);
        return None;
    }
    let k = find_from(v, c, i + 1);
    let ghost rest = v@.skip(i as int).drop_first();
    proof {
        assert(rest == v@.skip(i + 1));
        assert forall|j: int| 0 <= j < (k - i - 1) implies #[trigger] rest[j] != c by {
            assert(rest[j] == v@[j + i + 1]);
        }
        lemma_before_first_skip(rest, c, k - i - 1);
        if k < v@.len() {
            assert(rest.skip(k - i - 1)[0] == v@[k as int]);
        }
        assert(before_first(rest.skip(k - i - 1), c) == Seq::<char>::empty());
        assert(rest.take(k - i - 1) + Seq::<char>::empty() == rest.take(k - i - 1));
    }
    let mut out: Vec<char> = Vec::new();
    let mut j = i + 1;
    while j < k
        invariant
            i + 1 <= j <= k <= v@.len(),
            out@ == v@.subrange(i + 1, j as int),
        decreases k - j,
    {
        out.push(v[j]);
        j = j + 1;
    }
    assert(out@ == rest.take(k - i - 1));
    Some(out)
}

/// The local part of an e-mail address (before the first '@'); a text
/// without '@' is returned whole.
pub fn local_part(email: &str) -> (r: String)
    ensures
        r@ == before_first(email@, '@'),
{
    let v = chars_of(email);
    let p = before_first_char(&v, '@');
    string_of(&p)
}

/// The first label of an e-mail address's domain: `sam@outlook.com` gives
/// `outlook`; `None` when there is no '@'.
pub open spec fn domain_head(email: Seq<char>) -> Option<Seq<char>> {
    match second_piece(email, '@') {
        Some(d) => Some(before_first(d, '.')),
        None => None,
    }
}

/// Computes `domain_head`.
pub fn domain_head_of(email: &str) -> (r: Option<String>)
    ensures
        r matches Some(d) ==> domain_head(email@) == Some(d@),
        r is None ==> domain_head(email@) is None,
{
    let v = chars_of(email);
    match second_piece_chars(&v, '@') {
        Some(d) => {
            let h = before_first_char(&d, '.');
            Some(string_of(&h))
        },
        None => None,
    }
}

pub open spec fn usr_prefix() -> Seq<char> {
    seq!['u', 's', 'r', '_']
}

/// `s` with every leading "usr_" removed (`trim_start_matches("usr_")`).
pub open spec fn strip_usr(s: Seq<char>) -> Seq<char>
    decreases s.len(),
{
    if s.len() >= 4 && s.take(4) == usr_prefix() {
        strip_usr(s.skip(4))
    } else {
        s
    }
}

/// The short form of a user id: leading "usr_" removed, at most 8 characters.
pub open spec fn short_id_spec(uid: Seq<char>) -> Seq<char> {
    take_at_most(strip_usr(uid), 8)
}

/// Computes `short_id_spec`.
pub fn short_id(user_id: &str) -> (r: String)
    ensures
        r@ == short_id_spec(user_id@),
{
    let v = chars_of(user_id);
    let n = v.len();
    let mut i: usize = 0;
    assert(v@.skip(0) == v@);
    while 4 <= n - i && v[i] == 'u' && v[i + 1] == 's' && v[i + 2] == 'r' && v[i + 3] == '_'
        invariant
            i <= n,
            n == v@.len(),
            strip_usr(v@) == strip_usr(v@.skip(i as int)),
        decreases n - i,
    {
        proof {
            let t = v@.skip(i as int);
            assert(t.take(4) == usr_prefix());
            assert(t.skip(4) == v@.skip(i + 4));
        }
        i = i + 4;
    }
    proof {
        let t = v@.skip(i as int);
        if t.len() >= 4 && t.take(4) == usr_prefix() {
            assert(t.take(4)[0] == v@[i as int]);
            assert(t.take(4)[1] == v@[i + 1]);
            assert(t.take(4)[2] == v@[i + 2]);
            assert(t.take(4)[3] == v@[i + 3]);
        }
    }
    let end = if n - i > 8 { i + 8 } else { n };
    let mut out = String::new();
    let mut j = i;
    while j < end
        invariant
            i <= j <= end <= n,
            n == v@.len(),
            out@ == v@.subrange(i as int, j as int),
        decreases end - j,
    {
        push_char(&mut out, v[j]);
        j = j + 1;
    }
    assert(out@ == take_at_most(v@.skip(i as int), 8));
    out
}


/// The characters of an optional string.
pub open spec fn opt_chars(o: Option<String>) -> Option<Seq<char>> {
    match o {
        Some(s) => Some(s@),
        None => None,
    }
}

/// A copy of an optional string.
pub fn copy_opt(o: &Option<String>) -> (r: Option<String>)
    ensures
        opt_chars(r) == opt_chars(*o),
{
    match o {
        Some(s) => Some(s.clone()),
        None => None,
    }
}

/// Whether `a` and `b` hold the same text.
pub fn same_text(a: &str, b: &str) -> (r: bool)
    ensures
        r == (a@ == b@),
{
    let x = chars_of(a);
    let y = chars_of(b);
    if x.len() != y.len() {
        return false;
    }
    let mut i: usize = 0;
    while i < x.len()
        invariant
            x@.len() == y@.len(),
            x@ == a@,
            y@ == b@,
            i <= x@.len(),
            forall|j: int| 0 <= j < i ==> x@[j] == y@[j],
        decreases x@.len() - i,
    {
        if x[i] != y[i] {
            assert(x@[i as int] != y@[i as int]);
            return false;
        }
        i = i + 1;
    }
    assert(x@ == y@);
    true
}


/// A copy of `v[from..to]`.
pub fn copy_range<T: Copy>(v: &[T], from: usize, to: usize) -> (r: Vec<T>)
    requires
        from <= to <= v@.len(),
    ensures
        r@ == v@.subrange(from as int, to as int),
{
    let mut out: Vec<T> = Vec::new();
    let mut j = from;
    while j < to
        invariant
            from <= j <= to <= v@.len(),
            out@ == v@.subrange(from as int, j as int),
        decreases to - j,
    {
        out.push(v[j]);
        j = j + 1;
    }
    out
}

/// `a` followed by `b`.
pub fn concat_vecs<T: Copy>(a: &[T], b: &[T]) -> (r: Vec<T>)
    ensures
        r@ == a@ + b@,
{
    let mut out = copy_range(a, 0, a.len());
    assert(a@.subrange(0, a@.len() as int) == a@);
    assert(b@.take(0) == Seq::<T>::empty());
    assert(a@ + b@.take(0) == a@);
    let mut j: usize = 0;
    while j < b.len()
        invariant
            j <= b@.len(),
            out@ == a@ + b@.take(j as int),
        decreases b@.len() - j,
    {
        out.push(b[j]);
        j = j + 1;
        assert(b@.take(j as int) == b@.take(j - 1).push(b@[j - 1]));
    }
    assert(a@.subrange(0, a@.len() as int) == a@);
    assert(b@.take(b@.len() as int) == b@);
    out
}


/// The text or, when absent, the empty text.
pub open spec fn text_or_empty(o: Option<String>) -> Seq<char> {
    match o {
        Some(s) => s@,
        None => Seq::empty(),
    }
}

/// A present, non-empty text.
pub open spec fn is_nonempty(o: Option<String>) -> bool {
    o matches Some(s) && s@.len() > 0
}

/// The text or, when absent, an empty string.
pub fn string_or_empty(o: &Option<String>) -> (r: String)
    ensures
        r@ == text_or_empty(*o),
{
    match o {
        Some(s) => s.clone(),
        None => String::new(),
    }
}

/// `a` is ordered before or equal to `b`, comparing character codes from the
/// left (the order of `str::cmp`).
pub open spec fn text_le(a: Seq<char>, b: Seq<char>) -> bool
    decreases a.len(),
{
    if a.len() == 0 {
        true
    } else if b.len() == 0 {
        false
    } else if a[0] != b[0] {
        (a[0] as u32) < (b[0] as u32)
    } else {
        text_le(a.drop_first(), b.drop_first())
    }
}

/// Any two texts are ordered one way or the other.
pub proof fn lemma_text_le_total(a: Seq<char>, b: Seq<char>)
    ensures
        text_le(a, b) || text_le(b, a),
    decreases a.len(),
{
    if a.len() > 0 && b.len() > 0 {
        if a[0] == b[0] {
            lemma_text_le_total(a.drop_first(), b.drop_first());
        } else {
            vstd::utf8::char_u32_cast(a[0], a[0] as u32);
            vstd::utf8::char_u32_cast(b[0], b[0] as u32);
        }
    }
}

/// Texts ordered both ways are equal.
pub proof fn lemma_text_le_antisym(a: Seq<char>, b: Seq<char>)
    requires
        text_le(a, b),
        text_le(b, a),
    ensures
        a == b,
    decreases a.len(),
{
    if a.len() > 0 && b.len() > 0 {
        if a[0] == b[0] {
            lemma_text_le_antisym(a.drop_first(), b.drop_first());
            assert(a == seq![a[0]] + a.drop_first());
            assert(b == seq![b[0]] + b.drop_first());
        } else {
            vstd::utf8::char_u32_cast(a[0], a[0] as u32);
            vstd::utf8::char_u32_cast(b[0], b[0] as u32);
        }
    }
}

/// The order of texts is transitive.
pub proof fn lemma_text_le_trans(a: Seq<char>, b: Seq<char>, c: Seq<char>)
    requires
        text_le(a, b),
        text_le(b, c),
    ensures
        text_le(a, c),
    decreases a.len(),
{
    if a.len() > 0 && b.len() > 0 && c.len() > 0 && a[0] == b[0] && b[0] == c[0] {
        lemma_text_le_trans(a.drop_first(), b.drop_first(), c.drop_first());
    }
}

/// Compares two texts (see `text_le`).
pub fn text_le_exec(a: &str, b: &str) -> (r: bool)
    ensures
        r == text_le(a@, b@),
{
    let x = chars_of(a);
    let y = chars_of(b);
    let mut i: usize = 0;
    proof {
        assert(x@.skip(0) == x@);
        assert(y@.skip(0) == y@);
    }
    while i < x.len() && i < y.len() && x[i] == y[i]
        invariant
            i <= x@.len(),
            i <= y@.len(),
            text_le(x@, y@) == text_le(x@.skip(i as int), y@.skip(i as int)),
        decreases x@.len() - i,
    {
        proof {
            let xs = x@.skip(i as int);
            let ys = y@.skip(i as int);
            assert(xs.drop_first() == x@.skip(i + 1));
            assert(ys.drop_first() == y@.skip(i + 1));
        }
        i = i + 1;
    }
    if i == x.len() {
        true
    } else if i == y.len() {
        false
    } else {
        (x[i] as u32) < (y[i] as u32)
    }
}

/// Whether `p` is a prefix of `s`.
pub fn starts_with_text(s: &str, p: &str) -> (r: bool)
    ensures
        r == (p@.len() <= s@.len() && s@.take(p@.len() as int) == p@),
{
    let x = chars_of(s);
    let y = chars_of(p);
    if y.len() > x.len() {
        return false;
    }
    let mut i: usize = 0;
    while i < y.len()
        invariant
            y@.len() <= x@.len(),
            x@ == s@,
            y@ == p@,
            i <= y@.len(),
            forall|j: int| 0 <= j < i ==> x@[j] == y@[j],
        decreases y@.len() - i,
    {
        if x[i] != y[i] {
            assert(x@.take(y@.len() as int)[i as int] != y@[i as int]);
            return false;
        }
        i = i + 1;
    }
    assert(x@.take(y@.len() as int) == y@);
    true
}

/// `s` without its leading byte-order marks (U+FEFF).
pub open spec fn strip_bom(s: Seq<char>) -> Seq<char>
    decreases s.len(),
{
    if s.len() > 0 && s[0] == '\u{feff}' {
        strip_bom(s.drop_first())
    } else {
        s
    }
}

/// Removes leading byte-order marks (see `strip_bom`).
pub fn strip_bom_text(s: &str) -> (r: String)
    ensures
        r@ == strip_bom(s@),
{
    let v = chars_of(s);
    let mut i: usize = 0;
    assert(v@.skip(0) == v@);
    while i < v.len() && v[i] == '\u{feff}'
        invariant
            i <= v@.len(),
            strip_bom(v@) == strip_bom(v@.skip(i as int)),
        decreases v@.len() - i,
    {
        assert(v@.skip(i as int).drop_first() == v@.skip(i + 1));
        i = i + 1;
    }
    let rest = copy_range(&v, i, v.len());
    string_of(&rest)
}


/// Sanitizing keeps a name that is already clean: a non-empty text of at
/// most 40 ASCII letters, digits and '_' comes back unchanged.
pub proof fn lemma_sanitized_keeps_clean(s: Seq<char>)
    requires
        0 < s.len() <= 40,
        forall|j: int|
            0 <= j < s.len() ==> ('a' <= #[trigger] s[j] <= 'z') || ('A' <= s[j] <= 'Z') || ('0' <= s[j] <= '9')
                || s[j] == '_',
    ensures
        sanitized(s) == s,
{
    assert forall|j: int| 0 <= j < s.len() implies is_name_char(#[trigger] s[j]) by {
        vstd::utf8::char_u32_cast(s[j], s[j] as u32);
    }
    assert(!is_white_space(s[0]));
    assert(trim_start(s) == s);
    assert(!is_white_space(s.last()));
    assert(trimmed(s) == s);
    lemma_clean_chars_keeps_names(s);
    assert(strip_start_dash_dot(s) == s);
    assert(strip_end_dash_dot(s) == s);
}
} // verus!
