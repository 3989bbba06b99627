//! Reading the account behind a mirasim `mrs1:` token.
//!
//! A token is `mrs1:` followed by base64 of `[IV 12][TAG 16][ciphertext]`,
//! sealed with AES-256-GCM under the machine's 32-byte master key; the
//! plaintext is a JWT whose payload claims name the account (`email`,
//! `plan`, `plan_exp`). Every step that fails yields `None`.

use vstd::prelude::*;
use aes_gcm::aead::{Aead, AeadCore, KeyInit};
use crate::codec::{hex_decode, hex_decoded, hex_key, hex_to_key, is_surrogate, le_units, units_text, utf16_lossy, utf16le_to_string,
    b64_standard_decode, b64_standard_encode, b64_url_no_pad_decode, b64_url_safe_decode,
    base64_standard_decoded, base64_standard_encoded, base64_url_no_pad_decoded, base64_url_safe_decoded, is_standard_b64_char};
use crate::json::{json_i64_at, json_i64_member, json_parses, json_str_at, json_str_member, json_valid};
use crate::text::{chars_of, is_white_space, push_char, trim_start, concat_vecs, copy_range, opt_chars, second_piece, second_piece_chars, string_of,
    trim_chars, trimmed};
use vstd::utf8::{decode_utf8, valid_utf8};
use vstd::string::StringSliceAdditionalSpecFns;

verus! {

/// The prefix every sealed token carries.
pub open spec fn mrs1() -> Seq<char> {
    seq!['m', 'r', 's', '1', ':']
}

/// The result of AES-256-GCM opening `ct_tag` (ciphertext followed by the
/// 16-byte tag) with `key` and the 12-byte `nonce`; `None` when the tag
/// does not verify.
pub uninterp spec fn aes256gcm_opened(key: Seq<u8>, nonce: Seq<u8>, ct_tag: Seq<u8>) -> Option<Seq<u8>>;

/// The result of AES-256-GCM sealing `plain` with `key` and the 12-byte
/// `nonce`: the ciphertext followed by the 16-byte tag.
pub uninterp spec fn aes256gcm_sealed(key: Seq<u8>, nonce: Seq<u8>, plain: Seq<u8>) -> Option<Seq<u8>>;

/// `Aes256Gcm::new_from_slice(key)` then `Aead::decrypt(Nonce::from_slice(nonce), ct_tag)`.
/// Claimed: the answer is `aes256gcm_opened(key, nonce, ct_tag)`.
#[verifier::external_body]
fn aes_gcm_open(key: &[u8; 32], nonce: &[u8], ct_tag: &[u8]) -> (r: Option<Vec<u8>>)
    requires
        nonce@.len() == 12,
    ensures
        r matches Some(p) ==> aes256gcm_opened(key@, nonce@, ct_tag@) == Some(p@),
        r is None ==> aes256gcm_opened(key@, nonce@, ct_tag@) is None,
{
    let cipher = aes_gcm::Aes256Gcm::new_from_slice(key).ok()?;
    cipher.decrypt(aes_gcm::Nonce::from_slice(nonce), ct_tag).ok()
}

/// `Aes256Gcm::new_from_slice(key)` then `Aead::encrypt(Nonce::from_slice(nonce), plain)`.
/// Claimed: the answer is `aes256gcm_sealed(key, nonce, plain)`; it is
/// produced for every plaintext of at most 2^36 bytes (the crate's limit),
/// is 16 bytes longer than the plaintext, and opening it with the same key
/// and nonce gives the plaintext back.
#[verifier::external_body]
fn aes_gcm_seal(key: &[u8; 32], nonce: &[u8], plain: &[u8]) -> (r: Option<Vec<u8>>)
    requires
        nonce@.len() == 12,
    ensures
        r matches Some(c) ==> aes256gcm_sealed(key@, nonce@, plain@) == Some(c@),
        r is None ==> aes256gcm_sealed(key@, nonce@, plain@) is None,
        plain@.len() <= 0x10_0000_0000 ==> r is Some,
        r matches Some(c) ==> c@.len() == plain@.len() + 16 && aes256gcm_opened(key@, nonce@, c@) == Some(plain@),
{
    let cipher = aes_gcm::Aes256Gcm::new_from_slice(key).ok()?;
    cipher.encrypt(aes_gcm::Nonce::from_slice(nonce), plain).ok()
}

/// `Aes256Gcm::generate_nonce(OsRng)`: 12 random bytes. Nothing is claimed
/// of their value.
#[verifier::external_body]
fn random_nonce() -> (r: [u8; 12])
{
    aes_gcm::Aes256Gcm::generate_nonce(&mut aes_gcm::aead::OsRng).into()
}

/// `String::from_utf8(bytes).ok()`. Claimed: a string exactly when the
/// bytes are valid UTF-8, holding the characters they encode.
#[verifier::external_body]
fn string_from_utf8(bytes: Vec<u8>) -> (r: Option<String>)
    ensures
        r is Some <==> valid_utf8(bytes@),
        r matches Some(s) ==> s@ == decode_utf8(bytes@),
{
    String::from_utf8(bytes).ok()
}

/// `s` with `mrs1:` removed from its front, if it starts so.
pub open spec fn strip_mrs1(s: Seq<char>) -> Option<Seq<char>> {
    if s.len() >= 5 && s.take(5) == mrs1() {
        Some(s.skip(5))
    } else {
        None
    }
}

/// The bytes that the trimmed `s` decodes to as standard base64, or failing
/// that as URL-safe base64.
pub open spec fn lenient_b64(s: Seq<char>) -> Option<Seq<u8>> {
    match base64_standard_decoded(trimmed(s)) {
        Some(b) => Some(b),
        None => base64_url_safe_decoded(trimmed(s)),
    }
}

/// The plaintext bytes of a sealed token: the IV and tag are split off the
/// decoded body and the rest is opened with `key`.
pub open spec fn opened_token(token: Seq<char>, key: Seq<u8>) -> Option<Seq<u8>> {
    match strip_mrs1(token) {
        None => None,
        Some(body) => match lenient_b64(body) {
            None => None,
            Some(raw) => if raw.len() <= 28 {
                None
            } else {
                aes256gcm_opened(key, raw.take(12), raw.skip(28) + raw.subrange(12, 28))
            },
        },
    }
}

/// The text sealed in `token` under `key` (it must be UTF-8).
pub open spec fn decrypted_token(token: Seq<char>, key: Seq<u8>) -> Option<Seq<char>> {
    match opened_token(token, key) {
        Some(p) => if valid_utf8(p) {
            Some(decode_utf8(p))
        } else {
            None
        },
        None => None,
    }
}

/// Standard base64 of the trimmed `s`, falling back to URL-safe base64.
fn b64_lenient(s: &[char]) -> (r: Option<Vec<u8>>)
    ensures
        r matches Some(b) ==> lenient_b64(s@) == Some(b@),
        r is None ==> lenient_b64(s@) is None,
{
    let t = trim_chars(s);
    let ts = string_of(&t);
    match b64_standard_decode(ts.as_str()) {
        Some(b) => Some(b),
        None => b64_url_safe_decode(ts.as_str()),
    }
}

/// Opens a sealed `mrs1:` token with `key` and returns the text inside (the
/// JWT); `None` when the token is not `mrs1:`, not base64, too short, does
/// not authenticate under `key`, or is not UTF-8.
pub fn decrypt_token(token: &str, key: &[u8; 32]) -> (r: Option<String>)
    ensures
        opt_chars(r) == decrypted_token(token@, key@),
{
    let v = chars_of(token);
    if !(v.len() >= 5 && v[0] == 'm' && v[1] == 'r' && v[2] == 's' && v[3] == '1' && v[4] == ':') {
        proof {
            if v@.len() >= 5 && v@.take(5) == mrs1() {
                assert(v@.take(5)[0] == v@[0]);
                assert(v@.take(5)[1] == v@[1]);
                assert(v@.take(5)[2] == v@[2]);
                assert(v@.take(5)[3] == v@[3]);
                assert(v@.take(5)[4] == v@[4]);
            }
        }
        return None;
    }
    assert(v@.take(5) == mrs1());
    let body = copy_range(&v, 5, v.len());
    assert(body@ == v@.skip(5));
    let raw = match b64_lenient(&body) {
        Some(raw) => raw,
        None => return None,
    };
    if raw.len() <= 28 {
        return None;
    }
    let iv = copy_range(&raw, 0, 12);
    let tag = copy_range(&raw, 12, 28);
    let ct = copy_range(&raw, 28, raw.len());
    let ct_tag = concat_vecs(&ct, &tag);
    assert(iv@ == raw@.take(12));
    assert(ct@ == raw@.skip(28));
    let plain = match aes_gcm_open(key, &iv, &ct_tag) {
        Some(p) => p,
        None => return None,
    };
    string_from_utf8(plain)
}


/// A text made of standard base64 characters has nothing to trim.
proof fn lemma_b64_text_untrimmed(s: Seq<char>)
    requires
        forall|i: int| 0 <= i < s.len() ==> is_standard_b64_char(#[trigger] s[i]),
    ensures
        trimmed(s) == s,
{
    assert(s.len() == 0 || !is_white_space(s[0]));
    assert(trim_start(s) == s);
    assert(s.len() == 0 || !is_white_space(s.last()));
}

/// The body of a token sealed from the bytes `plain` under `key` and `iv`:
/// `[IV][TAG][ciphertext]`, where AES-GCM gave ciphertext followed by tag.
pub open spec fn sealed_body(key: Seq<u8>, iv: Seq<u8>, plain: Seq<u8>) -> Option<Seq<u8>> {
    match aes256gcm_sealed(key, iv, plain) {
        Some(c) => Some(iv + c.skip(c.len() - 16) + c.take(c.len() - 16)),
        None => None,
    }
}

/// Seals the text `plain` into an `mrs1:` token under `key` with the nonce
/// `iv`. The token opens again with `key` to `plain` whenever `plain` is not
/// empty (an empty plaintext gives a token too short to be accepted).
pub fn encrypt_token(plain: &str, key: &[u8; 32], iv: &[u8; 12]) -> (r: Option<String>)
    ensures
        r is Some <==> plain.spec_bytes().len() <= 0x10_0000_0000 && plain.spec_bytes().len() <= usize::MAX / 2
            - 28,
        r is Some ==> sealed_body(key@, iv@, plain.spec_bytes()) is Some,
        r matches Some(t) ==> t@ == mrs1() + base64_standard_encoded(sealed_body(key@, iv@, plain.spec_bytes())->0),
        r matches Some(t) ==> {
            &&& strip_mrs1(t@) matches Some(body)
            &&& base64_standard_decoded(body) == sealed_body(key@, iv@, plain.spec_bytes())
        },
        r matches Some(t) ==> (plain@.len() > 0 <==> decrypted_token(t@, key@) == Some(plain@)),
{
    let bytes = plain.as_bytes();
    if bytes.len() as u64 > 0x10_0000_0000 || bytes.len() > usize::MAX / 2 - 28 {
        return None;
    }
    let sealed = match aes_gcm_seal(key, iv.as_slice(), bytes) {
        Some(c) => c,
        None => return None,
    };
    let n = sealed.len();
    let ct = copy_range(&sealed, 0, n - 16);
    let tag = copy_range(&sealed, n - 16, n);
    let head = concat_vecs(iv.as_slice(), &tag);
    let buf = concat_vecs(&head, &ct);
    assert(buf@ == iv@ + sealed@.skip(n - 16) + sealed@.take(n - 16));
    let enc = b64_standard_encode(&buf);
    let mut out = String::new();
    push_char(&mut out, 'm');
    push_char(&mut out, 'r');
    push_char(&mut out, 's');
    push_char(&mut out, '1');
    push_char(&mut out, ':');
    assert(out@ == mrs1());
    out.append(enc.as_str());
    proof {
        let t = out@;
        assert(t.take(5) == mrs1());
        assert(t.skip(5) == enc@);
        lemma_b64_text_untrimmed(enc@);
        let raw = buf@;
        let body = iv@ + sealed@.skip(n - 16) + sealed@.take(n - 16);
        assert(raw.take(12) == iv@);
        assert(raw.subrange(12, 28) == sealed@.skip(n - 16));
        assert(raw.skip(28) == sealed@.take(n - 16));
        assert(raw.skip(28) + raw.subrange(12, 28) == sealed@);
        vstd::utf8::encode_utf8_valid_utf8(plain@);
        vstd::utf8::encode_utf8_decode_utf8(plain@);
        if plain@.len() > 0 {
            vstd::utf8::encode_utf8_first_scalar(plain@);
            assert(raw.len() > 28);
        } else {
            assert(plain.spec_bytes().len() == 0);
            assert(raw.len() == 28);
        }
    }
    Some(out)
}

/// Seals `plain` under `key` with a fresh random nonce (see `encrypt_token`).
pub fn seal_token(plain: &str, key: &[u8; 32]) -> (r: Option<String>)
    ensures
        r matches Some(t) ==> (plain@.len() > 0 <==> decrypted_token(t@, key@) == Some(plain@)),
        r is Some <==> plain.spec_bytes().len() <= 0x10_0000_0000 && plain.spec_bytes().len() <= usize::MAX / 2
            - 28,
{
    let iv = random_nonce();
    encrypt_token(plain, key, &iv)
}


/// `s` without its trailing '=' characters.
pub open spec fn strip_end_eq(s: Seq<char>) -> Seq<char>
    decreases s.len(),
{
    if s.len() > 0 && s.last() == '=' {
        strip_end_eq(s.drop_last())
    } else {
        s
    }
}

/// The decoded payload (second dot-separated segment) of a JWT: trimmed,
/// trailing '=' dropped, then URL-safe base64 without padding.
pub open spec fn jwt_payload(jwt: Seq<char>) -> Option<Seq<u8>> {
    match second_piece(jwt, '.') {
        Some(p) => base64_url_no_pad_decoded(strip_end_eq(trimmed(p))),
        None => None,
    }
}

/// The claims of a JWT: its payload, when that is a JSON document.
pub open spec fn jwt_claims_of(jwt: Seq<char>) -> Option<Seq<u8>> {
    match jwt_payload(jwt) {
        Some(b) => if json_valid(b) {
            Some(b)
        } else {
            None
        },
        None => None,
    }
}

/// A non-empty string claim, trimmed.
pub open spec fn claim_text(claims: Seq<u8>, key: Seq<char>) -> Option<Seq<char>> {
    match json_str_member(claims, key) {
        Some(s) => if trimmed(s).len() > 0 {
            Some(trimmed(s))
        } else {
            None
        },
        None => None,
    }
}

/// `s` without its trailing '=' characters.
fn strip_end_eq_chars(v: &[char]) -> (r: Vec<char>)
    ensures
        r@ == strip_end_eq(v@),
{
    let mut k = v.len();
    assert(v@.take(v@.len() as int) == v@);
    while k > 0 && v[k - 1] == '='
        invariant
            k <= v@.len(),
            strip_end_eq(v@) == strip_end_eq(v@.take(k as int)),
        decreases k,
    {
        assert(v@.take(k as int).drop_last() == v@.take(k - 1));
        k = k - 1;
    }
    assert(v@.take(v@.len() as int) == v@);
    copy_range(v, 0, k)
}

/// The claims of a JWT (see `jwt_claims_of`), as JSON text.
pub fn jwt_claims(jwt: &str) -> (r: Option<Vec<u8>>)
    ensures
        r matches Some(c) ==> jwt_claims_of(jwt@) == Some(c@),
        r is None ==> jwt_claims_of(jwt@) is None,
{
    let v = chars_of(jwt);
    let payload = match second_piece_chars(&v, '.') {
        Some(p) => p,
        None => return None,
    };
    let t = trim_chars(&payload);
    let u = strip_end_eq_chars(&t);
    let text = string_of(&u);
    let bytes = match b64_url_no_pad_decode(text.as_str()) {
        Some(b) => b,
        None => return None,
    };
    if json_parses(&bytes) {
        Some(bytes)
    } else {
        None
    }
}

/// A non-empty string claim, trimmed (see `claim_text`).
pub fn str_claim(claims: &[u8], key: &str) -> (r: Option<String>)
    ensures
        opt_chars(r) == claim_text(claims@, key@),
{
    let s = match json_str_at(claims, key) {
        Some(s) => s,
        None => return None,
    };
    let v = chars_of(s.as_str());
    let t = trim_chars(&v);
    if t.len() == 0 {
        None
    } else {
        Some(string_of(&t))
    }
}

/// The fields of an account that its token's JWT names.
#[derive(Clone, Debug, Default)]
pub struct Account {
    pub email: Option<String>,
    pub plan: Option<String>,
    /// Plan expiry, Unix seconds (the `plan_exp` claim).
    pub plan_exp: Option<i64>,
}

impl View for Account {
    type V = (Option<Seq<char>>, Option<Seq<char>>, Option<i64>);

    open spec fn view(&self) -> Self::V {
        (opt_chars(self.email), opt_chars(self.plan), self.plan_exp)
    }
}

/// The account fields that the claims name.
pub open spec fn account_fields(claims: Seq<u8>) -> (Option<Seq<char>>, Option<Seq<char>>, Option<i64>) {
    (claim_text(claims, "email"@), claim_text(claims, "plan"@), json_i64_member(claims, "plan_exp"@))
}

/// The account named by the JWT sealed in `token` under `key`.
pub open spec fn token_account(token: Seq<char>, key: Seq<u8>) -> Option<(Option<Seq<char>>, Option<Seq<char>>, Option<i64>)> {
    match decrypted_token(token, key) {
        Some(jwt) => match jwt_claims_of(jwt) {
            Some(c) => Some(account_fields(c)),
            None => None,
        },
        None => None,
    }
}

/// Opens `token` with the master key and reads the account fields of its
/// JWT: `email` and `plan` (non-empty strings, trimmed) and `plan_exp`.
pub fn account_of(key: &[u8; 32], token: &str) -> (r: Option<Account>)
    ensures
        r matches Some(a) ==> token_account(token@, key@) == Some(a@),
        r is None ==> token_account(token@, key@) is None,
{
    let jwt = match decrypt_token(token, key) {
        Some(j) => j,
        None => return None,
    };
    let claims = match jwt_claims(jwt.as_str()) {
        Some(c) => c,
        None => return None,
    };
    Some(Account {
        email: str_claim(&claims, "email"),
        plan: str_claim(&claims, "plan"),
        plan_exp: json_i64_at(&claims, "plan_exp"),
    })
}

/// The e-mail of the account behind `token` (see `account_of`).
pub fn email_of(key: &[u8; 32], token: &str) -> (r: Option<String>)
    ensures
        opt_chars(r) == match token_account(token@, key@) {
            Some(a) => a.0,
            None => None,
        },
{
    match account_of(key, token) {
        Some(a) => a.email,
        None => None,
    }
}

/// The `email` claim of a JWT.
pub fn email_from_jwt(jwt: &str) -> (r: Option<String>)
    ensures
        opt_chars(r) == match jwt_claims_of(jwt@) {
            Some(c) => claim_text(c, "email"@),
            None => None,
        },
{
    match jwt_claims(jwt) {
        Some(c) => str_claim(&c, "email"),
        None => None,
    }
}

/// The `exp` claim of a JWT (access-token expiry, Unix seconds).
pub fn jwt_exp(jwt: &str) -> (r: Option<i64>)
    ensures
        r == match jwt_claims_of(jwt@) {
            Some(c) => json_i64_member(c, "exp"@),
            None => None,
        },
{
    match jwt_claims(jwt) {
        Some(c) => json_i64_at(&c, "exp"),
        None => None,
    }
}


/// The DPAPI blob stored (in hexadecimal) in `secret.key`, whose text is `raw`.
pub fn secret_blob(raw: &str) -> (r: Option<Vec<u8>>)
    ensures
        r matches Some(b) ==> hex_decoded(trimmed(raw@)) == Some(b@),
        r is None ==> hex_decoded(trimmed(raw@)) is None,
{
    let v = chars_of(raw);
    let t = trim_chars(&v);
    let s = string_of(&t);
    hex_decode(s.as_str())
}

/// The master key from what DPAPI restored of the blob: UTF-16LE text of 64
/// hexadecimal digits.
pub fn key_from_unprotected(bytes: &[u8]) -> (r: Option<[u8; 32]>)
    ensures
        r matches Some(k) ==> hex_key(utf16_lossy(le_units(bytes@))) == Some(k@),
        r is None ==> hex_key(utf16_lossy(le_units(bytes@))) is None,
        (forall|i: int| 0 <= i < le_units(bytes@).len() ==> !is_surrogate(#[trigger] le_units(bytes@)[i])) ==> match r {
            Some(k) => hex_key(units_text(le_units(bytes@))) == Some(k@),
            None => hex_key(units_text(le_units(bytes@))) is None,
        },
{
    let text = utf16le_to_string(bytes);
    hex_to_key(text.as_str())
}


/// The account read from a token is what its JWT claims say: when `token`
/// opens under `key` to a JWT whose claims are `c`, the e-mail and the plan
/// are the `email` and `plan` strings trimmed (none when absent or blank)
/// and the plan expiry is the `plan_exp` integer.
pub proof fn lemma_account_is_claims(token: Seq<char>, key: Seq<u8>, jwt: Seq<char>, c: Seq<u8>)
    requires
        decrypted_token(token, key) == Some(jwt),
        jwt_claims_of(jwt) == Some(c),
    ensures
        token_account(token, key) matches Some(x) && {
            &&& x.0 == match json_str_member(c, "email"@) {
                Some(s) => if trimmed(s).len() > 0 {
                    Some(trimmed(s))
                } else {
                    None
                },
                None => None,
            }
            &&& x.1 == match json_str_member(c, "plan"@) {
                Some(s) => if trimmed(s).len() > 0 {
                    Some(trimmed(s))
                } else {
                    None
                },
                None => None,
            }
            &&& x.2 == json_i64_member(c, "plan_exp"@)
        },
{
}
} // verus!
