//! Deciding what the usage panel shows from the `/v1/limits` sources: the
//! upstream relay (queried with the logged-in account's access JWT) and the
//! local relay; which failure the panel reports.

use vstd::prelude::*;
use crate::accounts::setting_auth;
use crate::json::{json_array_at, json_array_member, json_parses, json_valid};
use crate::stamp::{decimal, push_decimal};
use crate::text::{opt_chars, strip_bom};
use crate::token::{decrypt_token, decrypted_token};
use vstd::utf8::encode_utf8;

verus! {

/// The upstream relay.
pub const UPSTREAM: &'static str = "https://relay.mirasim.ai";

/// Why the upstream relay gave no usage.
#[derive(PartialEq, Eq, Structural, Debug, Clone, Copy)]
pub enum UpstreamErr {
    /// Not logged in, or the token cannot be opened: upstream was not asked.
    NoToken,
    /// 401/403, or the access token had already expired.
    Unauthorized,
    /// Network failure, another non-2xx status, or a body of the wrong shape.
    Other,
}

/// The error code the panel gets when neither upstream nor the local relay
/// answered: `token-expired` when upstream refused the token, else
/// `relay-not-found`.
pub fn relay_error(upstream: UpstreamErr) -> (r: &'static str)
    ensures
        r@ == match upstream {
            UpstreamErr::Unauthorized => "token-expired"@,
            _ => "relay-not-found"@,
        },
{
    match upstream {
        UpstreamErr::Unauthorized => "token-expired",
        UpstreamErr::NoToken | UpstreamErr::Other => "relay-not-found",
    }
}

/// An upstream body is accepted when it is JSON with a `windows` array
/// (possibly empty).
pub fn looks_like_upstream(body: &[u8]) -> (r: bool)
    ensures
        r == json_array_member(body@, "windows"@),
{
    json_array_at(body, "windows")
}

/// What an upstream answer with HTTP status `status` and text `body` gives:
/// 401/403 mean the token was refused; other statuses outside 200..=299 and
/// bodies that are not JSON with a `windows` array are `Other`; else the
/// body itself.
pub fn upstream_outcome(status: u16, body: String) -> (r: Result<String, UpstreamErr>)
    ensures
        (status == 401 || status == 403) ==> r == Err::<String, UpstreamErr>(UpstreamErr::Unauthorized),
        (status != 401 && status != 403 && !(200 <= status <= 299)) ==> r == Err::<String, UpstreamErr>(
            UpstreamErr::Other,
        ),
        200 <= status <= 299 ==> match r {
            Ok(b) => b@ == body@ && json_valid(encode_utf8(body@)) && json_array_member(
                encode_utf8(body@),
                "windows"@,
            ),
            Err(e) => e == UpstreamErr::Other && !(json_valid(encode_utf8(body@)) && json_array_member(
                encode_utf8(body@),
                "windows"@,
            )),
        },
{
    if status == 401 || status == 403 {
        return Err(UpstreamErr::Unauthorized);
    }
    if !(200 <= status && status <= 299) {
        return Err(UpstreamErr::Other);
    }
    let ok = {
        let bytes = body.as_str().as_bytes();
        json_parses(bytes) && looks_like_upstream(bytes)
    };
    if ok {
        Ok(body)
    } else {
        Err(UpstreamErr::Other)
    }
}

/// Whether an access token with expiry `exp` (Unix seconds) counts as
/// expired at `now`, allowing 30 seconds of clock skew.
pub fn access_expired(exp: Option<i64>, now: i64) -> (r: bool)
    ensures
        r == match exp {
            Some(e) => e + 30 < now,
            None => false,
        },
{
    match exp {
        Some(e) => (e as i128) + 30 < (now as i128),
        None => false,
    }
}

/// The access JWT of the account logged in according to the text of
/// `setting.json`: its `auth.token`, when a non-empty string, opened with
/// the master key.
pub fn current_access_jwt(key: &[u8; 32], setting: &str) -> (r: Option<String>)
    ensures
        opt_chars(r) == {
            match crate::accounts::setting_token(encode_utf8(strip_bom(setting@))) {
                Some(t) => if t.len() > 0 {
                    decrypted_token(t, key@)
                } else {
                    None
                },
                None => None,
            }
        },
{
    let auth = setting_auth(setting);
    match auth.token {
        Some(t) => if t.as_str().is_empty() {
            None
        } else {
            decrypt_token(t.as_str(), key)
        },
        None => None,
    }
}

/// Where usage came from, and its JSON text.
#[derive(Debug)]
pub struct LimitsResult {
    pub json: String,
    pub endpoint: String,
}

/// The address of the local relay on `port`.
pub fn local_endpoint(port: u16) -> (r: String)
    ensures
        r@ == "http://127.0.0.1:"@ + decimal(port as nat),
{
    let mut s = String::from_str("http://127.0.0.1:");
    push_decimal(&mut s, port as u64);
    s
}

} // verus!
