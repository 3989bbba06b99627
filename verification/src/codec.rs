//! Byte codecs: hexadecimal text, UTF-16LE and base64.

use vstd::prelude::*;
use base64::Engine;
use crate::text::{chars_of, is_white_space, trim_chars, trim_start, trimmed};

verus! {

/// Whether `c` is an ASCII hexadecimal digit.
pub open spec fn is_hex_digit(c: char) -> bool {
    ('0' <= c && c <= '9') || ('a' <= c && c <= 'f') || ('A' <= c && c <= 'F')
}

/// The value of a hexadecimal digit.
pub open spec fn hex_val(c: char) -> int {
    if '0' <= c && c <= '9' {
        c as int - '0' as int
    } else if 'a' <= c && c <= 'f' {
        c as int - 'a' as int + 10
    } else {
        c as int - 'A' as int + 10
    }
}

/// The bytes that the hexadecimal text `s` spells, two digits per byte, high
/// digit first; `None` when `s` is empty, of odd length or holds anything
/// but hexadecimal digits.
pub open spec fn hex_decoded(s: Seq<char>) -> Option<Seq<u8>> {
    if s.len() == 0 || s.len() % 2 != 0 || !(forall|i: int| 0 <= i < s.len() ==> is_hex_digit(#[trigger] s[i])) {
        None
    } else {
        Some(Seq::new(s.len() / 2, |i: int| (16 * hex_val(s[2 * i]) + hex_val(s[2 * i + 1])) as u8))
    }
}

fn hex_digit_value(c: char) -> (r: u8)
    requires
        is_hex_digit(c),
    ensures
        r == hex_val(c),
        r < 16,
{
    if '0' <= c && c <= '9' {
        (c as u32 - '0' as u32) as u8
    } else if 'a' <= c && c <= 'f' {
        (c as u32 - 'a' as u32 + 10) as u8
    } else {
        (c as u32 - 'A' as u32 + 10) as u8
    }
}

fn all_hex(v: &[char]) -> (r: bool)
    ensures
        r == (forall|i: int| 0 <= i < v@.len() ==> is_hex_digit(#[trigger] v@[i])),
{
    let mut i: usize = 0;
    while i < v.len()
        invariant
            i <= v@.len(),
            forall|j: int| 0 <= j < i ==> is_hex_digit(#[trigger] v@[j]),
        decreases v@.len() - i,
    {
        let c = v[i];
        if !(('0' <= c && c <= '9') || ('a' <= c && c <= 'f') || ('A' <= c && c <= 'F')) {
            assert(!is_hex_digit(v@[i as int]));
            return false;
        }
        i = i + 1;
    }
    true
}

fn hex_pairs(v: &[char]) -> (r: Vec<u8>)
    requires
        v@.len() % 2 == 0,
        forall|i: int| 0 <= i < v@.len() ==> is_hex_digit(#[trigger] v@[i]),
    ensures
        r@ == Seq::new(v@.len() / 2, |i: int| (16 * hex_val(v@[2 * i]) + hex_val(v@[2 * i + 1])) as u8),
{
    let mut out: Vec<u8> = Vec::new();
    let n = v.len() / 2;
    let mut i: usize = 0;
    while i < n
        invariant
            i <= n,
            n == v@.len() / 2,
            2 * n <= v@.len(),
            v@.len() <= usize::MAX,
            v@.len() % 2 == 0,
            forall|i: int| 0 <= i < v@.len() ==> is_hex_digit(#[trigger] v@[i]),
            out@.len() == i,
            forall|j: int| 0 <= j < i ==> #[trigger] out@[j] == (16 * hex_val(v@[2 * j]) + hex_val(v@[2 * j + 1])) as u8,
        decreases n - i,
    {
        let hi = hex_digit_value(v[2 * i]);
        let lo = hex_digit_value(v[2 * i + 1]);
        out.push(hi * 16 + lo);
        i = i + 1;
    }
    assert(out@ == Seq::new(v@.len() / 2, |i: int| (16 * hex_val(v@[2 * i]) + hex_val(v@[2 * i + 1])) as u8));
    out
}

/// Decodes hexadecimal text (see `hex_decoded`).
pub fn hex_decode(s: &str) -> (r: Option<Vec<u8>>)
    ensures
        r matches Some(b) ==> hex_decoded(s@) == Some(b@),
        r is None ==> hex_decoded(s@) is None,
{
    let v = chars_of(s);
    if v.len() == 0 || v.len() % 2 != 0 || !all_hex(&v) {
        return None;
    }
    Some(hex_pairs(&v))
}

/// The 32-byte key that the text `s` spells in hexadecimal, once trimmed:
/// exactly 64 hexadecimal digits are required.
pub open spec fn hex_key(s: Seq<char>) -> Option<Seq<u8>> {
    if trimmed(s).len() == 64 {
        hex_decoded(trimmed(s))
    } else {
        None
    }
}

/// Reads a 32-byte key written as 64 hexadecimal digits (see `hex_key`).
pub fn hex_to_key(s: &str) -> (r: Option<[u8; 32]>)
    ensures
        r matches Some(k) ==> hex_key(s@) == Some(k@),
        r is None ==> hex_key(s@) is None,
{
    let all = chars_of(s);
    let v = trim_chars(&all);
    if v.len() != 64 || !all_hex(&v) {
        return None;
    }
    let bytes = hex_pairs(&v);
    let mut out = [0u8; 32];
    for i in 0..32
        invariant
            bytes@.len() == 32,
            forall|j: int| 0 <= j < i ==> #[trigger] out@[j] == bytes@[j],
    {
        out[i] = bytes[i];
    }
    assert(out@ == bytes@);
    Some(out)
}

/// The UTF-16 code units spelled little-endian by `b`, two bytes each (a
/// trailing odd byte is ignored).
pub open spec fn le_units(b: Seq<u8>) -> Seq<u16> {
    Seq::new(b.len() / 2, |i: int| (b[2 * i] as int + 256 * b[2 * i + 1] as int) as u16)
}

/// What `String::from_utf16_lossy` makes of the code units `u`.
pub uninterp spec fn utf16_lossy(u: Seq<u16>) -> Seq<char>;

/// Whether `u` is a UTF-16 surrogate code unit.
pub open spec fn is_surrogate(u: u16) -> bool {
    0xD800 <= u && u <= 0xDFFF
}

/// The characters whose codes are the units `u`.
pub open spec fn units_text(u: Seq<u16>) -> Seq<char> {
    Seq::new(u.len(), |i: int| (u[i] as u32) as char)
}

/// `String::from_utf16_lossy`. Claimed: the result is `utf16_lossy(units)`;
/// units that are no surrogates decode one-to-one to the same code point.
#[verifier::external_body]
fn from_utf16_lossy(units: &[u16]) -> (r: String)
    ensures
        r@ == utf16_lossy(units@),
        (forall|i: int| 0 <= i < units@.len() ==> !is_surrogate(#[trigger] units@[i])) ==> r@
            == units_text(units@),
{
    String::from_utf16_lossy(units)
}

/// Decodes UTF-16LE bytes, replacing invalid sequences; bytes that hold no
/// surrogate unit decode unit by unit.
pub fn utf16le_to_string(bytes: &[u8]) -> (r: String)
    ensures
        r@ == utf16_lossy(le_units(bytes@)),
        (forall|i: int| 0 <= i < le_units(bytes@).len() ==> !is_surrogate(#[trigger] le_units(bytes@)[i])) ==> r@
            == units_text(le_units(bytes@)),
{
    let mut units: Vec<u16> = Vec::new();
    let n = bytes.len() / 2;
    let mut i: usize = 0;
    while i < n
        invariant
            i <= n,
            n == bytes@.len() / 2,
            2 * n <= bytes@.len(),
            bytes@.len() <= usize::MAX,
            units@ == le_units(bytes@).take(i as int),
        decreases n - i,
    {
        let u = bytes[2 * i] as u16 + 256 * (bytes[2 * i + 1] as u16);
        units.push(u);
        assert(units@ == le_units(bytes@).take(i + 1));
        i = i + 1;
    }
    assert(units@ == le_units(bytes@));
    from_utf16_lossy(&units)
}

/// The lowercase hexadecimal digit of `v` (0..=15).
pub open spec fn hex_digit_char(v: int) -> char {
    if v < 10 {
        ('0' as int + v) as char
    } else {
        ('a' as int + v - 10) as char
    }
}

/// `b` in lowercase hexadecimal, two digits per byte, high digit first.
pub open spec fn hex_text(b: Seq<u8>) -> Seq<char> {
    Seq::new(
        2 * b.len(),
        |i: int|
            if i % 2 == 0 {
                hex_digit_char(b[i / 2] as int / 16)
            } else {
                hex_digit_char(b[i / 2] as int % 16)
            },
    )
}

/// The UTF-16LE bytes of text made of characters below U+10000.
pub open spec fn utf16le_bytes(t: Seq<char>) -> Seq<u8> {
    Seq::new(
        2 * t.len(),
        |i: int|
            if i % 2 == 0 {
                (t[i / 2] as u32 % 256) as u8
            } else {
                (t[i / 2] as u32 / 256 % 256) as u8
            },
    )
}

proof fn lemma_hex_digit_char(v: int)
    requires
        0 <= v < 16,
    ensures
        is_hex_digit(hex_digit_char(v)),
        (hex_digit_char(v) as u32) < 128,
        hex_val(hex_digit_char(v)) == v,
{
}

proof fn lemma_hex_text_digits(k: Seq<u8>)
    ensures
        forall|i: int|
            0 <= i < hex_text(k).len() ==> is_hex_digit(#[trigger] hex_text(k)[i]) && (hex_text(k)[i] as u32) < 128,
        forall|j: int|
            0 <= j < k.len() ==> hex_val(#[trigger] hex_text(k)[2 * j]) == k[j] as int / 16 && hex_val(
                hex_text(k)[2 * j + 1],
            ) == k[j] as int % 16,
{
    let t = hex_text(k);
    assert forall|i: int| 0 <= i < t.len() implies is_hex_digit(#[trigger] t[i]) && (t[i] as u32) < 128 by {
        let q = i / 2;
        let x = k[q] as int;
        if i % 2 == 0 {
            lemma_hex_digit_char(x / 16);
        } else {
            lemma_hex_digit_char(x % 16);
        }
    }
    assert forall|j: int| 0 <= j < k.len() implies hex_val(#[trigger] t[2 * j]) == k[j] as int / 16 && hex_val(
        t[2 * j + 1],
    ) == k[j] as int % 16 by {
        assert((2 * j) / 2 == j && (2 * j) % 2 == 0);
        assert((2 * j + 1) / 2 == j && (2 * j + 1) % 2 == 1);
        lemma_hex_digit_char(k[j] as int / 16);
        lemma_hex_digit_char(k[j] as int % 16);
    }
}

proof fn lemma_ascii_units(t: Seq<char>)
    requires
        forall|i: int| 0 <= i < t.len() ==> (#[trigger] t[i] as u32) < 128,
    ensures
        le_units(utf16le_bytes(t)).len() == t.len(),
        forall|i: int| 0 <= i < t.len() ==> (#[trigger] le_units(utf16le_bytes(t))[i]) as u32 == t[i] as u32,
        units_text(le_units(utf16le_bytes(t))) == t,
{
    let b = utf16le_bytes(t);
    let u = le_units(b);
    assert forall|i: int| 0 <= i < t.len() implies (#[trigger] u[i]) as u32 == t[i] as u32 by {
        assert((2 * i) / 2 == i && (2 * i) % 2 == 0);
        assert((2 * i + 1) / 2 == i && (2 * i + 1) % 2 == 1);
        let c = t[i] as u32;
        assert(c < 128);
        assert(c % 256 == c && c / 256 == 0) by (nonlinear_arith)
            requires
                0 <= c < 128,
        ;
        assert(b[2 * i] as int == c);
        assert(b[2 * i + 1] as int == 0);
    }
    assert forall|i: int| 0 <= i < t.len() implies #[trigger] units_text(u)[i] == t[i] by {
        vstd::utf8::char_u32_cast(t[i], u[i] as u32);
    }
    assert(units_text(u) =~= t);
}

/// The master key survives its storage form: written as lowercase
/// hexadecimal text in UTF-16LE, its units hold no surrogate and, read as
/// characters, spell the key again.
pub proof fn lemma_master_key_roundtrip(k: Seq<u8>)
    requires
        k.len() == 32,
    ensures
        forall|i: int|
            0 <= i < le_units(utf16le_bytes(hex_text(k))).len() ==> !is_surrogate(
                #[trigger] le_units(utf16le_bytes(hex_text(k)))[i],
            ),
        hex_key(units_text(le_units(utf16le_bytes(hex_text(k))))) == Some(k),
{
    let t = hex_text(k);
    lemma_hex_text_digits(k);
    lemma_ascii_units(t);
    assert(!is_white_space(t[0]));
    assert(trim_start(t) == t);
    assert(!is_white_space(t.last()));
    assert(trimmed(t) == t);
    assert(hex_decoded(t) =~= Some(k)) by {
        assert forall|i: int| 0 <= i < 32 implies (16 * hex_val(#[trigger] t[2 * i]) + hex_val(t[2 * i + 1])) as u8
            == k[i] by {
            assert(16 * (k[i] as int / 16) + k[i] as int % 16 == k[i] as int);
        }
        let d = Seq::new(t.len() / 2, |i: int| (16 * hex_val(t[2 * i]) + hex_val(t[2 * i + 1])) as u8);
        assert(d =~= k);
    }
}

/// What the base64 crate's `STANDARD` engine decodes `s` into (`None` on error).
pub uninterp spec fn base64_standard_decoded(s: Seq<char>) -> Option<Seq<u8>>;

/// What the base64 crate's `URL_SAFE` engine decodes `s` into (`None` on error).
pub uninterp spec fn base64_url_safe_decoded(s: Seq<char>) -> Option<Seq<u8>>;

/// What the base64 crate's `URL_SAFE_NO_PAD` engine decodes `s` into (`None` on error).
pub uninterp spec fn base64_url_no_pad_decoded(s: Seq<char>) -> Option<Seq<u8>>;

/// `base64::engine::general_purpose::STANDARD.decode`. Claimed: the result
/// is `base64_standard_decoded(s)`.
#[verifier::external_body]
pub(crate) fn b64_standard_decode(s: &str) -> (r: Option<Vec<u8>>)
    ensures
        r matches Some(b) ==> base64_standard_decoded(s@) == Some(b@),
        r is None ==> base64_standard_decoded(s@) is None,
{
    base64::engine::general_purpose::STANDARD.decode(s).ok()
}

/// `base64::engine::general_purpose::URL_SAFE.decode`. Claimed: the result
/// is `base64_url_safe_decoded(s)`.
#[verifier::external_body]
pub(crate) fn b64_url_safe_decode(s: &str) -> (r: Option<Vec<u8>>)
    ensures
        r matches Some(b) ==> base64_url_safe_decoded(s@) == Some(b@),
        r is None ==> base64_url_safe_decoded(s@) is None,
{
    base64::engine::general_purpose::URL_SAFE.decode(s).ok()
}

/// `base64::engine::general_purpose::URL_SAFE_NO_PAD.decode`. Claimed: the
/// result is `base64_url_no_pad_decoded(s)`.
#[verifier::external_body]
pub(crate) fn b64_url_no_pad_decode(s: &str) -> (r: Option<Vec<u8>>)
    ensures
        r matches Some(b) ==> base64_url_no_pad_decoded(s@) == Some(b@),
        r is None ==> base64_url_no_pad_decoded(s@) is None,
{
    base64::engine::general_purpose::URL_SAFE_NO_PAD.decode(s).ok()
}

/// Whether `c` belongs to the standard base64 alphabet or is the '=' pad.
pub open spec fn is_standard_b64_char(c: char) -> bool {
    ('A' <= c && c <= 'Z') || ('a' <= c && c <= 'z') || ('0' <= c && c <= '9') || c == '+' || c == '/'
        || c == '='
}

/// What the base64 crate's `STANDARD` engine encodes `b` into.
pub uninterp spec fn base64_standard_encoded(b: Seq<u8>) -> Seq<char>;

/// `base64::engine::general_purpose::STANDARD.encode`. Claimed: the text is
/// `base64_standard_encoded(b)`, made of the standard alphabet and '=' only,
/// and the same engine decodes it back to `b`. (The crate panics when the
/// encoded length overflows `usize`; the bound on `b` keeps clear of that.)
#[verifier::external_body]
pub(crate) fn b64_standard_encode(b: &[u8]) -> (r: String)
    requires
        b@.len() <= usize::MAX / 2,
    ensures
        r@ == base64_standard_encoded(b@),
        forall|i: int| 0 <= i < r@.len() ==> is_standard_b64_char(#[trigger] r@[i]),
        base64_standard_decoded(r@) == Some(b@),
{
    base64::engine::general_purpose::STANDARD.encode(b)
}

} // verus!
