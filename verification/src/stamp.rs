//! Calendar dates of Unix times, and the time stamps written in backup and
//! export file names.

use vstd::prelude::*;
use crate::text::{push_char, text_le};

verus! {

/// Whether `y` is a leap year of the Gregorian calendar.
pub open spec fn is_leap_year(y: int) -> bool {
    (y % 4 == 0 && y % 100 != 0) || y % 400 == 0
}

/// The number of days of month `m` (1..=12) of year `y`.
pub open spec fn days_in_month(y: int, m: int) -> int {
    if m == 2 {
        if is_leap_year(y) {
            29
        } else {
            28
        }
    } else if m == 4 || m == 6 || m == 9 || m == 11 {
        30
    } else {
        31
    }
}

/// The number of days of year `y` before the first of month `m` (1..=12).
pub open spec fn days_before_month(y: int, m: int) -> int {
    let base: int = if m == 1 {
        0
    } else if m == 2 {
        31
    } else if m == 3 {
        59
    } else if m == 4 {
        90
    } else if m == 5 {
        120
    } else if m == 6 {
        151
    } else if m == 7 {
        181
    } else if m == 8 {
        212
    } else if m == 9 {
        243
    } else if m == 10 {
        273
    } else if m == 11 {
        304
    } else {
        334
    };
    if m > 2 && is_leap_year(y) {
        base + 1
    } else {
        base
    }
}

/// The number of leap years from year 1 up to, not including, year `y`
/// (counted backwards, negatively, for years before 1).
pub open spec fn leap_years_before(y: int) -> int {
    (y - 1) / 4 - (y - 1) / 100 + (y - 1) / 400
}

/// The day number of the date `y-m-d`, counting 1970-01-01 as day 0.
pub open spec fn days_from_civil(y: int, m: int, d: int) -> int {
    365 * (y - 1970) + leap_years_before(y) - leap_years_before(1970) + days_before_month(y, m) + d - 1
}

/// Whether `y-m-d` is a valid date and is day number `days`.
pub open spec fn is_date_of_day(days: int, y: int, m: int, d: int) -> bool {
    &&& 1 <= m <= 12
    &&& 1 <= d <= days_in_month(y, m)
    &&& days_from_civil(y, m, d) == days
}

/// Days from the start of year 0 of a 400-year era (1 March) to the start
/// of year `k` of the era.
pub open spec fn era_year_start(k: int) -> int {
    365 * k + k / 4 - k / 100
}

/// Where in its era a day of the era (0..146097) falls: the year of the era
/// (each starting 1 March) and the day within that year.
proof fn lemma_year_of_era(doe: int) -> (r: (int, int))
    requires
        0 <= doe < 146097,
    ensures
        r.0 == (doe - doe / 1460 + doe / 36524 - doe / 146096) / 365,
        0 <= r.0 <= 399,
        r.1 == doe - era_year_start(r.0),
        0 <= r.1 <= 365,
        r.1 == 365 ==> (r.0 + 1) % 4 == 0 && ((r.0 + 1) % 100 != 0 || r.0 == 399),
{
    if doe == 146096 {
        assert(doe / 1460 == 100);
        assert(doe / 36524 == 4);
        assert(doe / 146096 == 1);
        let yoe = (doe - doe / 1460 + doe / 36524 - doe / 146096) / 365;
        assert(yoe == 399);
        assert(era_year_start(399) == 145731);
        (yoe, doe - era_year_start(yoe))
    } else {
        let c = doe / 36524;
        let s = doe % 36524;
        let q = s / 1461;
        let t = s % 1461;
        assert(0 <= c <= 3 && 0 <= s < 36524 && doe == 36524 * c + s);
        assert(0 <= q <= 24 && 0 <= t < 1461 && s == 1461 * q + t);
        assert(doe == 36524 * c + 1461 * q + t);
        let e: int = if 24 * c + q + t >= 1460 { 1 } else { 0 };
        assert(doe == 1460 * (25 * c + q) + (24 * c + q + t));
        assert(doe / 1460 == 25 * c + q + e) by (nonlinear_arith)
            requires
                doe == 1460 * (25 * c + q) + (24 * c + q + t),
                0 <= 24 * c + q + t < 2920,
                e == if 24 * c + q + t >= 1460 { 1int } else { 0int },
        ;
        assert(doe / 146096 == 0);
        let g = doe - doe / 1460 + doe / 36524 - doe / 146096;
        assert(g == 365 * (100 * c + 4 * q) + (t - e));
        assert(0 <= t - e <= 1459);
        let j = (t - e) / 365;
        assert(0 <= j <= 3);
        assert(g / 365 == 100 * c + 4 * q + j) by (nonlinear_arith)
            requires
                g == 365 * (100 * c + 4 * q) + (t - e),
                j == (t - e) / 365,
                0 <= t - e,
        ;
        let yoe = 100 * c + 4 * q + j;
        assert(yoe / 4 == 25 * c + q);
        assert(yoe / 100 == c);
        assert(era_year_start(yoe) == 36524 * c + 1461 * q + 365 * j);
        let doy = doe - era_year_start(yoe);
        assert(doy == t - 365 * j);
        if doy == 365 {
            assert(t == 1460);
            assert(q <= 23);
        }
        (yoe, doy)
    }
}


/// Days from 1 March to the first of the `mp`-th month after March (0..=11).
pub open spec fn march_month_start(mp: int) -> int {
    (153 * mp + 2) / 5
}

/// The month (0 = March .. 11 = February) and day of month of day `doy`
/// (0..=365) of a year that starts on 1 March.
proof fn lemma_month_of_year(doy: int) -> (r: (int, int))
    requires
        0 <= doy <= 365,
    ensures
        r.0 == (5 * doy + 2) / 153,
        0 <= r.0 <= 11,
        r.1 == doy - march_month_start(r.0) + 1,
        1 <= r.1,
        r.0 < 11 ==> r.1 <= (if r.0 == 1 || r.0 == 3 || r.0 == 6 || r.0 == 8 { 30int } else { 31int }),
        r.0 == 11 ==> r.1 <= 28 || (r.1 == 29 && doy == 365),
{
    let mp = (5 * doy + 2) / 153;
    assert(153 * mp <= 5 * doy + 2 < 153 * mp + 153) by (nonlinear_arith)
        requires
            mp == (5 * doy + 2) / 153,
            0 <= doy,
    ;
    assert(0 <= mp <= 11);
    let d = doy - march_month_start(mp) + 1;
    if mp == 0 {
        assert(march_month_start(0) == 0);
    } else if mp == 1 {
        assert(march_month_start(1) == 31);
    } else if mp == 2 {
        assert(march_month_start(2) == 61);
    } else if mp == 3 {
        assert(march_month_start(3) == 92);
    } else if mp == 4 {
        assert(march_month_start(4) == 122);
    } else if mp == 5 {
        assert(march_month_start(5) == 153);
    } else if mp == 6 {
        assert(march_month_start(6) == 184);
    } else if mp == 7 {
        assert(march_month_start(7) == 214);
    } else if mp == 8 {
        assert(march_month_start(8) == 245);
    } else if mp == 9 {
        assert(march_month_start(9) == 275);
    } else if mp == 10 {
        assert(march_month_start(10) == 306);
    } else {
        assert(march_month_start(11) == 337);
    }
    (mp, d)
}


/// The date of day number `days` (1970-01-01 is day 0) as computed by the
/// era/year-of-era/day-of-year method: year, month (1..=12), day.
pub open spec fn civil_from_days(days: int) -> (int, int, int) {
    let z = days + 719468;
    let era = z / 146097;
    let doe = z % 146097;
    let yoe = (doe - doe / 1460 + doe / 36524 - doe / 146096) / 365;
    let doy = doe - (365 * yoe + yoe / 4 - yoe / 100);
    let mp = (5 * doy + 2) / 153;
    let d = doy - (153 * mp + 2) / 5 + 1;
    let m = if mp < 10 { mp + 3 } else { mp - 9 };
    let y = yoe + era * 400;
    (if m <= 2 { y + 1 } else { y }, m, d)
}

proof fn lemma_leap_years_step(y: int)
    ensures
        leap_years_before(y + 1) == leap_years_before(y) + if is_leap_year(y) { 1int } else { 0int },
{
    assert(y / 4 - (y - 1) / 4 == if y % 4 == 0 { 1int } else { 0int }) by (nonlinear_arith);
    assert(y / 100 - (y - 1) / 100 == if y % 100 == 0 { 1int } else { 0int }) by (nonlinear_arith);
    assert(y / 400 - (y - 1) / 400 == if y % 400 == 0 { 1int } else { 0int }) by (nonlinear_arith);
    assert(y % 400 == 0 ==> y % 100 == 0 && y % 4 == 0) by (nonlinear_arith);
    assert(y % 100 == 0 ==> y % 4 == 0) by (nonlinear_arith);
}

/// The computed date of every day number is a valid date that is that day.
pub proof fn lemma_civil_from_days(days: int)
    ensures
        is_date_of_day(days, civil_from_days(days).0, civil_from_days(days).1, civil_from_days(days).2),
{
    let z = days + 719468;
    let era = z / 146097;
    let doe = z % 146097;
    assert(z == 146097 * era + doe && 0 <= doe < 146097) by (nonlinear_arith)
        requires
            era == z / 146097,
            doe == z % 146097,
    ;
    let (yoe, doy) = lemma_year_of_era(doe);
    let (mp, d) = lemma_month_of_year(doy);
    let m = if mp < 10 { mp + 3 } else { mp - 9 };
    let yc = yoe + era * 400;
    let y = if m <= 2 { yc + 1 } else { yc };
    assert(civil_from_days(days) == (y, m, d));
    assert((yc + 1) / 4 == 100 * era + (yoe + 1) / 4) by (nonlinear_arith)
        requires
            yc == yoe + era * 400,
            0 <= yoe,
    ;
    assert((yc + 1) / 100 == 4 * era + (yoe + 1) / 100) by (nonlinear_arith)
        requires
            yc == yoe + era * 400,
            0 <= yoe,
    ;
    assert((yc + 1) / 400 == era + (yoe + 1) / 400) by (nonlinear_arith)
        requires
            yc == yoe + era * 400,
            0 <= yoe,
    ;
    assert(yc / 4 == 100 * era + yoe / 4) by (nonlinear_arith)
        requires
            yc == yoe + era * 400,
            0 <= yoe,
    ;
    assert(yc / 100 == 4 * era + yoe / 100) by (nonlinear_arith)
        requires
            yc == yoe + era * 400,
            0 <= yoe,
    ;
    assert(yc / 400 == era) by (nonlinear_arith)
        requires
            yc == yoe + era * 400,
            0 <= yoe < 400,
    ;
    lemma_leap_years_step(yc);
    assert(leap_years_before(1970) == 477);
    if doy == 365 {
        assert((yc + 1) % 4 == (yoe + 1) % 4) by (nonlinear_arith)
            requires
                yc == yoe + era * 400,
        ;
        assert((yc + 1) % 100 == (yoe + 1) % 100) by (nonlinear_arith)
            requires
                yc == yoe + era * 400,
        ;
        assert(yoe == 399 ==> (yc + 1) % 400 == 0) by (nonlinear_arith)
            requires
                yc == yoe + era * 400,
        ;
        assert(is_leap_year(yc + 1));
    }
    if mp < 10 {
        assert(days_before_month(y, m) == 59 + march_month_start(mp) + if is_leap_year(yc) { 1int } else { 0int });
    } else {
        assert(days_before_month(y, m) == march_month_start(mp) - 306);
    }
}


/// The character of the decimal digit `d` (0..=9).
pub open spec fn digit_char(d: int) -> char {
    ((d + 48) as u8) as char
}

/// The decimal digits of `n`, most significant first.
pub open spec fn decimal(n: nat) -> Seq<char>
    decreases n,
{
    if n < 10 {
        seq![digit_char(n as int)]
    } else {
        decimal(n / 10).push(digit_char((n % 10) as int))
    }
}

/// The decimal digits of `n`, left-padded with '0' to at least `w` characters.
pub open spec fn zero_padded(n: nat, w: nat) -> Seq<char> {
    let s = decimal(n);
    if s.len() >= w {
        s
    } else {
        Seq::new((w - s.len()) as nat, |_i: int| '0') + s
    }
}

/// A zero-padded number is at least as long as the width asked for.
pub proof fn lemma_zero_padded_len(n: nat, w: nat)
    ensures
        zero_padded(n, w).len() >= w,
{
}

/// Appends the decimal digits of `n`.
pub fn push_decimal(out: &mut String, n: u64)
    ensures
        final(out)@ == old(out)@ + decimal(n as nat),
    decreases n,
{
    if n >= 10 {
        push_decimal(out, n / 10);
    }
    let c = ((n % 10) as u8 + 48) as char;
    push_char(out, c);
    proof {
        assert(c == digit_char((n % 10) as int));
    }
}

fn decimal_chars(out: &mut Vec<char>, n: u64)
    ensures
        final(out)@ == old(out)@ + decimal(n as nat),
    decreases n,
{
    if n >= 10 {
        decimal_chars(out, n / 10);
    }
    let c = ((n % 10) as u8 + 48) as char;
    out.push(c);
    proof {
        assert(c == digit_char((n % 10) as int));
    }
}

proof fn lemma_decimal_len_bound(n: nat)
    ensures
        decimal(n).len() >= 1,
        n < 10 ==> decimal(n).len() == 1,
        10 <= n < 100 ==> decimal(n).len() == 2,
        100 <= n < 1000 ==> decimal(n).len() == 3,
        1000 <= n < 10000 ==> decimal(n).len() == 4,
    decreases n,
{
    if n >= 10 {
        lemma_decimal_len_bound(n / 10);
    }
}

/// Appends `n` in decimal, left-padded with '0' to at least `w` characters.
pub fn push_zero_padded(out: &mut String, n: u64, w: usize)
    ensures
        final(out)@ == old(out)@ + zero_padded(n as nat, w as nat),
{
    let mut digits: Vec<char> = Vec::new();
    decimal_chars(&mut digits, n);
    assert(digits@ == decimal(n as nat));
    let len = digits.len();
    let ghost start = out@;
    if len < w {
        let mut k: usize = 0;
        while k < w - len
            invariant
                len < w,
                k <= w - len,
                out@ == start + Seq::new(k as nat, |_i: int| '0'),
            decreases w - len - k,
        {
            push_char(out, '0');
            k = k + 1;
            assert(out@ == start + Seq::new(k as nat, |_i: int| '0'));
        }
    }
    let ghost mid = out@;
    push_decimal(out, n);
    proof {
        if len < w {
            assert(out@ == start + (Seq::new((w - len) as nat, |_i: int| '0') + decimal(n as nat)));
        }
    }
}

/// The date of day number `days` (1970-01-01 is day 0) of the Gregorian
/// calendar: year, month, day.
pub fn civil_date(days: u64) -> (r: (u64, u64, u64))
    requires
        days <= u64::MAX / 86400,
    ensures
        (r.0 as int, r.1 as int, r.2 as int) == civil_from_days(days as int),
        is_date_of_day(days as int, r.0 as int, r.1 as int, r.2 as int),
{
    proof {
        lemma_civil_from_days(days as int);
    }
    let z = days + 719468;
    let era = z / 146097;
    let doe = z % 146097;
    let yoe = (doe - doe / 1460 + doe / 36524 - doe / 146096) / 365;
    proof {
        lemma_year_of_era(doe as int);
    }
    let doy = doe - (365 * yoe + yoe / 4 - yoe / 100);
    proof {
        lemma_month_of_year(doy as int);
    }
    let mp = (5 * doy + 2) / 153;
    let d = doy - (153 * mp + 2) / 5 + 1;
    let m = if mp < 10 { mp + 3 } else { mp - 9 };
    let y = yoe + era * 400;
    let y = if m <= 2 { y + 1 } else { y };
    (y, m, d)
}

/// The time stamp `YYYYMMDD-HHMMSS` (UTC) of Unix time `secs`.
pub open spec fn stamp_text(secs: nat) -> Seq<char> {
    let days = secs / 86400;
    let rem = secs % 86400;
    let (y, m, d) = civil_from_days(days as int);
    zero_padded(y as nat, 4) + zero_padded(m as nat, 2) + zero_padded(d as nat, 2) + seq!['-'] + zero_padded(
        rem / 3600,
        2,
    ) + zero_padded(rem % 3600 / 60, 2) + zero_padded(rem % 60, 2)
}

/// The backup time stamp of Unix time `secs`, `YYYYMMDD-HHMMSS` in UTC
/// (see `stamp_text`); the date is the calendar date of the day. Up to the
/// year 9999 it is 15 characters with '-' at index 8.
pub fn backup_stamp(secs: u64) -> (r: String)
    ensures
        r@ == stamp_text(secs as nat),
        civil_from_days((secs / 86400) as int).0 <= 9999 ==> r@.len() == 15 && r@[8] == '-',
{
    let days = secs / 86400;
    let rem = secs % 86400;
    let (y, m, d) = civil_date(days);
    let mut out = String::new();
    push_zero_padded(&mut out, y, 4);
    push_zero_padded(&mut out, m, 2);
    push_zero_padded(&mut out, d, 2);
    push_char(&mut out, '-');
    push_zero_padded(&mut out, rem / 3600, 2);
    push_zero_padded(&mut out, rem % 3600 / 60, 2);
    push_zero_padded(&mut out, rem % 60, 2);
    proof {
        lemma_decimal_len_bound(y as nat);
        lemma_decimal_len_bound(m as nat);
        lemma_decimal_len_bound(d as nat);
        lemma_decimal_len_bound((rem / 3600) as nat);
        lemma_decimal_len_bound((rem % 3600 / 60) as nat);
        lemma_decimal_len_bound((rem % 60) as nat);
    }
    out
}


/// `a` comes strictly before `b` in text order.
pub open spec fn text_lt(a: Seq<char>, b: Seq<char>) -> bool {
    text_le(a, b) && a != b
}

proof fn lemma_text_le_common_prefix(p: Seq<char>, x: Seq<char>, y: Seq<char>)
    ensures
        text_le(p + x, p + y) == text_le(x, y),
    decreases p.len(),
{
    if p.len() > 0 {
        lemma_text_le_common_prefix(p.drop_first(), x, y);
        assert((p + x).drop_first() == p.drop_first() + x);
        assert((p + y).drop_first() == p.drop_first() + y);
        assert((p + x)[0] == p[0] && (p + y)[0] == p[0]);
    } else {
        assert(p + x == x);
        assert(p + y == y);
    }
}

proof fn lemma_text_lt_extend(a: Seq<char>, b: Seq<char>, x: Seq<char>, y: Seq<char>)
    requires
        a.len() == b.len(),
        text_lt(a, b),
    ensures
        text_lt(a + x, b + y),
    decreases a.len(),
{
    if a.len() == 0 {
        assert(a == b);
    } else {
        assert((a + x)[0] == a[0] && (b + y)[0] == b[0]);
        if a[0] == b[0] {
            let a1 = a.drop_first();
            let b1 = b.drop_first();
            if a1 == b1 {
                assert(a == seq![a[0]] + a1);
                assert(b == seq![b[0]] + b1);
            }
            lemma_text_lt_extend(a1, b1, x, y);
            assert((a + x).drop_first() == a1 + x);
            assert((b + y).drop_first() == b1 + y);
        }
    }
}

/// Texts of equal-length leading parts compare by those parts first.
proof fn lemma_lex_concat(a1: Seq<char>, a2: Seq<char>, b1: Seq<char>, b2: Seq<char>)
    requires
        a1.len() == b1.len(),
        text_lt(a1, b1) || (a1 == b1 && text_lt(a2, b2)),
    ensures
        text_lt(a1 + a2, b1 + b2),
{
    if text_lt(a1, b1) {
        lemma_text_lt_extend(a1, b1, a2, b2);
    } else {
        lemma_text_le_common_prefix(a1, a2, b2);
        if a1 + a2 == b1 + b2 {
            assert((a1 + a2).skip(a1.len() as int) == a2);
            assert((b1 + b2).skip(a1.len() as int) == b2);
        }
    }
}

/// 10 to the power `w`.
pub open spec fn pow10(w: nat) -> nat
    decreases w,
{
    if w == 0 {
        1
    } else {
        10 * pow10((w - 1) as nat)
    }
}

proof fn lemma_zero_padded_step(n: nat, w: nat)
    requires
        w >= 1,
        n < pow10(w),
    ensures
        zero_padded(n, w).len() == w,
        w == 1 ==> zero_padded(n, w) == seq![digit_char(n as int)],
        w >= 2 ==> zero_padded(n, w) == zero_padded(n / 10, (w - 1) as nat).push(digit_char((n % 10) as int)),
    decreases w,
{
    if w == 1 {
        assert(pow10(0) == 1);
        assert(n < 10);
    } else {
        let w1 = (w - 1) as nat;
        let q = n / 10;
        assert(q < pow10(w1)) by (nonlinear_arith)
            requires
                n < 10 * pow10(w1),
                q == n / 10,
        ;
        lemma_zero_padded_step(q, w1);
        let dc = digit_char((n % 10) as int);
        if n >= 10 {
            let s = decimal(q);
            assert(decimal(n) == s.push(dc));
            if s.len() >= w1 {
                assert(zero_padded(q, w1) == s);
            } else {
                assert(zero_padded(n, w) =~= Seq::new((w1 - s.len()) as nat, |_i: int| '0') + s.push(dc));
                assert(zero_padded(n, w) =~= zero_padded(q, w1).push(dc));
            }
        } else {
            assert(q == 0 && n % 10 == n);
            assert(decimal(n) == seq![dc]);
            assert(digit_char(0) == '0');
            assert(decimal(0) == seq!['0']);
            assert(zero_padded(q, w1) =~= Seq::new(w1, |_i: int| '0'));
            assert(zero_padded(n, w) =~= Seq::new(w1, |_i: int| '0') + seq![dc]);
            assert(zero_padded(n, w) =~= zero_padded(q, w1).push(dc));
        }
    }
}

proof fn lemma_digit_lt(d1: int, d2: int)
    requires
        0 <= d1 < d2 < 10,
    ensures
        text_lt(seq![digit_char(d1)], seq![digit_char(d2)]),
{
    let c1 = digit_char(d1);
    let c2 = digit_char(d2);
    assert((c1 as u32) == d1 + 48);
    assert((c2 as u32) == d2 + 48);
    assert(seq![c1][0] != seq![c2][0]);
}

/// Zero-padded numbers of one width compare as the numbers do.
proof fn lemma_zero_padded_lt(n1: nat, n2: nat, w: nat)
    requires
        w >= 1,
        n1 < n2 < pow10(w),
    ensures
        text_lt(zero_padded(n1, w), zero_padded(n2, w)),
    decreases w,
{
    lemma_zero_padded_step(n1, w);
    lemma_zero_padded_step(n2, w);
    if w == 1 {
        lemma_digit_lt(n1 as int, n2 as int);
    } else {
        let w1 = (w - 1) as nat;
        let q1 = n1 / 10;
        let q2 = n2 / 10;
        let c1 = seq![digit_char((n1 % 10) as int)];
        let c2 = seq![digit_char((n2 % 10) as int)];
        assert(zero_padded(n1, w) == zero_padded(q1, w1) + c1);
        assert(zero_padded(n2, w) == zero_padded(q2, w1) + c2);
        assert(q1 <= q2 && (q1 == q2 ==> n1 % 10 < n2 % 10)) by (nonlinear_arith)
            requires
                n1 < n2,
                q1 == n1 / 10,
                q2 == n2 / 10,
        ;
        assert(q2 < pow10(w1)) by (nonlinear_arith)
            requires
                n2 < 10 * pow10(w1),
                q2 == n2 / 10,
        ;
        lemma_zero_padded_step(q1, w1);
        lemma_zero_padded_step(q2, w1);
        if q1 < q2 {
            lemma_zero_padded_lt(q1, q2, w1);
        } else {
            lemma_digit_lt((n1 % 10) as int, (n2 % 10) as int);
        }
        lemma_lex_concat(zero_padded(q1, w1), c1, zero_padded(q2, w1), c2);
    }
}

/// Day number of the first of January of year `y`.
pub open spec fn year_start(y: int) -> int {
    365 * (y - 1970) + leap_years_before(y) - leap_years_before(1970)
}

proof fn lemma_year_start_mono(y1: int, y2: int)
    requires
        y1 < y2,
    ensures
        year_start(y1) + 365 + (if is_leap_year(y1) { 1int } else { 0int }) <= year_start(y2),
    decreases y2 - y1,
{
    lemma_leap_years_step(y1);
    if y1 + 1 < y2 {
        lemma_year_start_mono(y1 + 1, y2);
        lemma_leap_years_step(y1 + 1);
    }
}

proof fn lemma_month_facts(y: int, m: int)
    requires
        1 <= m <= 12,
    ensures
        days_before_month(y, m) >= 0,
        days_before_month(y, m) + days_in_month(y, m) <= 365 + (if is_leap_year(y) { 1int } else { 0int }),
        forall|m2: int| m < m2 <= 12 ==> days_before_month(y, m) + days_in_month(y, m) <= #[trigger] days_before_month(y, m2),
{
}

/// Whether the date `y1-m1-d1` comes before `y2-m2-d2`.
pub open spec fn date_lt(y1: int, m1: int, d1: int, y2: int, m2: int, d2: int) -> bool {
    y1 < y2 || (y1 == y2 && (m1 < m2 || (m1 == m2 && d1 < d2)))
}

/// A valid date that comes before another has a smaller day number.
proof fn lemma_days_from_civil_lt(y1: int, m1: int, d1: int, y2: int, m2: int, d2: int)
    requires
        1 <= m1 <= 12,
        1 <= d1 <= days_in_month(y1, m1),
        1 <= m2 <= 12,
        1 <= d2,
        date_lt(y1, m1, d1, y2, m2, d2),
    ensures
        days_from_civil(y1, m1, d1) < days_from_civil(y2, m2, d2),
{
    lemma_month_facts(y1, m1);
    lemma_month_facts(y2, m2);
    if y1 < y2 {
        lemma_year_start_mono(y1, y2);
    }
}

/// From 1970 to the end of 9999, the year of every day.
proof fn lemma_year_range(days: int)
    requires
        0 <= days < 2932897,
    ensures
        1970 <= civil_from_days(days).0 <= 9999,
{
    lemma_civil_from_days(days);
    let (y, m, d) = civil_from_days(days);
    assert(leap_years_before(1970) == 477);
    if y < 1970 {
        lemma_days_from_civil_lt(y, m, d, 1970, 1, 1);
        assert(days_from_civil(1970, 1, 1) == 0);
    }
    if y > 9999 {
        assert(leap_years_before(10000) == 2424);
        assert(days_from_civil(10000, 1, 1) == 2932897);
        if !(y == 10000 && m == 1 && d == 1) {
            lemma_days_from_civil_lt(10000, 1, 1, y, m, d);
        }
    }
}

/// The stamp text of a date and a time of day.
pub open spec fn stamp_of(y: nat, m: nat, d: nat, h: nat, i: nat, s: nat) -> Seq<char> {
    zero_padded(y, 4) + zero_padded(m, 2) + zero_padded(d, 2) + seq!['-'] + zero_padded(h, 2) + zero_padded(i, 2)
        + zero_padded(s, 2)
}

proof fn lemma_stamp_of_lt(
    y1: nat, m1: nat, d1: nat, h1: nat, i1: nat, s1: nat,
    y2: nat, m2: nat, d2: nat, h2: nat, i2: nat, s2: nat,
)
    requires
        y1 < 10000 && m1 < 100 && d1 < 100 && h1 < 100 && i1 < 100 && s1 < 100,
        y2 < 10000 && m2 < 100 && d2 < 100 && h2 < 100 && i2 < 100 && s2 < 100,
        date_lt(y1 as int, m1 as int, d1 as int, y2 as int, m2 as int, d2 as int) || (y1 == y2 && m1 == m2 && d1
            == d2 && (h1 < h2 || (h1 == h2 && (i1 < i2 || (i1 == i2 && s1 < s2))))),
    ensures
        text_lt(stamp_of(y1, m1, d1, h1, i1, s1), stamp_of(y2, m2, d2, h2, i2, s2)),
{
    assert(pow10(0) == 1);
    assert(pow10(1) == 10);
    assert(pow10(2) == 100);
    assert(pow10(3) == 1000);
    assert(pow10(4) == 10000);
    let ya = zero_padded(y1, 4);
    let yb = zero_padded(y2, 4);
    let ma = zero_padded(m1, 2);
    let mb = zero_padded(m2, 2);
    let da = zero_padded(d1, 2);
    let db = zero_padded(d2, 2);
    let ha = zero_padded(h1, 2);
    let hb = zero_padded(h2, 2);
    let ia = zero_padded(i1, 2);
    let ib = zero_padded(i2, 2);
    let sa = zero_padded(s1, 2);
    let sb = zero_padded(s2, 2);
    lemma_zero_padded_step(y1, 4);
    lemma_zero_padded_step(y2, 4);
    lemma_zero_padded_step(m1, 2);
    lemma_zero_padded_step(m2, 2);
    lemma_zero_padded_step(d1, 2);
    lemma_zero_padded_step(d2, 2);
    lemma_zero_padded_step(h1, 2);
    lemma_zero_padded_step(h2, 2);
    lemma_zero_padded_step(i1, 2);
    lemma_zero_padded_step(i2, 2);
    let dash = seq!['-'];
    if date_lt(y1 as int, m1 as int, d1 as int, y2 as int, m2 as int, d2 as int) {
        if y1 < y2 {
            lemma_zero_padded_lt(y1, y2, 4);
            lemma_lex_concat(ya, ma, yb, mb);
            lemma_lex_concat(ya + ma, da, yb + mb, db);
        } else if m1 < m2 {
            lemma_zero_padded_lt(m1, m2, 2);
            lemma_lex_concat(ya, ma, yb, mb);
            lemma_lex_concat(ya + ma, da, yb + mb, db);
        } else {
            lemma_zero_padded_lt(d1, d2, 2);
            lemma_lex_concat(ya + ma, da, yb + mb, db);
        }
        lemma_lex_concat(ya + ma + da, dash, yb + mb + db, dash);
        lemma_lex_concat(ya + ma + da + dash, ha, yb + mb + db + dash, hb);
        lemma_lex_concat(ya + ma + da + dash + ha, ia, yb + mb + db + dash + hb, ib);
    } else if h1 < h2 {
        lemma_zero_padded_lt(h1, h2, 2);
        lemma_lex_concat(ya + ma + da + dash, ha, yb + mb + db + dash, hb);
        lemma_lex_concat(ya + ma + da + dash + ha, ia, yb + mb + db + dash + hb, ib);
    } else if i1 < i2 {
        lemma_zero_padded_lt(i1, i2, 2);
        lemma_lex_concat(ya + ma + da + dash + ha, ia, yb + mb + db + dash + hb, ib);
    } else {
        lemma_zero_padded_lt(s1, s2, 2);
    }
    lemma_lex_concat(ya + ma + da + dash + ha + ia, sa, yb + mb + db + dash + hb + ib, sb);
}

proof fn lemma_clock(t: nat)
    ensures
        t == 86400 * (t / 86400) + t % 86400,
        t % 86400 < 86400,
        t % 86400 == 3600 * (t % 86400 / 3600) + 60 * (t % 86400 % 3600 / 60) + t % 86400 % 60,
        t % 86400 / 3600 < 24,
        t % 86400 % 3600 / 60 < 60,
        t % 86400 % 60 < 60,
{
    let r = t % 86400;
    assert(t == 86400 * (t / 86400) + r && r < 86400) by (nonlinear_arith)
        requires
            r == t % 86400,
    ;
    assert(r == 3600 * (r / 3600) + 60 * (r % 3600 / 60) + r % 60 && r / 3600 < 24 && r % 3600 / 60 < 60 && r % 60
        < 60) by (nonlinear_arith)
        requires
            0 <= r < 86400,
    ;
}

/// Backup time stamps order like the times they stamp, so distinct times
/// get distinct stamps: for Unix times before the year 10000, an earlier
/// time's stamp comes strictly before a later time's in text order.
pub proof fn lemma_stamp_order(t1: nat, t2: nat)
    requires
        t1 < t2 < 253402300800,
    ensures
        text_le(stamp_text(t1), stamp_text(t2)),
        stamp_text(t1) != stamp_text(t2),
{
    lemma_clock(t1);
    lemma_clock(t2);
    let days1 = t1 / 86400;
    let days2 = t2 / 86400;
    let rem1 = t1 % 86400;
    let rem2 = t2 % 86400;
    assert(days1 <= days2 && days2 < 2932897 && (days1 == days2 ==> rem1 < rem2));
    lemma_civil_from_days(days1 as int);
    lemma_civil_from_days(days2 as int);
    lemma_year_range(days1 as int);
    lemma_year_range(days2 as int);
    let (y1, m1, d1) = civil_from_days(days1 as int);
    let (y2, m2, d2) = civil_from_days(days2 as int);
    if days1 < days2 && !date_lt(y1, m1, d1, y2, m2, d2) && !(y1 == y2 && m1 == m2 && d1 == d2) {
        lemma_days_from_civil_lt(y2, m2, d2, y1, m1, d1);
    }
    let h1 = rem1 / 3600;
    let i1 = rem1 % 3600 / 60;
    let s1 = rem1 % 60;
    let h2 = rem2 / 3600;
    let i2 = rem2 % 3600 / 60;
    let s2 = rem2 % 60;
    assert(days1 == days2 ==> (h1 < h2 || (h1 == h2 && (i1 < i2 || (i1 == i2 && s1 < s2)))));
    assert(stamp_text(t1) == stamp_of(y1 as nat, m1 as nat, d1 as nat, h1, i1, s1));
    assert(stamp_text(t2) == stamp_of(y2 as nat, m2 as nat, d2 as nat, h2, i2, s2));
    lemma_stamp_of_lt(y1 as nat, m1 as nat, d1 as nat, h1, i1, s1, y2 as nat, m2 as nat, d2 as nat, h2, i2, s2);
}

} // verus!
