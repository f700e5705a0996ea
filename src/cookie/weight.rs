//! Weights in millionths of a percent: how a weight is spread over
//! children in proportion to their sizes, and how a `N%` token is read.

use crate::cookie::decimal::{is_digits, pad_back, zeros};
use crate::cookie::random::weight_sum;
use crate::cookie::CookieError;
use vstd::prelude::*;

verus! {

/// One percent.
pub const PERCENT: u64 = 1_000_000;

/// The weight of a whole collection: one hundred percent.
pub const FULL: u64 = 100_000_000;

/// How far weights given by hand may miss one hundred percent: 1e-4 %.
pub const TOLERANCE: u64 = 100;

/// Child `i`'s part of `total` when it is spread in proportion to
/// `counts`: the rounded-down cumulative shares differ by it, so that the
/// parts always add up to `total` exactly and each stays within one unit
/// of `total * counts[i] / sum(counts)`.
pub open spec fn share(total: nat, counts: Seq<u64>, i: int) -> nat {
    let t = weight_sum(counts);
    ((total * weight_sum(counts.take(i + 1))) / t - (total * weight_sum(counts.take(i))) / t) as nat
}

/// The parts of `total` for all children; all zero when `counts` sums to
/// zero or beyond 64 bits.
pub open spec fn shares(total: nat, counts: Seq<u64>) -> Seq<u64> {
    if weight_sum(counts) == 0 || weight_sum(counts) > u64::MAX {
        Seq::new(counts.len(), |i: int| 0u64)
    } else {
        Seq::new(counts.len(), |i: int| share(total, counts, i) as u64)
    }
}

proof fn lemma_prefix_monotone(w: Seq<u64>, i: int, j: int)
    requires
        0 <= i <= j <= w.len(),
    ensures
        weight_sum(w.take(i)) <= weight_sum(w.take(j)),
    decreases j - i,
{
    if i < j {
        lemma_prefix_monotone(w, i, j - 1);
        assert(w.take(j).drop_last() =~= w.take(j - 1));
    }
}

/// Spreads `total` over children in proportion to `counts`.
pub fn distribute(total: u64, counts: &Vec<u64>) -> (r: Vec<u64>)
    ensures
        r@ == shares(total as nat, counts@),
        0 < weight_sum(counts@) <= u64::MAX ==> weight_sum(r@) == total,
{
    let n = counts.len();
    let mut t: u64 = 0;
    let mut k: usize = 0;
    let mut overflow = false;
    while k < n
        invariant
            k <= n,
            n == counts@.len(),
            !overflow ==> t == weight_sum(counts@.take(k as int)),
            overflow ==> weight_sum(counts@) > u64::MAX,
        decreases n - k,
    {
        if !overflow {
            assert(counts@.take(k + 1).drop_last() =~= counts@.take(k as int));
            if t > u64::MAX - counts[k] {
                overflow = true;
                proof {
                    crate::cookie::random::lemma_weight_sum_prefix(counts@, k + 1);
                }
            } else {
                t = t + counts[k];
            }
        }
        k += 1;
    }
    if !overflow {
        assert(counts@.take(n as int) =~= counts@);
    }
    let mut r: Vec<u64> = Vec::new();
    if overflow || t == 0 {
        let mut i: usize = 0;
        while i < n
            invariant
                i <= n,
                n == counts@.len(),
                r@ == Seq::new(i as nat, |j: int| 0u64),
            decreases n - i,
        {
            r.push(0);
            i += 1;
            assert(r@ =~= Seq::new(i as nat, |j: int| 0u64));
        }
        assert(r@ =~= shares(total as nat, counts@));
        return r;
    }
    let mut prefix: u128 = 0;
    let mut lo: u128 = 0;
    let mut i: usize = 0;
    while i < n
        invariant
            i <= n,
            n == counts@.len(),
            t > 0,
            t == weight_sum(counts@),
            prefix == weight_sum(counts@.take(i as int)),
            lo == (total * prefix) / (t as int),
            weight_sum(r@) == lo,
            r@ == Seq::new(i as nat, |j: int| share(total as nat, counts@, j) as u64),
        decreases n - i,
    {
        assert(counts@.take(i + 1).drop_last() =~= counts@.take(i as int));
        proof {
            lemma_prefix_monotone(counts@, i + 1, n as int);
            assert(counts@.take(n as int) =~= counts@);
        }
        let next: u128 = prefix + counts[i] as u128;
        assert(next <= t);
        assert(total * next <= (u64::MAX as int) * (u64::MAX as int)) by (nonlinear_arith)
            requires
                total <= u64::MAX,
                next <= u64::MAX,
        ;
        let hi: u128 = (total as u128 * next) / (t as u128);
        proof {
            assert(total * prefix <= total * next) by (nonlinear_arith)
                requires
                    prefix <= next,
            ;
            assert(total * next <= total * t) by (nonlinear_arith)
                requires
                    next <= t,
            ;
            vstd::arithmetic::div_mod::lemma_div_is_ordered(
                total * prefix,
                total * next,
                t as int,
            );
            vstd::arithmetic::div_mod::lemma_div_is_ordered(total * next, total * t, t as int);
            vstd::arithmetic::div_mod::lemma_div_by_multiple(total as int, t as int);
        }
        assert(lo <= hi);
        assert(hi <= total);
        let part = (hi - lo) as u64;
        let ghost before = r@;
        r.push(part);
        assert(r@.drop_last() =~= before);
        assert(part == share(total as nat, counts@, i as int) as u64);
        prefix = next;
        lo = hi;
        i += 1;
        assert(r@ =~= Seq::new(i as nat, |j: int| share(total as nat, counts@, j) as u64));
    }
    proof {
        assert(counts@.take(n as int) =~= counts@);
        vstd::arithmetic::div_mod::lemma_div_by_multiple(total as int, t as int);
    }
    r
}

proof fn lemma_share_bounds(total: nat, counts: Seq<u64>, i: int)
    requires
        0 < weight_sum(counts),
        0 <= i < counts.len(),
    ensures
        (total * weight_sum(counts.take(i))) / weight_sum(counts) <= (total * weight_sum(
            counts.take(i + 1),
        )) / weight_sum(counts),
        (total * weight_sum(counts.take(i + 1))) / weight_sum(counts) <= total,
{
    let t = weight_sum(counts) as int;
    let a = weight_sum(counts.take(i)) as int;
    let b = weight_sum(counts.take(i + 1)) as int;
    lemma_prefix_monotone(counts, i, i + 1);
    lemma_prefix_monotone(counts, i + 1, counts.len() as int);
    assert(counts.take(counts.len() as int) =~= counts);
    assert(total * a <= total * b) by (nonlinear_arith)
        requires
            a <= b,
    ;
    assert(total * b <= total * t) by (nonlinear_arith)
        requires
            b <= t,
    ;
    vstd::arithmetic::div_mod::lemma_div_is_ordered(total * a, total * b, t);
    vstd::arithmetic::div_mod::lemma_div_is_ordered(total * b, total * t, t);
    vstd::arithmetic::div_mod::lemma_div_by_multiple(total as int, t);
}

proof fn lemma_shares_prefix(total: nat, counts: Seq<u64>, k: int)
    requires
        0 < weight_sum(counts) <= u64::MAX,
        total <= u64::MAX,
        0 <= k <= counts.len(),
    ensures
        weight_sum(shares(total, counts).take(k)) == (total * weight_sum(counts.take(k)))
            / weight_sum(counts),
    decreases k,
{
    let sh = shares(total, counts);
    if k == 0 {
        assert(sh.take(0) =~= Seq::<u64>::empty());
        assert(counts.take(0) =~= Seq::<u64>::empty());
        assert(total * 0 == 0);
        vstd::arithmetic::div_mod::lemma_div_of0(weight_sum(counts) as int);
    } else {
        lemma_shares_prefix(total, counts, k - 1);
        lemma_share_bounds(total, counts, k - 1);
        assert(sh.take(k).drop_last() =~= sh.take(k - 1));
        assert(sh.take(k).last() == sh[k - 1]);
        assert(sh[k - 1] == share(total, counts, k - 1) as u64);
        assert(share(total, counts, k - 1) <= total);
        let t = weight_sum(counts);
        let lo = (total * weight_sum(counts.take(k - 1))) / t;
        let hi = (total * weight_sum(counts.take(k))) / t;
        assert(share(total, counts, k - 1) == hi - lo);
        assert(weight_sum(sh.take(k)) == weight_sum(sh.take(k - 1)) + sh[k - 1]);
    }
}

/// The parts of a 64-bit total spread over counts that add up to a
/// positive 64-bit number add up to the total exactly.
pub proof fn lemma_shares_sum(total: nat, counts: Seq<u64>)
    requires
        0 < weight_sum(counts) <= u64::MAX,
        total <= u64::MAX,
    ensures
        weight_sum(shares(total, counts)) == total,
{
    let n = counts.len() as int;
    lemma_shares_prefix(total, counts, n);
    assert(shares(total, counts).take(n) =~= shares(total, counts));
    assert(counts.take(n) =~= counts);
    vstd::arithmetic::div_mod::lemma_div_by_multiple(total as int, weight_sum(counts) as int);
}

// ---------------------------------------------------------------------
// Weight tokens
// ---------------------------------------------------------------------

pub open spec fn is_digit(c: char) -> bool {
    '0' <= c <= '9'
}

pub open spec fn digit_value(c: char) -> nat {
    (c as u32 - '0' as u32) as nat
}

pub open spec fn all_digits(s: Seq<char>) -> bool {
    forall|i: int| 0 <= i < s.len() ==> is_digit(#[trigger] s[i])
}

/// The number written by the decimal digits `s`.
pub open spec fn decimal_value(s: Seq<char>) -> nat
    decreases s.len(),
{
    if s.len() == 0 {
        0
    } else {
        decimal_value(s.drop_last()) * 10 + digit_value(s.last())
    }
}

pub open spec fn pow10(k: nat) -> nat
    decreases k,
{
    if k == 0 {
        1
    } else {
        10 * pow10((k - 1) as nat)
    }
}

/// Where the integer part of a weight ends: at its first `.`, or at its end.
pub open spec fn point_index(s: Seq<char>) -> int {
    if exists|i: int| 0 <= i < s.len() && s[i] == '.' && forall|j: int| 0 <= j < i ==> s[j] != '.' {
        choose|i: int| 0 <= i < s.len() && s[i] == '.' && forall|j: int| 0 <= j < i ==> s[j] != '.'
    } else {
        s.len() as int
    }
}

pub open spec fn int_part(s: Seq<char>) -> Seq<char> {
    s.take(point_index(s))
}

pub open spec fn frac_part(s: Seq<char>) -> Seq<char> {
    if point_index(s) < s.len() {
        s.skip(point_index(s) + 1)
    } else {
        Seq::empty()
    }
}

/// A weight as written before its `%`: decimal digits, at most one point,
/// and at least one digit.
pub open spec fn well_formed_weight(s: Seq<char>) -> bool {
    &&& all_digits(int_part(s))
    &&& all_digits(frac_part(s))
    &&& int_part(s).len() + frac_part(s).len() > 0
}

/// The first six digits after the point, those that millionths of a
/// percent keep.
pub open spec fn kept_digits(f: Seq<char>) -> Seq<char> {
    if f.len() <= 6 {
        f
    } else {
        f.take(6)
    }
}

/// One more millionth when the first digit dropped is 5 or more.
pub open spec fn round_up(f: Seq<char>) -> nat {
    if f.len() > 6 && digit_value(f[6]) >= 5 {
        1
    } else {
        0
    }
}

/// The weight in millionths of a percent, rounded half up.
pub open spec fn weight_units(s: Seq<char>) -> nat {
    let f = frac_part(s);
    (decimal_value(int_part(s)) * PERCENT + decimal_value(kept_digits(f)) * pow10(
        (6 - kept_digits(f).len()) as nat,
    ) + round_up(f)) as nat
}

/// The weight stored for a token above one hundred percent plus the
/// tolerance; a list holding such a token is rejected in any case.
pub const OVER_FULL: u64 = FULL + TOLERANCE + 1;

/// What reading the weight `s` (without its `%`) gives: malformed, or its
/// value in millionths of a percent, kept at most `OVER_FULL`.
pub open spec fn weight_result(s: Seq<char>) -> Result<u64, CookieError> {
    if !well_formed_weight(s) {
        Err(CookieError::MalformedWeight)
    } else if weight_units(s) > FULL + TOLERANCE {
        Ok(OVER_FULL)
    } else {
        Ok(weight_units(s) as u64)
    }
}

/// The digits of a decimal text.
pub open spec fn digits_of(s: Seq<char>) -> Seq<u8> {
    s.map_values(|c: char| digit_value(c) as u8)
}

/// The weight `s`, exactly, in units of ten to the minus `k` percent, as
/// digits; `k` is at least the number of digits after the point.
pub open spec fn scaled_digits(s: Seq<char>, k: nat) -> Seq<u8> {
    digits_of(int_part(s)) + digits_of(frac_part(s)) + zeros((k - frac_part(s).len()) as nat)
}

/// Where the integer part of the weight `s` ends.
pub fn point_of(s: &Vec<char>) -> (r: usize)
    ensures
        r == point_index(s@),
        r <= s@.len(),
{
    let n = s.len();
    let mut p: usize = 0;
    while p < n && s[p] != '.'
        invariant
            p <= n,
            n == s@.len(),
            forall|j: int| 0 <= j < p ==> s@[j] != '.',
        decreases n - p,
    {
        p += 1;
    }
    proof {
        if p < n {
            assert(0 <= p < s@.len() && s@[p as int] == '.' && forall|j: int| 0 <= j < p ==> s@[j] != '.');
            let q = point_index(s@);
            assert(q == p) by {
                if q < p {
                    assert(s@[q] != '.');
                } else if q > p {
                    assert(s@[p as int] == '.');
                }
            }
        } else {
            assert(!exists|i: int| 0 <= i < s@.len() && s@[i] == '.' && forall|j: int| 0 <= j < i ==> s@[j] != '.');
        }
    }
    p
}

/// The number of digits after the point of the weight `s`.
pub fn frac_len_of(s: &Vec<char>) -> (r: usize)
    ensures
        r == frac_part(s@).len(),
{
    let p = point_of(s);
    if p < s.len() {
        assert(frac_part(s@).len() == s@.len() - p - 1);
        s.len() - p - 1
    } else {
        0
    }
}

/// The exact digits of the weight `s` at `k` places after the point.
pub fn scaled_digit_vec(s: &Vec<char>, k: usize) -> (r: Vec<u8>)
    requires
        well_formed_weight(s@),
        frac_part(s@).len() <= k,
    ensures
        r@ == scaled_digits(s@, k as nat),
        is_digits(r@),
{
    let n = s.len();
    let p = point_of(s);
    let ghost ip = int_part(s@);
    let ghost fp = frac_part(s@);
    let start: usize = if p < n {
        p + 1
    } else {
        n
    };
    assert(ip =~= s@.take(p as int));
    assert(fp =~= s@.skip(start as int));
    let mut r: Vec<u8> = Vec::new();
    let mut i: usize = 0;
    while i < p
        invariant
            i <= p <= n,
            n == s@.len(),
            ip == s@.take(p as int),
            all_digits(ip),
            r@ == digits_of(ip.take(i as int)),
            is_digits(r@),
        decreases p - i,
    {
        assert(is_digit(ip[i as int]));
        r.push((s[i] as u32 - '0' as u32) as u8);
        i += 1;
        assert(r@ =~= digits_of(ip.take(i as int)));
    }
    assert(ip.take(p as int) =~= ip);
    let mut j: usize = start;
    while j < n
        invariant
            start <= j <= n,
            n == s@.len(),
            fp == s@.skip(start as int),
            all_digits(fp),
            r@ == digits_of(ip) + digits_of(fp.take(j - start)),
            is_digits(r@),
        decreases n - j,
    {
        assert(is_digit(fp[j - start]));
        r.push((s[j] as u32 - '0' as u32) as u8);
        j += 1;
        assert(r@ =~= digits_of(ip) + digits_of(fp.take(j - start)));
    }
    assert(fp.take(n - start) =~= fp);
    assert(fp.len() == n - start);
    pad_back(&mut r, k - (n - start));
    assert(r@ =~= scaled_digits(s@, k as nat));
    r
}

proof fn lemma_decimal_grows(s: Seq<char>, k: int)
    requires
        0 <= k <= s.len(),
    ensures
        decimal_value(s.take(k)) <= decimal_value(s),
    decreases s.len(),
{
    if k < s.len() {
        assert(s.drop_last().take(k) =~= s.take(k));
        lemma_decimal_grows(s.drop_last(), k);
    } else {
        assert(s.take(k) =~= s);
    }
}

/// Reads the weight `s` written before a `%`.
pub fn parse_weight(s: &Vec<char>) -> (r: Result<u64, CookieError>)
    ensures
        r == weight_result(s@),
{
    let n = s.len();
    let mut p: usize = 0;
    while p < n && s[p] != '.'
        invariant
            p <= n,
            n == s@.len(),
            forall|j: int| 0 <= j < p ==> s@[j] != '.',
        decreases n - p,
    {
        p += 1;
    }
    proof {
        if p < n {
            assert(0 <= p < s@.len() && s@[p as int] == '.' && forall|j: int| 0 <= j < p ==> s@[j] != '.');
            let q = point_index(s@);
            assert(q == p) by {
                if q < p {
                    assert(s@[q] != '.');
                } else if q > p {
                    assert(s@[p as int] == '.');
                }
            }
        } else {
            assert(!exists|i: int| 0 <= i < s@.len() && s@[i] == '.' && forall|j: int| 0 <= j < i ==> s@[j] != '.');
        }
    }
    let ghost ip = int_part(s@);
    let ghost fp = frac_part(s@);
    assert(ip =~= s@.take(p as int));
    // integer part, remembering only whether it passed one hundred
    let mut v: u64 = 0;
    let mut big = false;
    let mut digits = true;
    let mut i: usize = 0;
    while i < p
        invariant
            i <= p <= n,
            n == s@.len(),
            ip == s@.take(p as int),
            digits == all_digits(ip.take(i as int)),
            digits && !big ==> v == decimal_value(ip.take(i as int)) && v <= 100,
            digits && big ==> decimal_value(ip.take(i as int)) > 100,
        decreases p - i,
    {
        let c = s[i];
        assert(ip.take(i + 1).drop_last() =~= ip.take(i as int));
        assert(ip.take(i + 1).last() == c);
        if '0' <= c && c <= '9' {
            if digits && !big {
                let d = (c as u32 - '0' as u32) as u64;
                v = v * 10 + d;
                if v > 100 {
                    big = true;
                }
            }
        } else {
            digits = false;
        }
        i += 1;
    }
    assert(ip.take(p as int) =~= ip);
    let frac_start: usize = if p < n {
        p + 1
    } else {
        n
    };
    assert(fp =~= s@.skip(frac_start as int));
    let mut f: u64 = 0;
    let mut k: usize = frac_start;
    let frac_len: usize = n - frac_start;
    if !digits || frac_len + p == 0 {
        assert(ip.len() == p && fp.len() == frac_len);
        assert(!well_formed_weight(s@));
        return Err(CookieError::MalformedWeight);
    }
    while k < n
        invariant
            frac_start <= k <= n,
            n == s@.len(),
            fp == s@.skip(frac_start as int),
            fp == frac_part(s@),
            frac_len == n - frac_start,
            all_digits(fp.take(k - frac_start)),
            k - frac_start <= 6 ==> f == decimal_value(fp.take(k - frac_start)) && f < pow10(
                (k - frac_start) as nat,
            ),
            k - frac_start > 6 ==> f == decimal_value(fp.take(6)) && f < pow10(6),
        decreases n - k,
    {
        let c = s[k];
        let ghost j = k - frac_start;
        assert(fp.take(j + 1).drop_last() =~= fp.take(j));
        assert(fp.take(j + 1).last() == c);
        if !('0' <= c && c <= '9') {
            assert(!all_digits(fp));
            return Err(CookieError::MalformedWeight);
        }
        if k - frac_start < 6 {
            let d = (c as u32 - '0' as u32) as u64;
            assert(f * 10 + d < pow10((j + 1) as nat)) by (nonlinear_arith)
                requires
                    f < pow10(j as nat),
                    d <= 9,
                    pow10((j + 1) as nat) == 10 * pow10(j as nat),
            ;
            assert(pow10((j + 1) as nat) <= 1_000_000) by {
                lemma_pow10_le((j + 1) as nat, 6);
            }
            f = f * 10 + d;
        } else {
            assert(fp.take(j + 1).take(6) =~= fp.take(6));
        }
        k += 1;
    }
    assert(fp.take(k - frac_start) =~= fp);
    if big {
        proof {
            lemma_decimal_grows(ip, i as int);
        }
        return Ok(OVER_FULL);
    }
    let kept: usize = if frac_len > 6 {
        6
    } else {
        frac_len
    };
    assert(kept_digits(fp).len() == kept);
    assert(f == decimal_value(kept_digits(fp)) && f < pow10(kept as nat));
    let up: u64 = if frac_len > 6 && s[frac_start + 6] >= '5' {
        1
    } else {
        0
    };
    assert(frac_len > 6 ==> fp[6] == s@[frac_start + 6]);
    assert(up == round_up(fp));
    let ghost scale = pow10((6 - kept) as nat);
    proof {
        lemma_pow10_le((6 - kept) as nat, 6);
        lemma_pow10_mul(kept as nat, (6 - kept) as nat);
        reveal_with_fuel(pow10, 7);
        assert(pow10(6) == 1_000_000);
        assert(kept as nat + (6 - kept) as nat == 6);
        assert(f * scale < 1_000_000) by (nonlinear_arith)
            requires
                f < pow10(kept as nat),
                pow10(kept as nat) * scale == 1_000_000,
        ;
    }
    let mut m: u64 = 1;
    let mut e: usize = kept;
    while e < 6
        invariant
            kept <= e <= 6,
            m == pow10((e - kept) as nat),
            m <= 1_000_000,
        decreases 6 - e,
    {
        proof {
            lemma_pow10_le((e + 1 - kept) as nat, 6);
        }
        m = m * 10;
        e += 1;
    }
    let value = v * PERCENT + f * m + up;
    if value > FULL + TOLERANCE {
        return Ok(OVER_FULL);
    }
    Ok(value)
}

proof fn lemma_pow10_le(a: nat, b: nat)
    requires
        a <= b,
    ensures
        pow10(a) <= pow10(b),
        pow10(b) <= 1_000_000 || b > 6,
    decreases b,
{
    if b > 0 {
        if a < b {
            lemma_pow10_le(a, (b - 1) as nat);
        }
        lemma_pow10_le((b - 1) as nat, (b - 1) as nat);
    }
    reveal_with_fuel(pow10, 7);
}

proof fn lemma_pow10_mul(a: nat, b: nat)
    ensures
        pow10(a) * pow10(b) == pow10(a + b),
    decreases a,
{
    if a == 0 {
        assert(pow10(0) == 1);
    } else {
        assert(pow10(a) == 10 * pow10((a - 1) as nat));
        lemma_pow10_mul((a - 1) as nat, b);
        assert(pow10(a + b) == 10 * pow10((a + b - 1) as nat));
        assert((a - 1) as nat + b == (a + b - 1) as nat);
        assert(pow10(a) * pow10(b) == 10 * (pow10((a - 1) as nat) * pow10(b))) by (nonlinear_arith)
            requires
                pow10(a) == 10 * pow10((a - 1) as nat),
        ;
    }
}

} // verus!
