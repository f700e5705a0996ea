//! Natural numbers of any size written as decimal digits, most significant
//! first: enough to add weights exactly, whatever their number of digits.

use crate::cookie::weight::pow10;
use vstd::prelude::*;

verus! {

/// The number that the digits `d` write.
pub open spec fn num(d: Seq<u8>) -> nat
    decreases d.len(),
{
    if d.len() == 0 {
        0
    } else {
        num(d.drop_last()) * 10 + (d.last() as nat)
    }
}

pub open spec fn is_digits(d: Seq<u8>) -> bool {
    forall|i: int| 0 <= i < d.len() ==> #[trigger] d[i] < 10
}

pub open spec fn zeros(n: nat) -> Seq<u8> {
    Seq::new(n, |i: int| 0u8)
}

pub proof fn lemma_num_concat(a: Seq<u8>, b: Seq<u8>)
    ensures
        num(a + b) == num(a) * pow10(b.len()) + num(b),
    decreases b.len(),
{
    if b.len() == 0 {
        assert(a + b =~= a);
        assert(pow10(0) == 1);
        assert(num(a) * 1 == num(a));
    } else {
        lemma_num_concat(a, b.drop_last());
        assert((a + b).drop_last() =~= a + b.drop_last());
        assert((a + b).last() == b.last());
        let p = pow10((b.len() - 1) as nat);
        let x = num(a);
        let y = num(b.drop_last());
        let l = b.last() as nat;
        assert(pow10(b.len()) == 10 * p);
        assert(num(a + b) == num(a + b.drop_last()) * 10 + l);
        assert(num(a + b.drop_last()) == x * p + y);
        assert(num(b) == y * 10 + l);
        assert((x * p + y) * 10 + l == x * (10 * p) + (y * 10 + l)) by (nonlinear_arith);
    }
}

pub proof fn lemma_num_zeros(n: nat)
    ensures
        num(zeros(n)) == 0,
    decreases n,
{
    if n > 0 {
        assert(zeros(n).drop_last() =~= zeros((n - 1) as nat));
        lemma_num_zeros((n - 1) as nat);
    }
}

pub proof fn lemma_num_bound(d: Seq<u8>)
    requires
        is_digits(d),
    ensures
        num(d) < pow10(d.len()),
    decreases d.len(),
{
    if d.len() > 0 {
        let init = d.drop_last();
        assert(is_digits(init)) by {
            assert forall|i: int| 0 <= i < init.len() implies #[trigger] init[i] < 10 by {
                assert(init[i] == d[i]);
            }
        }
        lemma_num_bound(init);
        assert(d.last() < 10);
        assert(num(init) * 10 + d.last() < pow10(init.len()) * 10) by (nonlinear_arith)
            requires
                num(init) < pow10(init.len()),
                d.last() < 10,
        ;
    }
}

pub proof fn lemma_num_zero_iff(d: Seq<u8>)
    ensures
        num(d) == 0 <==> forall|i: int| 0 <= i < d.len() ==> #[trigger] d[i] == 0,
    decreases d.len(),
{
    if d.len() > 0 {
        let init = d.drop_last();
        lemma_num_zero_iff(init);
        if num(d) == 0 {
            assert forall|i: int| 0 <= i < d.len() implies #[trigger] d[i] == 0 by {
                if i < init.len() {
                    assert(init[i] == d[i]);
                }
            }
        }
        if forall|i: int| 0 <= i < d.len() ==> #[trigger] d[i] == 0 {
            assert forall|i: int| 0 <= i < init.len() implies #[trigger] init[i] == 0 by {
                assert(init[i] == d[i]);
            }
            assert(d[d.len() - 1] == 0);
        }
    }
}

/// `d` with `n` zero digits in front: the same number.
pub fn pad_front(d: &Vec<u8>, n: usize) -> (r: Vec<u8>)
    requires
        is_digits(d@),
    ensures
        r@ == zeros(n as nat) + d@,
        num(r@) == num(d@),
        is_digits(r@),
{
    let mut r: Vec<u8> = Vec::new();
    let mut i: usize = 0;
    while i < n
        invariant
            i <= n,
            r@ == zeros(i as nat),
        decreases n - i,
    {
        r.push(0);
        i += 1;
        assert(r@ =~= zeros(i as nat));
    }
    let mut j: usize = 0;
    while j < d.len()
        invariant
            j <= d@.len(),
            r@ == zeros(n as nat) + d@.take(j as int),
        decreases d@.len() - j,
    {
        r.push(d[j]);
        j += 1;
        assert(r@ =~= zeros(n as nat) + d@.take(j as int));
    }
    assert(d@.take(j as int) =~= d@);
    proof {
        lemma_num_concat(zeros(n as nat), d@);
        lemma_num_zeros(n as nat);
    }
    r
}

/// `d` with `n` zero digits after it: the number times ten to the `n`.
pub fn pad_back(d: &mut Vec<u8>, n: usize)
    requires
        is_digits(old(d)@),
    ensures
        final(d)@ == old(d)@ + zeros(n as nat),
        num(final(d)@) == num(old(d)@) * pow10(n as nat),
        is_digits(final(d)@),
{
    let ghost start = d@;
    let mut i: usize = 0;
    while i < n
        invariant
            i <= n,
            d@ == start + zeros(i as nat),
        decreases n - i,
    {
        d.push(0);
        i += 1;
        assert(d@ =~= start + zeros(i as nat));
    }
    proof {
        lemma_num_concat(start, zeros(n as nat));
        lemma_num_zeros(n as nat);
    }
}

/// The sum of two numbers of the same number of digits.
fn add_same_len(a: &Vec<u8>, b: &Vec<u8>) -> (r: Vec<u8>)
    requires
        a@.len() == b@.len(),
        is_digits(a@),
        is_digits(b@),
    ensures
        num(r@) == num(a@) + num(b@),
        is_digits(r@),
{
    let n = a.len();
    let mut out: Vec<u8> = Vec::new();
    let mut k: usize = 0;
    while k < n
        invariant
            k <= n,
            out@ == zeros(k as nat),
        decreases n - k,
    {
        out.push(0);
        k += 1;
        assert(out@ =~= zeros(k as nat));
    }
    let mut carry: u8 = 0;
    let mut j: usize = n;
    assert(out@.skip(n as int) =~= Seq::<u8>::empty());
    assert(a@.skip(n as int) =~= Seq::<u8>::empty());
    assert(b@.skip(n as int) =~= Seq::<u8>::empty());
    while j > 0
        invariant
            j <= n,
            n == a@.len(),
            n == b@.len(),
            out@.len() == n,
            is_digits(a@),
            is_digits(b@),
            is_digits(out@),
            carry <= 1,
            num(out@.skip(j as int)) + carry * pow10((n - j) as nat) == num(a@.skip(j as int))
                + num(b@.skip(j as int)),
        decreases j,
    {
        j -= 1;
        let s: u8 = a[j] + b[j] + carry;
        let ghost old_out = out@;
        out.set(j, s % 10);
        let ghost p = pow10((n - j - 1) as nat);
        proof {
            assert(a@.skip(j as int) =~= seq![a@[j as int]] + a@.skip(j + 1));
            assert(b@.skip(j as int) =~= seq![b@[j as int]] + b@.skip(j + 1));
            assert(out@.skip(j as int) =~= seq![s % 10] + old_out.skip(j + 1));
            assert(out@.skip(j + 1) =~= old_out.skip(j + 1));
            lemma_num_concat(seq![a@[j as int]], a@.skip(j + 1));
            lemma_num_concat(seq![b@[j as int]], b@.skip(j + 1));
            lemma_num_concat(seq![s % 10], old_out.skip(j + 1));
            assert(num(seq![a@[j as int]]) == a@[j as int]) by {
                assert(seq![a@[j as int]].drop_last() =~= Seq::<u8>::empty());
                assert(seq![a@[j as int]].last() == a@[j as int]);
                assert(num(Seq::<u8>::empty()) == 0);
            }
            assert(num(seq![b@[j as int]]) == b@[j as int]) by {
                assert(seq![b@[j as int]].drop_last() =~= Seq::<u8>::empty());
                assert(seq![b@[j as int]].last() == b@[j as int]);
                assert(num(Seq::<u8>::empty()) == 0);
            }
            assert(num(seq![s % 10]) == s % 10) by {
                assert(seq![s % 10].drop_last() =~= Seq::<u8>::empty());
                assert(seq![s % 10].last() == s % 10);
                assert(num(Seq::<u8>::empty()) == 0);
            }
            assert(pow10((n - j) as nat) == 10 * p);
            assert(s == s % 10 + 10 * (s / 10));
            assert((s % 10) * p + (s / 10) * (10 * p) == s * p) by (nonlinear_arith)
                requires
                    s == s % 10 + 10 * (s / 10),
            ;
            assert((a@[j as int] + b@[j as int] + carry) * p == a@[j as int] * p + b@[j as int] * p
                + carry * p) by (nonlinear_arith);
            assert forall|i: int| 0 <= i < out@.len() implies #[trigger] out@[i] < 10 by {
                if i != j {
                    assert(out@[i] == old_out[i]);
                }
            }
        }
        carry = s / 10;
    }
    assert(out@.skip(0) =~= out@);
    assert(a@.skip(0) =~= a@);
    assert(b@.skip(0) =~= b@);
    let mut r: Vec<u8> = Vec::new();
    r.push(carry);
    let mut t: usize = 0;
    while t < n
        invariant
            t <= n,
            out@.len() == n,
            r@ == seq![carry] + out@.take(t as int),
        decreases n - t,
    {
        r.push(out[t]);
        t += 1;
        assert(r@ =~= seq![carry] + out@.take(t as int));
    }
    assert(out@.take(n as int) =~= out@);
    proof {
        lemma_num_concat(seq![carry], out@);
        assert(num(seq![carry]) == carry) by {
            assert(seq![carry].drop_last() =~= Seq::<u8>::empty());
            assert(seq![carry].last() == carry);
            assert(num(Seq::<u8>::empty()) == 0);
        }
        assert forall|i: int| 0 <= i < r@.len() implies #[trigger] r@[i] < 10 by {
            if i > 0 {
                assert(r@[i] == out@[i - 1]);
            }
        }
    }
    r
}

/// The sum of two numbers.
pub fn add_numbers(a: &Vec<u8>, b: &Vec<u8>) -> (r: Vec<u8>)
    requires
        is_digits(a@),
        is_digits(b@),
    ensures
        num(r@) == num(a@) + num(b@),
        is_digits(r@),
{
    if a.len() >= b.len() {
        let pb = pad_front(b, a.len() - b.len());
        add_same_len(a, &pb)
    } else {
        let pa = pad_front(a, b.len() - a.len());
        add_same_len(&pa, b)
    }
}

/// The number that the first `k` digits of `d` write, or `cap + 1` when it
/// is larger than `cap`.
pub fn leading_value(d: &Vec<u8>, k: usize, cap: u64) -> (r: u64)
    requires
        k <= d@.len(),
        is_digits(d@),
        cap < u64::MAX / 10,
    ensures
        num(d@.take(k as int)) <= cap ==> r == num(d@.take(k as int)),
        num(d@.take(k as int)) > cap ==> r == cap + 1,
{
    let mut v: u64 = 0;
    let mut i: usize = 0;
    while i < k
        invariant
            i <= k <= d@.len(),
            is_digits(d@),
            cap < u64::MAX / 10,
            v <= cap ==> v == num(d@.take(i as int)),
            v > cap ==> v == cap + 1 && num(d@.take(i as int)) > cap,
        decreases k - i,
    {
        assert(d@.take(i + 1).drop_last() =~= d@.take(i as int));
        assert(d@.take(i + 1).last() == d@[i as int]);
        if v <= cap {
            assert(d@[i as int] < 10);
            let w: u64 = v * 10 + d[i] as u64;
            if w > cap {
                v = cap + 1;
            } else {
                v = w;
            }
        }
        i += 1;
    }
    v
}

/// Whether all the digits of `d` from position `k` on are zero.
pub fn zero_from(d: &Vec<u8>, k: usize) -> (r: bool)
    requires
        k <= d@.len(),
    ensures
        r == (num(d@.skip(k as int)) == 0),
{
    let mut i: usize = k;
    while i < d.len()
        invariant
            k <= i <= d@.len(),
            forall|t: int| k <= t < i ==> #[trigger] d@[t] == 0,
        decreases d@.len() - i,
    {
        if d[i] != 0 {
            proof {
                lemma_num_zero_iff(d@.skip(k as int));
                assert(d@.skip(k as int)[i - k] != 0);
            }
            return false;
        }
        i += 1;
    }
    proof {
        lemma_num_zero_iff(d@.skip(k as int));
        assert forall|t: int| 0 <= t < d@.skip(k as int).len() implies #[trigger] d@.skip(
            k as int,
        )[t] == 0 by {
            assert(d@.skip(k as int)[t] == d@[k + t]);
        }
    }
    true
}

} // verus!
