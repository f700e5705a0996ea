//! Reordering the quotes of a jar before its index file is written:
//! alphabetically, or at random.

use crate::cookie::{Cookie, CookieJar, FLAGS_ORDERED, FLAGS_RANDOMIZED};
use rand::rngs::ThreadRng;
use rand::seq::SliceRandom;
use vstd::prelude::*;

verus! {

broadcast use vstd::seq_lib::to_multiset_insert, vstd::seq_lib::to_multiset_build;

/// The lower-case form of a text.
pub uninterp spec fn lower_of(s: Seq<char>) -> Seq<char>;

/// Relies on `str::to_lowercase`: the lower-case form depends on the
/// characters alone.
#[verifier::external_body]
fn lowercase(s: &str) -> (r: String)
    ensures
        r@ == lower_of(s@),
{
    s.to_lowercase()
}

/// Relies on `rand::seq::SliceRandom::shuffle`: it only swaps elements.
#[verifier::external_body]
fn shuffle_in_place(v: &mut Vec<Cookie>, rng: &mut ThreadRng)
    ensures
        final(v)@.to_multiset() == old(v)@.to_multiset(),
{
    v.shuffle(rng)
}

/// Lexicographic order by code point, which is also the byte order of the
/// UTF-8 encodings.
pub open spec fn text_le(a: Seq<char>, b: Seq<char>) -> bool
    decreases a.len(),
{
    if a.len() == 0 {
        true
    } else if b.len() == 0 {
        false
    } else if a[0] != b[0] {
        (a[0] as u32) < (b[0] as u32)
    } else {
        text_le(a.skip(1), b.skip(1))
    }
}

proof fn lemma_text_le_total(a: Seq<char>, b: Seq<char>)
    ensures
        text_le(a, b) || text_le(b, a),
    decreases a.len(),
{
    if a.len() > 0 && b.len() > 0 && a[0] == b[0] {
        lemma_text_le_total(a.skip(1), b.skip(1));
    } else if a.len() > 0 && b.len() > 0 {
        assert((a[0] as u32) != (b[0] as u32)) by {
            vstd::utf8::char_u32_cast(a[0], a[0] as u32);
            vstd::utf8::char_u32_cast(b[0], b[0] as u32);
        }
    }
}

proof fn lemma_text_le_trans(a: Seq<char>, b: Seq<char>, c: Seq<char>)
    requires
        text_le(a, b),
        text_le(b, c),
    ensures
        text_le(a, c),
    decreases a.len(),
{
    if a.len() > 0 && b.len() > 0 && c.len() > 0 && a[0] == b[0] && b[0] == c[0] {
        lemma_text_le_trans(a.skip(1), b.skip(1), c.skip(1));
    }
}

proof fn lemma_text_le_refl(a: Seq<char>)
    ensures
        text_le(a, a),
    decreases a.len(),
{
    if a.len() > 0 {
        lemma_text_le_refl(a.skip(1));
    }
}

/// What the quotes are ordered by.
pub open spec fn order_key(c: Cookie, ignore_case: bool) -> Seq<char> {
    if ignore_case {
        lower_of(c.content@)
    } else {
        c.content@
    }
}

pub open spec fn sorted_by_key(cs: Seq<Cookie>, ignore_case: bool) -> bool {
    forall|i: int, j: int|
        0 <= i < j < cs.len() ==> text_le(
            #[trigger] order_key(cs[i], ignore_case),
            #[trigger] order_key(cs[j], ignore_case),
        )
}

/// `new` holds quotes of `old`, quote `k` being `old[idx[k]]`, and quotes
/// with the same key come in their order in `old`.
pub open spec fn stable_from(new: Seq<Cookie>, old: Seq<Cookie>, idx: Seq<int>, ignore_case: bool) -> bool {
    &&& idx.len() == new.len()
    &&& forall|k: int| 0 <= k < new.len() ==> 0 <= #[trigger] idx[k] < old.len() && new[k] == old[idx[k]]
    &&& forall|a: int, b: int|
        0 <= a < b < new.len() && order_key(new[a], ignore_case) == order_key(new[b], ignore_case)
            ==> #[trigger] idx[a] < #[trigger] idx[b]
}

proof fn lemma_insert_stable(
    before: Seq<Cookie>,
    orig: Seq<Cookie>,
    idx: Seq<int>,
    i: int,
    j: int,
    c: Cookie,
    ignore_case: bool,
)
    requires
        stable_from(before, orig, idx, ignore_case),
        sorted_by_key(before, ignore_case),
        forall|k: int| 0 <= k < idx.len() ==> #[trigger] idx[k] < i,
        0 <= i < orig.len(),
        c == orig[i],
        0 <= j <= before.len(),
        forall|t: int| 0 <= t < j ==> text_le(order_key(#[trigger] before[t], ignore_case), order_key(c, ignore_case)),
        j < before.len() ==> !text_le(order_key(before[j], ignore_case), order_key(c, ignore_case)),
    ensures
        stable_from(before.insert(j, c), orig, idx.insert(j, i), ignore_case),
        forall|k: int| 0 <= k < idx.len() + 1 ==> #[trigger] idx.insert(j, i)[k] < i + 1,
{
    let after = before.insert(j, c);
    let idx2 = idx.insert(j, i);
    assert forall|k: int| 0 <= k < after.len() implies 0 <= #[trigger] idx2[k] < orig.len() && after[k]
        == orig[idx2[k]] by {
        if k > j {
            assert(idx2[k] == idx[k - 1]);
        }
    }
    assert forall|a: int, b: int|
        0 <= a < b < after.len() && order_key(after[a], ignore_case) == order_key(after[b], ignore_case)
            implies #[trigger] idx2[a] < #[trigger] idx2[b] by {
        if b < j {
        } else if b == j {
        } else if a < j {
            assert(idx2[b] == idx[b - 1]);
            assert(after[b] == before[b - 1]);
        } else if a == j {
            let kc = order_key(c, ignore_case);
            let kb = order_key(before[b - 1], ignore_case);
            assert(after[b] == before[b - 1]);
            assert(kb == kc);
            lemma_text_le_refl(kc);
            if b - 1 > j {
                assert(text_le(order_key(before[j], ignore_case), kb));
            }
            assert(false);
        } else {
            assert(idx2[a] == idx[a - 1] && idx2[b] == idx[b - 1]);
            assert(after[a] == before[a - 1] && after[b] == before[b - 1]);
        }
    }
    assert forall|k: int| 0 <= k < idx.len() + 1 implies #[trigger] idx2[k] < i + 1 by {
        if k > j {
            assert(idx2[k] == idx[k - 1]);
        } else if k < j {
            assert(idx2[k] == idx[k]);
        }
    }
}

fn text_le_exec(a: &Vec<char>, b: &Vec<char>) -> (r: bool)
    ensures
        r == text_le(a@, b@),
{
    let mut i: usize = 0;
    assert(a@.skip(0) =~= a@ && b@.skip(0) =~= b@);
    while i < a.len() && i < b.len()
        invariant
            i <= a@.len(),
            i <= b@.len(),
            text_le(a@.skip(i as int), b@.skip(i as int)) == text_le(a@, b@),
        decreases a@.len() - i,
    {
        let ghost (sa, sb) = (a@.skip(i as int), b@.skip(i as int));
        if a[i] != b[i] {
            assert(sa[0] == a@[i as int] && sb[0] == b@[i as int]);
            return (a[i] as u32) < (b[i] as u32);
        }
        assert(sa.skip(1) =~= a@.skip(i + 1));
        assert(sb.skip(1) =~= b@.skip(i + 1));
        i += 1;
    }
    i == a.len()
}

fn key_of(c: &Cookie, ignore_case: bool) -> (r: Vec<char>)
    ensures
        r@ == order_key(*c, ignore_case),
{
    if ignore_case {
        let low = lowercase(c.content.as_str());
        crate::cookie::text::chars_of(low.as_str())
    } else {
        crate::cookie::text::chars_of(c.content.as_str())
    }
}

impl CookieJar {
    /// Sorts the quotes alphabetically, ignoring case when asked, keeping
    /// equal ones in their order, and marks the jar as ordered.
    pub fn order(&mut self, ignore_case: bool)
        ensures
            final(self).cookies@.to_multiset() == old(self).cookies@.to_multiset(),
            sorted_by_key(final(self).cookies@, ignore_case),
            exists|idx: Seq<int>| stable_from(final(self).cookies@, old(self).cookies@, idx, ignore_case),
            final(self).flags == old(self).flags | FLAGS_ORDERED,
            *final(self) == (CookieJar {
                cookies: final(self).cookies,
                flags: final(self).flags,
                ..*old(self)
            }),
    {
        let ghost orig = self.cookies@;
        let mut taken: Vec<Cookie> = Vec::new();
        std::mem::swap(&mut self.cookies, &mut taken);
        let mut rest = crate::cookie::reversed(taken);
        let n = rest.len();
        let mut keys: Vec<Vec<char>> = Vec::new();
        let mut i: usize = 0;
        let ghost mut idx: Seq<int> = Seq::empty();
        assert(orig.take(0) =~= Seq::<Cookie>::empty());
        while rest.len() > 0
            invariant
                n == orig.len(),
                i + rest@.len() == n,
                forall|k: int| 0 <= k < rest@.len() ==> rest@[k] == orig[n - 1 - k],
                keys@.len() == self.cookies@.len(),
                forall|k: int|
                    0 <= k < keys@.len() ==> (#[trigger] keys@[k])@ == order_key(
                        self.cookies@[k],
                        ignore_case,
                    ),
                sorted_by_key(self.cookies@, ignore_case),
                stable_from(self.cookies@, orig, idx, ignore_case),
                forall|k: int| 0 <= k < idx.len() ==> #[trigger] idx[k] < i,
                self.cookies@.to_multiset() == orig.take(i as int).to_multiset(),
                *self == (CookieJar { cookies: self.cookies, ..*old(self) }),
            decreases rest@.len(),
        {
            let c = rest.pop().unwrap();
            assert(c == orig[i as int]);
            let kc = key_of(&c, ignore_case);
            let m = keys.len();
            let mut j: usize = 0;
            while j < m && text_le_exec(&keys[j], &kc)
                invariant
                    j <= m,
                    m == keys@.len(),
                    forall|t: int| 0 <= t < j ==> text_le((#[trigger] keys@[t])@, kc@),
                decreases m - j,
            {
                j += 1;
            }
            let ghost before = self.cookies@;
            proof {
                assert forall|t: int| 0 <= t < j implies text_le(
                    order_key(#[trigger] before[t], ignore_case),
                    order_key(c, ignore_case),
                ) by {
                    assert(keys@[t]@ == order_key(before[t], ignore_case));
                }
                if j < m {
                    assert(keys@[j as int]@ == order_key(before[j as int], ignore_case));
                }
                lemma_insert_stable(before, orig, idx, i as int, j as int, c, ignore_case);
                assert forall|t: int| j <= t < m implies text_le(kc@, (#[trigger] keys@[t])@) by {
                    lemma_text_le_total(keys@[j as int]@, kc@);
                    if t > j {
                        assert(text_le(
                            order_key(before[j as int], ignore_case),
                            order_key(before[t], ignore_case),
                        ));
                        lemma_text_le_trans(kc@, keys@[j as int]@, keys@[t]@);
                    }
                }
            }
            self.cookies.insert(j, c);
            keys.insert(j, kc);
            proof {
                let after = self.cookies@;
                assert(after == before.insert(j as int, c));
                assert forall|a: int, b: int| 0 <= a < b < after.len() implies text_le(
                    #[trigger] order_key(after[a], ignore_case),
                    #[trigger] order_key(after[b], ignore_case),
                ) by {
                    if b < j {
                    } else if b == j {
                        assert(keys@[a]@ == order_key(before[a], ignore_case));
                    } else if a == j {
                        assert(after[b] == before[b - 1]);
                        assert(keys@[b]@ == order_key(before[b - 1], ignore_case));
                    } else if a < j {
                        assert(after[b] == before[b - 1]);
                        assert(text_le(
                            order_key(before[a], ignore_case),
                            order_key(before[b - 1], ignore_case),
                        ));
                    } else {
                        assert(after[a] == before[a - 1]);
                        assert(after[b] == before[b - 1]);
                        assert(text_le(
                            order_key(before[a - 1], ignore_case),
                            order_key(before[b - 1], ignore_case),
                        ));
                    }
                }
                assert(orig.take(i + 1) =~= orig.take(i as int).push(c));
                idx = idx.insert(j as int, i as int);
            }
            i += 1;
        }
        assert(orig.take(i as int) =~= orig);
        assert(stable_from(self.cookies@, old(self).cookies@, idx, ignore_case));
        self.flags = self.flags | FLAGS_ORDERED;
    }

    /// Puts the quotes in a random order and marks the jar as randomized.
    pub fn shuffle(&mut self, rng: &mut ThreadRng)
        ensures
            final(self).cookies@.to_multiset() == old(self).cookies@.to_multiset(),
            final(self).flags == old(self).flags | FLAGS_RANDOMIZED,
            *final(self) == (CookieJar {
                cookies: final(self).cookies,
                flags: final(self).flags,
                ..*old(self)
            }),
    {
        shuffle_in_place(&mut self.cookies, rng);
        self.flags = self.flags | FLAGS_RANDOMIZED;
    }
}

} // verus!
