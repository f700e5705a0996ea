//! The text form of a quote collection: records separated by a line that
//! holds only the delimiter, modelled on sequences of chars.

use vstd::prelude::*;
use vstd::std_specs::iter::IteratorSpec;

verus! {

/// Line endings made uniform: each `\r\n`, then each remaining `\r`, becomes `\n`.
pub open spec fn normalize(s: Seq<char>) -> Seq<char>
    decreases s.len(),
{
    if s.len() == 0 {
        s
    } else if s.len() >= 2 && s[0] == '\r' && s[1] == '\n' {
        seq!['\n'] + normalize(s.skip(2))
    } else if s[0] == '\r' {
        seq!['\n'] + normalize(s.skip(1))
    } else {
        seq![s[0]] + normalize(s.skip(1))
    }
}

/// Whether `s` starts with the separator `\n`, `d`, `\n`.
pub open spec fn at_separator(s: Seq<char>, d: char) -> bool {
    s.len() >= 3 && s[0] == '\n' && s[1] == d && s[2] == '\n'
}

/// The pieces of `s` between separators, scanning from the left; `cur` is
/// the piece read so far.
pub open spec fn split_from(s: Seq<char>, d: char, cur: Seq<char>) -> Seq<Seq<char>>
    decreases s.len(),
{
    if s.len() == 0 {
        seq![cur]
    } else if at_separator(s, d) {
        seq![cur] + split_from(s.skip(3), d, Seq::empty())
    } else {
        split_from(s.skip(1), d, cur.push(s[0]))
    }
}

pub open spec fn split_records(s: Seq<char>, d: char) -> Seq<Seq<char>> {
    split_from(s, d, Seq::empty())
}

/// `s` without every trailing `\n` followed by `d`.
pub open spec fn trim_tail(s: Seq<char>, d: char) -> Seq<char>
    decreases s.len(),
{
    if s.len() >= 2 && s[s.len() - 2] == '\n' && s[s.len() - 1] == d {
        trim_tail(s.subrange(0, s.len() - 2), d)
    } else {
        s
    }
}

/// The characters that Unicode calls white space.
pub open spec fn is_space(c: char) -> bool {
    let u = c as u32;
    (0x09 <= u <= 0x0D) || u == 0x20 || u == 0x85 || u == 0xA0 || u == 0x1680 || (0x2000 <= u
        <= 0x200A) || u == 0x2028 || u == 0x2029 || u == 0x202F || u == 0x205F || u == 0x3000
}

pub open spec fn is_blank(s: Seq<char>) -> bool {
    forall|i: int| 0 <= i < s.len() ==> is_space(#[trigger] s[i])
}

/// The trimmed pieces that hold more than white space, in order.
pub open spec fn kept(pieces: Seq<Seq<char>>, d: char) -> Seq<Seq<char>>
    decreases pieces.len(),
{
    if pieces.len() == 0 {
        Seq::empty()
    } else {
        let k = kept(pieces.drop_last(), d);
        let r = trim_tail(pieces.last(), d);
        if is_blank(r) {
            k
        } else {
            k.push(r)
        }
    }
}

/// The quotes of a source text with delimiter `d`.
pub open spec fn records(text: Seq<char>, d: char) -> Seq<Seq<char>> {
    kept(split_records(normalize(text), d), d)
}

/// `s` without every trailing copy of `pat`.
pub open spec fn trim_end_all(s: Seq<char>, pat: Seq<char>) -> Seq<char>
    decreases s.len(),
{
    if pat.len() > 0 && s.len() >= pat.len() && s.subrange(s.len() - pat.len(), s.len() as int)
        == pat {
        trim_end_all(s.subrange(0, s.len() - pat.len()), pat)
    } else {
        s
    }
}

/// `s` without every leading copy of `pat`.
pub open spec fn trim_start_all(s: Seq<char>, pat: Seq<char>) -> Seq<char>
    decreases s.len(),
{
    if pat.len() > 0 && s.len() >= pat.len() && s.subrange(0, pat.len() as int) == pat {
        trim_start_all(s.subrange(pat.len() as int, s.len() as int), pat)
    } else {
        s
    }
}

/// The chars of `s`, in order.
pub fn chars_of(s: &str) -> (r: Vec<char>)
    ensures
        r@ == s@,
{
    broadcast use vstd::string::axiom_spec_iter, vstd::string::next_postcondition;

    let mut it = s.chars();
    let mut v: Vec<char> = Vec::new();
    loop
        invariant
            v@ + it.remaining() == s@,
            it.decrease() is Some,
        ensures
            v@ == s@,
        decreases it.decrease()->0,
    {
        match it.next() {
            Some(c) => {
                v.push(c);
                assert(v@ + it.remaining() =~= s@);
            },
            None => {
                assert(v@ =~= s@);
                break;
            },
        }
    }
    v
}

/// Relies on `String: FromIterator<char>`: the string of these chars.
#[verifier::external_body]
pub fn string_of(cs: &[char]) -> (r: String)
    ensures
        r@ == cs@,
{
    cs.iter().collect()
}

pub fn normalize_newlines(s: &Vec<char>) -> (r: Vec<char>)
    ensures
        r@ == normalize(s@),
{
    let mut out: Vec<char> = Vec::new();
    let mut i: usize = 0;
    assert(s@.skip(0) =~= s@);
    assert(out@ + normalize(s@) =~= normalize(s@));
    while i < s.len()
        invariant
            i <= s@.len(),
            out@ + normalize(s@.skip(i as int)) == normalize(s@),
        decreases s@.len() - i,
    {
        let ghost rest = s@.skip(i as int);
        if s[i] == '\r' && i + 1 < s.len() && s[i + 1] == '\n' {
            assert(rest.skip(2) =~= s@.skip(i + 2));
            out.push('\n');
            i += 2;
        } else if s[i] == '\r' {
            assert(rest.skip(1) =~= s@.skip(i + 1));
            out.push('\n');
            i += 1;
        } else {
            assert(rest.skip(1) =~= s@.skip(i + 1));
            out.push(s[i]);
            i += 1;
        }
        assert(out@ + normalize(s@.skip(i as int)) =~= normalize(s@));
    }
    assert(s@.skip(i as int) =~= Seq::<char>::empty());
    assert(out@ =~= out@ + normalize(s@.skip(i as int)));
    out
}

pub open spec fn views(v: Seq<Vec<char>>) -> Seq<Seq<char>> {
    v.map_values(|p: Vec<char>| p@)
}

pub fn split_on_separator(s: &Vec<char>, d: char) -> (r: Vec<Vec<char>>)
    ensures
        views(r@) == split_records(s@, d),
{
    let mut pieces: Vec<Vec<char>> = Vec::new();
    let mut cur: Vec<char> = Vec::new();
    let mut i: usize = 0;
    assert(s@.skip(0) =~= s@);
    assert(views(pieces@) + split_records(s@, d) =~= split_records(s@, d));
    while i < s.len()
        invariant
            i <= s@.len(),
            views(pieces@) + split_from(s@.skip(i as int), d, cur@) == split_records(s@, d),
        decreases s@.len() - i,
    {
        let ghost rest = s@.skip(i as int);
        let ghost before = views(pieces@);
        if s.len() - i >= 3 && s[i] == '\n' && s[i + 1] == d && s[i + 2] == '\n' {
            assert(rest.skip(3) =~= s@.skip(i + 3));
            let done = cur;
            pieces.push(done);
            cur = Vec::new();
            i += 3;
            assert(views(pieces@) =~= before + seq![done@]);
        } else {
            assert(rest.skip(1) =~= s@.skip(i + 1));
            cur.push(s[i]);
            i += 1;
            assert(views(pieces@) =~= before);
        }
    }
    let ghost before = views(pieces@);
    assert(s@.skip(i as int) =~= Seq::<char>::empty());
    pieces.push(cur);
    assert(views(pieces@) =~= before + seq![cur@]);
    pieces
}

/// The end of `s` once every trailing `\n` followed by `d` is cut off.
fn trimmed_end(s: &Vec<char>, d: char) -> (r: usize)
    ensures
        r <= s@.len(),
        s@.subrange(0, r as int) == trim_tail(s@, d),
{
    let mut end = s.len();
    assert(s@.subrange(0, end as int) =~= s@);
    while end >= 2 && s[end - 2] == '\n' && s[end - 1] == d
        invariant
            end <= s@.len(),
            trim_tail(s@.subrange(0, end as int), d) == trim_tail(s@, d),
        decreases end,
    {
        assert(s@.subrange(0, end as int).subrange(0, end - 2) =~= s@.subrange(0, end - 2));
        end -= 2;
    }
    end
}

pub fn is_space_char(c: char) -> (r: bool)
    ensures
        r == is_space(c),
{
    let u = c as u32;
    (0x09 <= u && u <= 0x0D) || u == 0x20 || u == 0x85 || u == 0xA0 || u == 0x1680 || (0x2000 <= u
        && u <= 0x200A) || u == 0x2028 || u == 0x2029 || u == 0x202F || u == 0x205F || u == 0x3000
}

fn blank_prefix(s: &Vec<char>, end: usize) -> (r: bool)
    requires
        end <= s@.len(),
    ensures
        r == is_blank(s@.subrange(0, end as int)),
{
    let mut i: usize = 0;
    while i < end
        invariant
            i <= end,
            end <= s@.len(),
            forall|j: int| 0 <= j < i ==> is_space(#[trigger] s@[j]),
        decreases end - i,
    {
        if !is_space_char(s[i]) {
            assert(s@.subrange(0, end as int)[i as int] == s@[i as int]);
            return false;
        }
        i += 1;
    }
    assert forall|j: int| 0 <= j < end implies is_space(#[trigger] s@.subrange(0, end as int)[j]) by {
        assert(s@.subrange(0, end as int)[j] == s@[j]);
    }
    true
}

/// The record that a piece contributes: trimmed, and `None` when blank.
pub fn trimmed_record(p: &Vec<char>, d: char) -> (r: Option<Vec<char>>)
    ensures
        is_blank(trim_tail(p@, d)) ==> r is None,
        !is_blank(trim_tail(p@, d)) ==> (r matches Some(v) && v@ == trim_tail(p@, d)),
{
    let end = trimmed_end(p, d);
    if blank_prefix(p, end) {
        None
    } else {
        let mut v: Vec<char> = Vec::new();
        let mut i: usize = 0;
        while i < end
            invariant
                i <= end,
                end <= p@.len(),
                v@ == p@.subrange(0, i as int),
            decreases end - i,
        {
            v.push(p[i]);
            i += 1;
            assert(v@ =~= p@.subrange(0, i as int));
        }
        Some(v)
    }
}

/// `s` without every trailing copy of `pat`.
pub fn trim_end_matches(s: &Vec<char>, pat: &Vec<char>) -> (r: Vec<char>)
    ensures
        r@ == trim_end_all(s@, pat@),
{
    let mut end = s.len();
    let p = pat.len();
    assert(s@.subrange(0, end as int) =~= s@);
    if p == 0 {
        assert(trim_end_all(s@, pat@) == s@);
    }
    if p > 0 {
        loop
            invariant
                end <= s@.len(),
                p == pat@.len(),
                p > 0,
                trim_end_all(s@.subrange(0, end as int), pat@) == trim_end_all(s@, pat@),
            ensures
                end <= s@.len(),
                trim_end_all(s@, pat@) == s@.subrange(0, end as int),
            decreases end,
        {
            if end < p {
                assert(trim_end_all(s@.subrange(0, end as int), pat@) == s@.subrange(0, end as int));
                break;
            }
            let mut same = true;
            let mut k: usize = 0;
            while k < p
                invariant
                    k <= p,
                    p <= end,
                    end <= s@.len(),
                    p == pat@.len(),
                    same == (forall|j: int| 0 <= j < k ==> s@[end - p + j] == pat@[j]),
                decreases p - k,
            {
                if s[end - p + k] != pat[k] {
                    same = false;
                }
                k += 1;
            }
            let ghost cut = s@.subrange(0, end as int);
            if same {
                assert(cut.subrange(cut.len() - p, cut.len() as int) =~= pat@);
                assert(cut.subrange(0, cut.len() - p) =~= s@.subrange(0, end - p));
                end -= p;
            } else {
                assert(cut.subrange(cut.len() - p, cut.len() as int) != pat@) by {
                    let j = choose|j: int| 0 <= j < p && s@[end - p + j] != pat@[j];
                    assert(cut.subrange(cut.len() - p, cut.len() as int)[j] == s@[end - p + j]);
                }
                assert(trim_end_all(cut, pat@) == cut);
                break;
            }
        }
    }
    assert(trim_end_all(s@, pat@) == s@.subrange(0, end as int));
    let mut v: Vec<char> = Vec::new();
    let mut i: usize = 0;
    while i < end
        invariant
            i <= end,
            end <= s@.len(),
            trim_end_all(s@, pat@) == s@.subrange(0, end as int),
            v@ == s@.subrange(0, i as int),
        decreases end - i,
    {
        v.push(s[i]);
        i += 1;
        assert(v@ =~= s@.subrange(0, i as int));
    }
    v
}

/// `s` without every leading copy of `pat`.
pub fn trim_start_matches(s: &Vec<char>, pat: &Vec<char>) -> (r: Vec<char>)
    ensures
        r@ == trim_start_all(s@, pat@),
{
    let mut start: usize = 0;
    let p = pat.len();
    let n = s.len();
    assert(s@.subrange(0, s@.len() as int) =~= s@);
    if p == 0 {
        assert(trim_start_all(s@, pat@) == s@);
    }
    if p > 0 {
        loop
            invariant
                n == s@.len(),
                start <= s@.len(),
                p == pat@.len(),
                p > 0,
                trim_start_all(s@.subrange(start as int, s@.len() as int), pat@) == trim_start_all(
                    s@,
                    pat@,
                ),
            ensures
                start <= s@.len(),
                trim_start_all(s@, pat@) == s@.subrange(start as int, s@.len() as int),
            decreases s@.len() - start,
        {
            if n - start < p {
                assert(trim_start_all(s@.subrange(start as int, s@.len() as int), pat@)
                    == s@.subrange(start as int, s@.len() as int));
                break;
            }
            let mut same = true;
            let mut k: usize = 0;
            while k < p
                invariant
                    k <= p,
                    n == s@.len(),
                    start + p <= s@.len(),
                    p == pat@.len(),
                    same == (forall|j: int| 0 <= j < k ==> s@[start + j] == pat@[j]),
                decreases p - k,
            {
                if s[start + k] != pat[k] {
                    same = false;
                }
                k += 1;
            }
            let ghost rest = s@.subrange(start as int, s@.len() as int);
            if same {
                assert(rest.subrange(0, p as int) =~= pat@);
                assert(rest.subrange(p as int, rest.len() as int) =~= s@.subrange(
                    start + p,
                    s@.len() as int,
                ));
                start += p;
            } else {
                assert(rest.subrange(0, p as int) != pat@) by {
                    let j = choose|j: int| 0 <= j < p && s@[start + j] != pat@[j];
                    assert(rest.subrange(0, p as int)[j] == s@[start + j]);
                }
                assert(trim_start_all(rest, pat@) == rest);
                break;
            }
        }
    }
    assert(trim_start_all(s@, pat@) == s@.subrange(start as int, s@.len() as int));
    let mut v: Vec<char> = Vec::new();
    let mut i: usize = start;
    while i < s.len()
        invariant
            start <= i <= s@.len(),
            trim_start_all(s@, pat@) == s@.subrange(start as int, s@.len() as int),
            v@ == s@.subrange(start as int, i as int),
        decreases s@.len() - i,
    {
        v.push(s[i]);
        i += 1;
        assert(v@ =~= s@.subrange(start as int, i as int));
    }
    v
}

} // verus!
