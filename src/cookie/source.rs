//! Which files under a shelf's location hold quotes: not index files, not
//! hidden files, and offensive ones only when asked for.

use crate::cookie::text::chars_of;
use crate::cookie::CookieError;
use vstd::prelude::*;

verus! {

/// Whether the glob `pattern` matches `path`; `None` when the pattern is
/// malformed.
pub uninterp spec fn glob_matches(pattern: Seq<char>, path: Seq<char>) -> Option<bool>;

/// Relies on `glob::Pattern::new` and `glob::Pattern::matches`: compiling
/// may fail, and whether a compiled pattern matches depends on the two
/// texts alone.
#[verifier::external_body]
fn glob_match(pattern: &str, path: &str) -> (r: Option<bool>)
    ensures
        r == glob_matches(pattern@, path@),
{
    match glob::Pattern::new(pattern) {
        Ok(p) => Some(p.matches(path)),
        Err(_) => None,
    }
}

/// The last component of a `/`-separated path.
pub open spec fn file_name(p: Seq<char>) -> Seq<char>
    decreases p.len(),
{
    if p.len() == 0 {
        p
    } else if p.last() == '/' {
        Seq::empty()
    } else {
        file_name(p.drop_last()).push(p.last())
    }
}

/// A file that is neither hidden nor an index file.
pub open spec fn is_quote_file(p: Seq<char>) -> bool {
    let n = file_name(p);
    !(n.len() > 0 && n[0] == '.') && !(n.len() >= 4 && n.subrange(n.len() - 4, n.len() as int)
        == seq!['.', 'd', 'a', 't'])
}

/// The glob that matches files in an `off` directory under `loc`.
pub open spec fn off_dir_pattern(loc: Seq<char>) -> Seq<char> {
    loc + seq!['/', '*', '*', '/', 'o', 'f', 'f', '/', '*']
}

/// The glob that matches files named `*-o` under `loc`.
pub open spec fn off_file_pattern(loc: Seq<char>) -> Seq<char> {
    loc + seq!['/', '*', '*', '/', '*', '-', 'o']
}

/// Whether file `path` under `loc` is loaded, given which kinds of quotes
/// are wanted; an error when `loc` makes a malformed pattern.
pub open spec fn source_wanted(loc: Seq<char>, path: Seq<char>, normal: bool, offensive: bool) -> Result<
    bool,
    CookieError,
> {
    match (glob_matches(off_dir_pattern(loc), path), glob_matches(off_file_pattern(loc), path)) {
        (Some(d), Some(f)) => {
            let off = d || f;
            Ok(is_quote_file(path) && ((normal && offensive) || (normal && !off) || (offensive
                && off)))
        },
        _ => Err(CookieError::InvalidPattern),
    }
}

fn name_start(p: &Vec<char>) -> (r: usize)
    ensures
        r <= p@.len(),
        p@.subrange(r as int, p@.len() as int) == file_name(p@),
{
    let mut k = p.len();
    assert(p@.subrange(k as int, k as int) =~= Seq::<char>::empty());
    assert(p@.subrange(0, k as int) =~= p@);
    assert(file_name(p@) + Seq::<char>::empty() =~= file_name(p@));
    while k > 0 && p[k - 1] != '/'
        invariant
            k <= p@.len(),
            file_name(p@) == file_name(p@.subrange(0, k as int)) + p@.subrange(
                k as int,
                p@.len() as int,
            ),
        decreases k,
    {
        let ghost pre = p@.subrange(0, k as int);
        assert(pre.drop_last() =~= p@.subrange(0, k - 1));
        assert(file_name(pre) == file_name(pre.drop_last()).push(pre.last()));
        assert(file_name(p@.subrange(0, k - 1)).push(p@[k - 1]) + p@.subrange(k as int, p@.len() as int)
            =~= file_name(p@.subrange(0, k - 1)) + p@.subrange(k - 1, p@.len() as int));
        k -= 1;
    }
    assert(p@.subrange(0, 0) =~= Seq::<char>::empty());
    assert(file_name(p@.subrange(0, k as int)) =~= Seq::<char>::empty());
    assert(Seq::<char>::empty() + p@.subrange(k as int, p@.len() as int) =~= p@.subrange(
        k as int,
        p@.len() as int,
    ));
    k
}

fn quote_file(p: &Vec<char>) -> (r: bool)
    ensures
        r == is_quote_file(p@),
{
    let s = name_start(p);
    let n = p.len();
    let ghost name = file_name(p@);
    assert(name.len() == n - s);
    if s < n && p[s] == '.' {
        assert(name[0] == p@[s as int]);
        return false;
    }
    if n - s >= 4 && p[n - 4] == '.' && p[n - 3] == 'd' && p[n - 2] == 'a' && p[n - 1] == 't' {
        assert(name.subrange(name.len() - 4, name.len() as int) =~= seq!['.', 'd', 'a', 't']);
        return false;
    }
    proof {
        if name.len() >= 4 {
            let tail = name.subrange(name.len() - 4, name.len() as int);
            assert(tail[0] == p@[n - 4] && tail[1] == p@[n - 3] && tail[2] == p@[n - 2] && tail[3]
                == p@[n - 1]);
        }
        if name.len() > 0 {
            assert(name[0] == p@[s as int]);
        }
    }
    true
}

fn pattern_under(loc: &str, suffix: &str) -> (r: String)
    ensures
        r@ == loc@ + suffix@,
{
    let mut s = String::from_str(loc);
    s.append(suffix);
    s
}

/// Decides whether file `path`, found under the shelf location `loc`, is
/// loaded: index files and hidden files never are; files in an `off`
/// directory or named `*-o` are offensive and the others normal.
pub fn wanted_source(loc: &str, path: &str, normal: bool, offensive: bool) -> (r: Result<bool, CookieError>)
    ensures
        r == source_wanted(loc@, path@, normal, offensive),
{
    let dir_pattern = pattern_under(loc, "/**/off/*");
    let file_pattern = pattern_under(loc, "/**/*-o");
    proof {
        reveal_strlit("/**/off/*");
        reveal_strlit("/**/*-o");
        assert(dir_pattern@ =~= off_dir_pattern(loc@));
        assert(file_pattern@ =~= off_file_pattern(loc@));
    }
    let d = glob_match(dir_pattern.as_str(), path);
    let f = glob_match(file_pattern.as_str(), path);
    match (d, f) {
        (Some(d), Some(f)) => {
            let off = d || f;
            let p = chars_of(path);
            Ok(quote_file(&p) && ((normal && offensive) || (normal && !off) || (offensive && off)))
        },
        _ => Err(CookieError::InvalidPattern),
    }
}

/// The texts of the paths.
pub open spec fn path_views(paths: Seq<String>) -> Seq<Seq<char>> {
    paths.map_values(|p: String| p@)
}

/// The paths that a shelf at `loc` loads, in their order.
pub open spec fn wanted_paths(loc: Seq<char>, paths: Seq<Seq<char>>, normal: bool, offensive: bool) -> Seq<
    Seq<char>,
> {
    paths.filter(|p: Seq<char>| source_wanted(loc, p, normal, offensive) == Ok::<bool, CookieError>(true))
}

/// The files among `paths` that a shelf at `loc` loads, in order; an
/// error when the location makes a malformed pattern, or when it holds no
/// file to load.
pub fn select_sources(loc: &str, paths: &Vec<String>, normal: bool, offensive: bool) -> (r: Result<
    Vec<String>,
    CookieError,
>)
    ensures
        r is Ok ==> path_views(r->Ok_0@) == wanted_paths(loc@, path_views(paths@), normal, offensive)
            && r->Ok_0@.len() > 0,
        (r == Err::<Vec<String>, CookieError>(CookieError::InvalidPattern)) <==> exists|j: int|
            0 <= j < paths@.len() && source_wanted(loc@, (#[trigger] paths@[j])@, normal, offensive)
                is Err,
        (r == Err::<Vec<String>, CookieError>(CookieError::NotFound)) <==> (forall|j: int|
            0 <= j < paths@.len() ==> source_wanted(loc@, (#[trigger] paths@[j])@, normal, offensive)
                is Ok) && wanted_paths(loc@, path_views(paths@), normal, offensive).len() == 0,
        r is Err ==> r == Err::<Vec<String>, CookieError>(CookieError::InvalidPattern) || r
            == Err::<Vec<String>, CookieError>(CookieError::NotFound),
{
    let ghost all = path_views(paths@);
    let ghost pred = |p: Seq<char>| source_wanted(loc@, p, normal, offensive) == Ok::<bool, CookieError>(true);
    let mut v: Vec<String> = Vec::new();
    let mut k: usize = 0;
    assert(all.take(0).filter(pred) =~= Seq::<Seq<char>>::empty()) by {
        reveal(Seq::filter);
    }
    while k < paths.len()
        invariant
            k <= paths@.len(),
            all == path_views(paths@),
            pred == (|p: Seq<char>| source_wanted(loc@, p, normal, offensive) == Ok::<bool, CookieError>(true)),
            path_views(v@) == all.take(k as int).filter(pred),
            forall|j: int| 0 <= j < k ==> source_wanted(loc@, (#[trigger] paths@[j])@, normal, offensive) is Ok,
        decreases paths@.len() - k,
    {
        let w = wanted_source(loc, paths[k].as_str(), normal, offensive);
        let ghost before = v@;
        proof {
            reveal(Seq::filter);
            assert(all.take(k + 1).drop_last() =~= all.take(k as int));
            assert(all.take(k + 1).last() == paths@[k as int]@);
        }
        match w {
            Err(e) => {
                assert(source_wanted(loc@, paths@[k as int]@, normal, offensive) is Err);
                return Err(e);
            },
            Ok(true) => {
                v.push(paths[k].clone());
                assert(path_views(v@) =~= path_views(before).push(paths@[k as int]@));
            },
            Ok(false) => {},
        }
        k += 1;
    }
    assert(all.take(k as int) =~= all);
    if v.len() == 0 {
        return Err(CookieError::NotFound);
    }
    Ok(v)
}

} // verus!
