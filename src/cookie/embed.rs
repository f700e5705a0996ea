//! Names of the quote collections bundled with the program. The bundle
//! itself is read by the caller; here are the rules on its paths.

use crate::cookie::text::{chars_of, string_of, trim_start_all, trim_start_matches};
use crate::cookie::token_views;
use crate::cookie::CookieError;
use vstd::prelude::*;

verus! {

/// Marks a location inside the bundle.
pub const EMBED_PREFIX: &'static str = "embed:";

pub open spec fn embed_prefix() -> Seq<char> {
    seq!['e', 'm', 'b', 'e', 'd', ':']
}

pub open spec fn has_prefix(s: Seq<char>, p: Seq<char>) -> bool {
    p.len() <= s.len() && s.subrange(0, p.len() as int) == p
}

/// The primary language subtag of a well-formed language tag; `None` for
/// a tag that is not well formed.
pub uninterp spec fn language_of(tag: Seq<char>) -> Option<Seq<char>>;

/// Relies on `oxilangtag::LanguageTag::parse` and `primary_language`: a
/// tag is well formed or not by its text alone, and its primary language
/// subtag is the text up to the end of that subtag.
#[verifier::external_body]
fn primary_language(tag: &str) -> (r: Option<String>)
    ensures
        r is None <==> language_of(tag@) is None,
        r matches Some(l) ==> language_of(tag@) == Some(l@) && has_prefix(tag@, l@),
{
    match oxilangtag::LanguageTag::parse(tag) {
        Ok(t) => Some(t.primary_language().to_string()),
        Err(_) => None,
    }
}

/// The bundled location for `lang`: its own when the bundle has an entry
/// under it, else English.
pub open spec fn language_location(lang: Seq<char>, names: Seq<Seq<char>>) -> Seq<char> {
    if exists|i: int| 0 <= i < names.len() && has_prefix(#[trigger] names[i], lang) {
        embed_prefix() + lang
    } else {
        embed_prefix() + seq!['e', 'n']
    }
}

/// The bundled location for a system locale, English when there is none.
pub open spec fn locale_location(locale: Option<Seq<char>>, names: Seq<Seq<char>>) -> Result<
    Seq<char>,
    CookieError,
> {
    match locale {
        None => Ok(language_location(seq!['e', 'n'], names)),
        Some(tag) => match language_of(tag) {
            None => Err(CookieError::InvalidLocale),
            Some(lang) => Ok(language_location(lang, names)),
        },
    }
}

fn starts_with(s: &Vec<char>, p: &Vec<char>) -> (r: bool)
    ensures
        r == has_prefix(s@, p@),
{
    if p.len() > s.len() {
        return false;
    }
    let mut k: usize = 0;
    while k < p.len()
        invariant
            k <= p@.len() <= s@.len(),
            forall|j: int| 0 <= j < k ==> s@[j] == p@[j],
        decreases p@.len() - k,
    {
        if s[k] != p[k] {
            assert(s@.subrange(0, p@.len() as int)[k as int] != p@[k as int]);
            return false;
        }
        k += 1;
    }
    assert(s@.subrange(0, p@.len() as int) =~= p@);
    true
}

fn prefix_chars() -> (r: Vec<char>)
    ensures
        r@ == embed_prefix(),
{
    let r = chars_of(EMBED_PREFIX);
    proof {
        reveal_strlit("embed:");
    }
    assert(r@ =~= embed_prefix());
    r
}

fn joined(a: &Vec<char>, b: &Vec<char>) -> (r: String)
    ensures
        r@ == a@ + b@,
{
    let mut v: Vec<char> = Vec::new();
    let mut i: usize = 0;
    while i < a.len()
        invariant
            i <= a@.len(),
            v@ == a@.subrange(0, i as int),
        decreases a@.len() - i,
    {
        v.push(a[i]);
        i += 1;
        assert(v@ =~= a@.subrange(0, i as int));
    }
    let mut j: usize = 0;
    while j < b.len()
        invariant
            j <= b@.len(),
            a@.len() <= v@.len(),
            v@ == a@ + b@.subrange(0, j as int),
        decreases b@.len() - j,
    {
        v.push(b[j]);
        j += 1;
        assert(v@ =~= a@ + b@.subrange(0, j as int));
    }
    assert(b@.subrange(0, j as int) =~= b@);
    string_of(&v)
}

/// Paths inside the bundle.
pub struct Embedded;

impl Embedded {
    /// `path` without its leading `embed:` markers.
    pub fn trim_prefix(path: &str) -> (r: String)
        ensures
            r@ == trim_start_all(path@, embed_prefix()),
    {
        let p = chars_of(path);
        string_of(&trim_start_matches(&p, &prefix_chars()))
    }

    /// `path` marked as a location inside the bundle.
    pub fn format_path(path: &str) -> (r: String)
        ensures
            r@ == if has_prefix(path@, embed_prefix()) {
                path@
            } else {
                embed_prefix() + path@
            },
    {
        let p = chars_of(path);
        let pre = prefix_chars();
        if starts_with(&p, &pre) {
            string_of(&p)
        } else {
            joined(&pre, &p)
        }
    }

    /// The bundle entries among `names` that lie under `path`.
    pub fn find(path: &str, names: &Vec<String>) -> (r: Vec<String>)
        ensures
            token_views(r@) == token_views(names@).filter(
                |n: Seq<char>| has_prefix(n, trim_start_all(path@, embed_prefix())),
            ),
    {
        let p = chars_of(path);
        let base = trim_start_matches(&p, &prefix_chars());
        let ghost pred = |n: Seq<char>| has_prefix(n, trim_start_all(path@, embed_prefix()));
        let ghost all = token_views(names@);
        let mut r: Vec<String> = Vec::new();
        let mut i: usize = 0;
        assert(all.take(0).filter(pred) =~= Seq::<Seq<char>>::empty()) by {
            reveal(Seq::filter);
        }
        while i < names.len()
            invariant
                i <= names@.len(),
                all == token_views(names@),
                base@ == trim_start_all(path@, embed_prefix()),
                pred == (|n: Seq<char>| has_prefix(n, trim_start_all(path@, embed_prefix()))),
                token_views(r@) == all.take(i as int).filter(pred),
            decreases names@.len() - i,
        {
            let n = chars_of(names[i].as_str());
            let ghost before = r@;
            proof {
                reveal(Seq::filter);
                assert(all.take(i + 1).drop_last() =~= all.take(i as int));
                assert(all.take(i + 1).last() == n@);
            }
            if starts_with(&n, &base) {
                r.push(names[i].clone());
                assert(token_views(r@) =~= token_views(before).push(n@));
            }
            i += 1;
        }
        assert(all.take(i as int) =~= all);
        r
    }

    /// Whether the bundle has an entry under `path`.
    pub fn contains(path: &str, names: &Vec<String>) -> (r: bool)
        ensures
            r == exists|i: int|
                0 <= i < names@.len() && has_prefix(
                    #[trigger] names@[i]@,
                    trim_start_all(path@, embed_prefix()),
                ),
    {
        let p = chars_of(path);
        let base = trim_start_matches(&p, &prefix_chars());
        let mut i: usize = 0;
        while i < names.len()
            invariant
                i <= names@.len(),
                base@ == trim_start_all(path@, embed_prefix()),
                forall|j: int| 0 <= j < i ==> !has_prefix(#[trigger] names@[j]@, base@),
            decreases names@.len() - i,
        {
            let n = chars_of(names[i].as_str());
            if starts_with(&n, &base) {
                return true;
            }
            i += 1;
        }
        false
    }

    /// The bundled location for language `lang`: its own when the bundle
    /// has an entry under it, else English.
    pub fn language_location(lang: &str, names: &Vec<String>) -> (r: String)
        ensures
            r@ == language_location(lang@, token_views(names@)),
    {
        let l = chars_of(lang);
        let pre = prefix_chars();
        if Embedded::has_entry(&l, names) {
            joined(&pre, &l)
        } else {
            let en = chars_of("en");
            proof {
                reveal_strlit("en");
            }
            assert(en@ =~= seq!['e', 'n']);
            joined(&pre, &en)
        }
    }

    fn has_entry(l: &Vec<char>, names: &Vec<String>) -> (r: bool)
        ensures
            r == exists|i: int|
                0 <= i < names@.len() && has_prefix(#[trigger] token_views(names@)[i], l@),
    {
        let mut i: usize = 0;
        while i < names.len()
            invariant
                i <= names@.len(),
                forall|j: int| 0 <= j < i ==> !has_prefix(#[trigger] token_views(names@)[j], l@),
            decreases names@.len() - i,
        {
            let n = chars_of(names[i].as_str());
            assert(token_views(names@)[i as int] == n@);
            if starts_with(&n, l) {
                return true;
            }
            i += 1;
        }
        false
    }

    /// The bundled location for a system locale (English when there is
    /// none); fails when the locale is not a well-formed language tag.
    pub fn locale_location(locale: Option<&str>, names: &Vec<String>) -> (r: Result<String, CookieError>)
        ensures
            match locale_location(
                match locale {
                    Some(t) => Some(t@),
                    None => None,
                },
                token_views(names@),
            ) {
                Ok(loc) => r matches Ok(s) && s@ == loc,
                Err(e) => r == Err::<String, CookieError>(e),
            },
    {
        match locale {
            None => {
                let en = "en";
                proof {
                    reveal_strlit("en");
                }
                assert(en@ =~= seq!['e', 'n']);
                Ok(Embedded::language_location(en, names))
            },
            Some(tag) => match primary_language(tag) {
                None => Err(CookieError::InvalidLocale),
                Some(lang) => Ok(Embedded::language_location(lang.as_str(), names)),
            },
        }
    }
}

} // verus!
