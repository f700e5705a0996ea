//! The predicates that select quotes by length or by a regular expression.

use crate::cookie::serializer::byte_len;
use crate::cookie::CookieError;
use regex_lite::Regex;
use vstd::prelude::*;

verus! {

#[verifier::external_type_specification]
#[verifier::external_body]
pub struct ExRegex(Regex);

/// Whether `pattern` is a regular expression in `regex_lite`'s syntax.
pub uninterp spec fn regex_compiles(pattern: Seq<char>) -> bool;

/// Whether the regular expression `pattern` matches somewhere in `text`.
pub uninterp spec fn regex_finds(pattern: Seq<char>, text: Seq<char>) -> bool;

/// Relies on `regex_lite::Regex::new`: whether a pattern compiles depends
/// on its text alone.
#[verifier::external_body]
fn compile(pattern: &str) -> (r: Option<Regex>)
    ensures
        r is Some <==> regex_compiles(pattern@),
{
    Regex::new(pattern).ok()
}

/// A quote that takes at most `length` bytes with its newline.
pub fn is_short(quote: &str, length: usize) -> (r: bool)
    ensures
        r == (byte_len(quote@) + 1 <= length),
{
    quote.len() < length
}

/// A quote that takes more than `length` bytes with its newline.
pub fn is_long(quote: &str, length: usize) -> (r: bool)
    ensures
        r == (byte_len(quote@) + 1 > length),
{
    quote.len() >= length
}

/// The expression searched for: `pattern`, made case-insensitive when asked.
pub open spec fn full_pattern(pattern: Seq<char>, ignore_case: bool) -> Seq<char> {
    if ignore_case {
        seq!['(', '?', 'i', ')'] + pattern
    } else {
        pattern
    }
}

/// A compiled regular expression together with its source.
pub struct QuotePattern {
    source: String,
    re: Regex,
}

impl QuotePattern {
    /// The expression this pattern was compiled from.
    pub closed spec fn source(&self) -> Seq<char> {
        self.source@
    }

    /// Compiles `pattern`, case-insensitive when `ignore_case`.
    pub fn new(pattern: &str, ignore_case: bool) -> (r: Result<QuotePattern, CookieError>)
        ensures
            r is Ok <==> regex_compiles(full_pattern(pattern@, ignore_case)),
            r matches Ok(p) ==> p.source() == full_pattern(pattern@, ignore_case),
            r matches Err(e) ==> e == CookieError::InvalidPattern,
    {
        let mut source = String::new();
        if ignore_case {
            source.append("(?i)");
        }
        source.append(pattern);
        proof {
            reveal_strlit("(?i)");
            assert(source@ =~= full_pattern(pattern@, ignore_case));
        }
        match compile(source.as_str()) {
            Some(re) => Ok(QuotePattern { source, re }),
            None => Err(CookieError::InvalidPattern),
        }
    }

    /// Relies on `regex_lite::Regex::is_match`: whether the expression,
    /// compiled from `source` by `new`, matches somewhere in `text`.
    #[verifier::external_body]
    fn finds(&self, text: &str) -> (r: bool)
        ensures
            r == regex_finds(self.source(), text@),
    {
        self.re.is_match(text)
    }

    /// Whether the expression matches somewhere in `quote`.
    pub fn is_match(&self, quote: &str) -> (r: bool)
        ensures
            r == regex_finds(self.source(), quote@),
    {
        self.finds(quote)
    }
}

} // verus!
