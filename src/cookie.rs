pub mod embed;
pub mod serializer;
pub mod text;
pub mod random;
pub mod weight;
pub mod source;
pub mod pattern;
pub mod order;
pub mod decimal;

use crate::cookie::random::{checked_total, random_below, weight_sum, weighted_draw};
use crate::cookie::decimal::{
    add_numbers, is_digits, leading_value, lemma_num_bound, lemma_num_concat, lemma_num_zeros, num, pad_back,
    pad_front, zero_from, zeros,
};
use crate::cookie::weight::{
    distribute, frac_len_of, frac_part, pow10, scaled_digit_vec, scaled_digits, lemma_shares_sum, parse_weight, shares, weight_result, FULL, TOLERANCE,
};
use crate::cookie::serializer::{
    byte_len, decodes_to, detected_type, well_sized, count_agrees, wrap64, Serializer,
    SerializerType,
};
use crate::cookie::text::{
    chars_of, kept, normalize, normalize_newlines, records, split_on_separator, split_records,
    string_of, trim_end_all, trim_end_matches, trim_start_all, trim_start_matches, trimmed_record,
    views,
};
use rand::rngs::ThreadRng;
use vstd::prelude::*;

verus! {

/// Flag bit: the offsets were shuffled.
pub const FLAGS_RANDOMIZED: u64 = 0x0001;

/// Flag bit: the offsets were sorted.
pub const FLAGS_ORDERED: u64 = 0x0002;

/// Flag bit: the quotes are rot-13 encoded.
pub const FLAGS_ROTATED: u64 = 0x0004;

pub const DEFAULT_DELIMITER: char = '%';

/// What can go wrong while building, filtering or decoding a collection.
#[derive(Debug, Clone, Copy, PartialEq, Eq, Structural)]
pub enum CookieError {
    /// A weight token such as `15%` is not a decimal number of percent.
    MalformedWeight,
    /// Some shelves carry weights and the weights do not add up to 100%.
    PartialWeights,
    /// A weight token is not followed by a location.
    DanglingWeight,
    /// The system locale is not a well-formed language tag.
    InvalidLocale,
    /// A path pattern could not be compiled.
    InvalidPattern,
    /// A file named as an index file does not end in `.dat`.
    NotIndexFile,
    /// An index file is shorter than its header or its offset table is ragged.
    MalformedHeader,
    /// An index file declares another number of entries than it holds.
    TruncatedData,
    /// A location holds no source of quotes.
    NotFound,
    /// No quote is left once the sieve has been applied.
    NoMatch,
}

/// A single quote and where it came from.
#[derive(Debug, Clone)]
pub struct Cookie {
    /// The source the quote was read from.
    pub location: String,
    /// The quote itself, without its trailing separator.
    pub content: String,
    /// Byte offset of the quote in its source; 0 when unknown.
    pub offset: u64,
}

/// The shortest pause after showing a quote, in seconds.
pub const MIN_WAIT_TIME: u64 = 6;

/// The reading speed that sets the pause, in bytes per second.
pub const CHARS_PER_SEC: u64 = 20;

impl Cookie {
    /// How long to wait after showing the quote: its length with the
    /// newline at the reading speed, and never less than the minimum.
    pub fn wait_seconds(&self) -> (r: u64)
        ensures
            r == if (byte_len(self.content@) + 1) / (CHARS_PER_SEC as nat) > MIN_WAIT_TIME {
                (byte_len(self.content@) + 1) / (CHARS_PER_SEC as nat)
            } else {
                MIN_WAIT_TIME as nat
            },
    {
        let n = self.content.as_str().len() as u128;
        let t = ((n + 1) / (CHARS_PER_SEC as u128)) as u64;
        if t > MIN_WAIT_TIME {
            t
        } else {
            MIN_WAIT_TIME
        }
    }
}

/// One source of quotes together with the header fields of its index file.
#[derive(Debug, Clone)]
pub struct CookieJar {
    pub location: String,
    /// Weight of this jar, in millionths of a percent; 0 while unassigned.
    pub probability: u64,
    /// One of `homebrew`, `linux`, `freebsd`; empty for the host's layout.
    pub platform: String,
    pub version: u64,
    /// Length of the longest quote, counting its trailing newline.
    pub max_length: u64,
    /// Length of the shortest quote, counting its trailing newline.
    pub min_length: u64,
    pub flags: u64,
    pub delim: char,
    /// Size of the source text in bytes.
    pub file_size: u64,
    pub cookies: Vec<Cookie>,
}


// ---------------------------------------------------------------------
// Quotes of a jar
// ---------------------------------------------------------------------

/// The length recorded for a quote: its bytes and the newline after it.
pub open spec fn quote_len(q: Seq<char>) -> u64 {
    wrap64(byte_len(q) + 1int)
}

/// The longest recorded length; 0 when there is no quote.
pub open spec fn longest(qs: Seq<Seq<char>>) -> u64
    decreases qs.len(),
{
    if qs.len() == 0 {
        0
    } else {
        let m = longest(qs.drop_last());
        if quote_len(qs.last()) > m {
            quote_len(qs.last())
        } else {
            m
        }
    }
}

/// The shortest recorded length; `u64::MAX` when there is no quote.
pub open spec fn shortest(qs: Seq<Seq<char>>) -> u64
    decreases qs.len(),
{
    if qs.len() == 0 {
        u64::MAX
    } else {
        let m = shortest(qs.drop_last());
        if quote_len(qs.last()) < m {
            quote_len(qs.last())
        } else {
            m
        }
    }
}

/// The texts of the quotes.
pub open spec fn contents(cs: Seq<Cookie>) -> Seq<Seq<char>> {
    cs.map_values(|c: Cookie| c.content@)
}

/// A jar location: the source's name without its `.dat` extensions.
pub open spec fn jar_location(loc: Seq<char>) -> Seq<char> {
    trim_end_all(loc, ".dat"@)
}

/// `path` made relative to `parent`: every leading copy of `parent`, then
/// every leading `/`, is cut off, unless the two are equal.
pub open spec fn relative_path(path: Seq<char>, parent: Seq<char>) -> Seq<char> {
    if path == parent {
        path
    } else {
        trim_start_all(trim_start_all(path, parent), "/"@)
    }
}

/// Whether a file name ends in `.dat`.
pub open spec fn has_dat_suffix(s: Seq<char>) -> bool {
    s.len() >= 4 && s.subrange(s.len() - 4, s.len() as int) == seq!['.', 'd', 'a', 't']
}

/// `jar` is what the text `text` with delimiter `d` at `loc` parses into.
pub open spec fn parsed_from(jar: CookieJar, text: Seq<char>, loc: Seq<char>, d: char) -> bool {
    let qs = records(text, d);
    &&& jar.location@ == jar_location(loc)
    &&& jar.probability == 0
    &&& jar.platform@ == Seq::<char>::empty()
    &&& jar.version == 0
    &&& jar.flags == 0
    &&& jar.delim == d
    &&& jar.file_size == byte_len(normalize(text)) as u64
    &&& contents(jar.cookies@) == qs
    &&& jar.max_length == longest(qs)
    &&& jar.min_length == shortest(qs)
    &&& forall|i: int|
        0 <= i < jar.cookies@.len() ==> (#[trigger] jar.cookies@[i]).location@ == jar.location@
            && jar.cookies@[i].offset == 0
}

/// The elements of `v` in reverse order.
pub(crate) fn reversed<T>(v: Vec<T>) -> (r: Vec<T>)
    ensures
        r@.len() == v@.len(),
        forall|k: int| 0 <= k < v@.len() ==> r@[k] == v@[v@.len() - 1 - k],
{
    let ghost orig = v@;
    let mut v = v;
    let mut r: Vec<T> = Vec::new();
    while v.len() > 0
        invariant
            v@.len() + r@.len() == orig.len(),
            v@ == orig.take(v@.len() as int),
            forall|k: int| 0 <= k < r@.len() ==> r@[k] == orig[orig.len() - 1 - k],
        decreases v@.len(),
    {
        let x = v.pop().unwrap();
        r.push(x);
        assert(v@ =~= orig.take(v@.len() as int));
    }
    r
}

impl Default for CookieJar {
    /// An empty jar with `%` as delimiter.
    fn default() -> (r: Self)
        ensures
            r.location@ == Seq::<char>::empty(),
            r.probability == 0,
            r.platform@ == Seq::<char>::empty(),
            r.version == 0,
            r.max_length == 0,
            r.min_length == u64::MAX,
            r.flags == 0,
            r.delim == '%',
            r.file_size == 0,
            r.cookies@.len() == 0,
    {
        CookieJar {
            location: String::new(),
            probability: 0,
            platform: String::new(),
            version: 0,
            max_length: 0,
            min_length: u64::MAX,
            flags: 0,
            delim: DEFAULT_DELIMITER,
            file_size: 0,
            cookies: Vec::new(),
        }
    }
}

impl CookieJar {
    pub fn iter(&self) -> std::slice::Iter<'_, Cookie> {
        self.cookies.iter()
    }

    pub fn num_of_cookies(&self) -> (r: usize)
        ensures
            r == self.cookies@.len(),
    {
        self.cookies.len()
    }

    /// Parses a source text: line endings are made `\n`, the text is split
    /// on the separator `\n<delim>\n`, each piece loses every trailing
    /// `\n<delim>`, and pieces of white space only are dropped. The
    /// location loses its `.dat` extensions.
    pub fn from_text(content: &str, location: &str, delim: char) -> (r: Result<CookieJar, CookieError>)
        ensures
            r matches Ok(jar) && parsed_from(jar, content@, location@, delim),
    {
        let cs = chars_of(content);
        let norm = normalize_newlines(&cs);
        let norm_text = string_of(&norm);
        let file_size = norm_text.as_str().len() as u64;
        let loc_chars = chars_of(location);
        let dat = chars_of(".dat");
        let loc = string_of(&trim_end_matches(&loc_chars, &dat));
        let pieces = split_on_separator(&norm, delim);
        let ghost all = views(pieces@);
        let mut cookies: Vec<Cookie> = Vec::new();
        let mut max_length: u64 = 0;
        let mut min_length: u64 = u64::MAX;
        let mut i: usize = 0;
        while i < pieces.len()
            invariant
                i <= pieces@.len(),
                all == views(pieces@),
                all == split_records(norm@, delim),
                contents(cookies@) == kept(all.take(i as int), delim),
                max_length == longest(kept(all.take(i as int), delim)),
                min_length == shortest(kept(all.take(i as int), delim)),
                forall|k: int|
                    0 <= k < cookies@.len() ==> (#[trigger] cookies@[k]).location@ == loc@
                        && cookies@[k].offset == 0,
            decreases pieces@.len() - i,
        {
            let ghost before = kept(all.take(i as int), delim);
            assert(all.take(i + 1).drop_last() =~= all.take(i as int));
            assert(all.take(i + 1).last() == pieces@[i as int]@);
            match trimmed_record(&pieces[i], delim) {
                Some(v) => {
                    let text = string_of(&v);
                    let len = text.as_str().len();
                    let q = (len as u64).wrapping_add(1);
                    proof {
                        crate::cookie::serializer::lemma_wrapping_step(len as u64, 1);
                        vstd::arithmetic::div_mod::lemma_small_mod(
                            1,
                            0x1_0000_0000_0000_0000nat,
                        );
                    }
                    assert(q == quote_len(v@));
                    if q > max_length {
                        max_length = q;
                    }
                    if q < min_length {
                        min_length = q;
                    }
                    let ghost old_cookies = cookies@;
                    cookies.push(Cookie { location: loc.clone(), content: text, offset: 0 });
                    assert(contents(cookies@) =~= contents(old_cookies).push(v@));
                    assert(kept(all.take(i + 1), delim) == before.push(v@));
                    assert(before.push(v@).drop_last() =~= before);
                },
                None => {
                    assert(kept(all.take(i + 1), delim) == before);
                },
            }
            i += 1;
        }
        assert(all.take(i as int) =~= all);
        let jar = CookieJar {
            location: loc,
            probability: 0,
            platform: String::new(),
            version: 0,
            max_length,
            min_length,
            flags: 0,
            delim,
            file_size,
            cookies,
        };
        proof {
            reveal_strlit(".dat");
        }
        Ok(jar)
    }

    /// Keeps the quotes that `filter` admits, in order.
    pub fn filter<F: Fn(&str) -> bool>(&mut self, filter: &CookieSieve<F>) -> (r: Result<
        (),
        CookieError,
    >)
        requires
            filter.well_formed(),
        ensures
            r is Ok,
            final(self).cookies@ == old(self).cookies@.filter(
                |c: Cookie| filter.admits(c.content@),
            ),
            *final(self) == (CookieJar { cookies: final(self).cookies, ..*old(self) }),
    {
        let ghost orig = self.cookies@;
        let ghost pred = |c: Cookie| filter.admits(c.content@);
        let mut taken: Vec<Cookie> = Vec::new();
        std::mem::swap(&mut self.cookies, &mut taken);
        let mut rest = reversed(taken);
        let n = rest.len();
        let mut i: usize = 0;
        assert(orig.take(0).filter(pred) =~= Seq::<Cookie>::empty()) by {
            reveal(Seq::filter);
        }
        while rest.len() > 0
            invariant
                n == orig.len(),
                i + rest@.len() == n,
                forall|k: int| 0 <= k < rest@.len() ==> rest@[k] == orig[n - 1 - k],
                self.cookies@ == orig.take(i as int).filter(pred),
                pred == (|c: Cookie| filter.admits(c.content@)),
                filter.well_formed(),
                *self == (CookieJar { cookies: self.cookies, ..*old(self) }),
            decreases rest@.len(),
        {
            let c = rest.pop().unwrap();
            assert(c == orig[i as int]);
            let text = c.content.as_str();
            let keep = filter.filter(text);
            proof {
                reveal(Seq::filter);
                assert(orig.take(i + 1).drop_last() =~= orig.take(i as int));
            }
            assert(text@ == c.content@);
            assert(pred(c) == keep);
            assert(orig.take(i + 1).last() == c);
            if keep {
                self.cookies.push(c);
            }
            i += 1;
        }
        assert(orig.take(i as int) =~= orig);
        Ok(())
    }

    /// Reads an index file `filename` whose bytes are `bytes`: the layout is
    /// guessed from the bytes (`host` when nothing matches) and the jar is
    /// named after the file without its `.dat` extensions. Fails on a name
    /// that does not end in `.dat` and on bytes that do not decode.
    pub fn from_dat(filename: &str, bytes: &Vec<u8>, host: SerializerType) -> (r: Result<
        CookieJar,
        CookieError,
    >)
        ensures
            !has_dat_suffix(filename@) ==> r == Err::<CookieJar, CookieError>(CookieError::NotIndexFile),
            has_dat_suffix(filename@) ==> {
                let t = detected_type(bytes@, host);
                &&& !well_sized(t, bytes@) ==> r == Err::<CookieJar, CookieError>(
                    CookieError::MalformedHeader,
                )
                &&& well_sized(t, bytes@) && !count_agrees(t, bytes@) ==> r == Err::<
                    CookieJar,
                    CookieError,
                >(CookieError::TruncatedData)
                &&& well_sized(t, bytes@) && count_agrees(t, bytes@) ==> (r matches Ok(jar) && {
                    &&& jar.location@ == jar_location(filename@)
                    &&& exists|d: CookieJar|
                        decodes_to(t, bytes@, d) && jar == (CookieJar { location: jar.location, ..d })
                })
            },
    {
        let name = chars_of(filename);
        let dat = chars_of(".dat");
        proof {
            reveal_strlit(".dat");
        }
        let n = name.len();
        let ok = n >= 4 && name[n - 4] == '.' && name[n - 3] == 'd' && name[n - 2] == 'a' && name[n
            - 1] == 't';
        proof {
            if n >= 4 {
                let tail = name@.subrange(n - 4, n as int);
                assert(tail[0] == name@[n - 4] && tail[1] == name@[n - 3] && tail[2] == name@[n - 2]
                    && tail[3] == name@[n - 1]);
                if ok {
                    assert(tail =~= seq!['.', 'd', 'a', 't']);
                }
            }
        }
        if !ok {
            return Err(CookieError::NotIndexFile);
        }
        let t = Serializer::get_type_by_bytes(bytes, host);
        match Serializer::from_bytes(bytes, &t) {
            Err(e) => Err(e),
            Ok(mut jar) => {
                let ghost d = jar;
                jar.location = string_of(&trim_end_matches(&name, &dat));
                assert(jar == (CookieJar { location: jar.location, ..d }));
                Ok(jar)
            },
        }
    }

    /// A quote drawn uniformly; `None` when the jar is empty.
    pub fn sample(&self, rng: &mut ThreadRng) -> (r: Option<&Cookie>)
        ensures
            r is None <==> self.cookies@.len() == 0,
            r matches Some(c) ==> exists|i: int| 0 <= i < self.cookies@.len() && *c == self.cookies@[i],
    {
        if self.cookies.len() == 0 {
            None
        } else {
            let i = random_below(rng, self.cookies.len());
            Some(&self.cookies[i])
        }
    }

    /// Makes the jar's location relative to `parent_location`, and gives
    /// each quote the new location.
    pub fn update_location(&mut self, parent_location: &str)
        ensures
            final(self).location@ == relative_path(old(self).location@, parent_location@),
            final(self).cookies@.len() == old(self).cookies@.len(),
            forall|i: int|
                0 <= i < final(self).cookies@.len() ==> {
                    &&& (#[trigger] final(self).cookies@[i]).location@ == final(self).location@
                    &&& final(self).cookies@[i].content == old(self).cookies@[i].content
                    &&& final(self).cookies@[i].offset == old(self).cookies@[i].offset
                },
            *final(self) == (CookieJar {
                location: final(self).location,
                cookies: final(self).cookies,
                ..*old(self)
            }),
    {
        self.location = trim_parent_path(self.location.as_str(), parent_location);
        let ghost orig = self.cookies@;
        let mut taken: Vec<Cookie> = Vec::new();
        std::mem::swap(&mut self.cookies, &mut taken);
        let mut rest = reversed(taken);
        let n = rest.len();
        let mut i: usize = 0;
        while rest.len() > 0
            invariant
                n == orig.len(),
                i + rest@.len() == n,
                forall|k: int| 0 <= k < rest@.len() ==> rest@[k] == orig[n - 1 - k],
                self.cookies@.len() == i,
                self.location@ == relative_path(old(self).location@, parent_location@),
                *self == (CookieJar {
                    location: self.location,
                    cookies: self.cookies,
                    ..*old(self)
                }),
                forall|k: int|
                    0 <= k < i ==> {
                        &&& (#[trigger] self.cookies@[k]).location@ == self.location@
                        &&& self.cookies@[k].content == orig[k].content
                        &&& self.cookies@[k].offset == orig[k].offset
                    },
            decreases rest@.len(),
        {
            let c = rest.pop().unwrap();
            assert(c == orig[i as int]);
            let Cookie { location: _, content, offset } = c;
            self.cookies.push(Cookie { location: self.location.clone(), content, offset });
            i += 1;
        }
    }
}

/// `path` relative to `parent`: leading copies of `parent` and then of `/`
/// are cut off, unless the two are equal.
pub fn trim_parent_path(path: &str, parent: &str) -> (r: String)
    ensures
        r@ == relative_path(path@, parent@),
{
    let p = chars_of(path);
    let q = chars_of(parent);
    if p.len() == q.len() {
        let mut same = true;
        let mut k: usize = 0;
        while k < p.len()
            invariant
                k <= p@.len(),
                p@.len() == q@.len(),
                same == (forall|j: int| 0 <= j < k ==> p@[j] == q@[j]),
            decreases p@.len() - k,
        {
            if p[k] != q[k] {
                same = false;
            }
            k += 1;
        }
        if same {
            assert(p@ =~= q@);
            return string_of(&p);
        }
    }
    let slash = chars_of("/");
    let r = trim_start_matches(&trim_start_matches(&p, &q), &slash);
    string_of(&r)
}

// ---------------------------------------------------------------------
// Shelves and the cabinet
// ---------------------------------------------------------------------

/// The jars found at one location, with the weight given to them together.
#[derive(Debug, Clone)]
pub struct CookieShelf {
    pub location: String,
    /// Weight in millionths of a percent; 0 while unassigned.
    pub probability: u64,
    pub jars: Vec<CookieJar>,
}

/// All shelves of one run.
#[derive(Debug, Clone)]
pub struct CookieCabinet {
    pub shelves: Vec<CookieShelf>,
}

pub open spec fn jar_weights(jars: Seq<CookieJar>) -> Seq<u64> {
    jars.map_values(|j: CookieJar| j.probability)
}

pub open spec fn jar_sizes(jars: Seq<CookieJar>) -> Seq<u64> {
    jars.map_values(|j: CookieJar| j.cookies@.len() as u64)
}

pub open spec fn shelf_weights(shelves: Seq<CookieShelf>) -> Seq<u64> {
    shelves.map_values(|s: CookieShelf| s.probability)
}

/// The number of quotes in the jars.
pub open spec fn total_cookies(jars: Seq<CookieJar>) -> nat {
    weight_sum(jar_sizes(jars))
}

/// `n`, or `u64::MAX` when it is larger.
pub open spec fn sat64(n: nat) -> u64 {
    if n > u64::MAX {
        u64::MAX
    } else {
        n as u64
    }
}

/// What each jar's share of its shelf is proportional to: one for every
/// jar when all count as equal, else its number of quotes.
pub open spec fn jar_counts(jars: Seq<CookieJar>, equal_size: bool) -> Seq<u64> {
    if equal_size {
        Seq::new(jars.len(), |i: int| 1u64)
    } else {
        jar_sizes(jars)
    }
}

/// What each shelf's share of the whole is proportional to: its number of
/// jars when all jars count as equal, else its number of quotes.
pub open spec fn shelf_counts(shelves: Seq<CookieShelf>, equal_size: bool) -> Seq<u64> {
    shelves.map_values(
        |s: CookieShelf|
            if equal_size {
                s.jars@.len() as u64
            } else {
                sat64(total_cookies(s.jars@))
            },
    )
}

/// `new` holds the jars of `old` with nothing changed but their weights.
pub open spec fn same_but_weights(new: Seq<CookieJar>, old: Seq<CookieJar>) -> bool {
    &&& new.len() == old.len()
    &&& forall|i: int|
        0 <= i < new.len() ==> #[trigger] new[i] == (CookieJar { probability: new[i].probability, ..old[i] })
}

/// `new` is shelf `old` with its weight set to `p` and its jars weighted
/// from it: `p` spread over them, so that a shelf of weight 0 gives its
/// jars weight 0.
pub open spec fn shelf_normalized(new: CookieShelf, old: CookieShelf, p: u64, equal_size: bool) -> bool {
    &&& new.location == old.location
    &&& new.probability == p
    &&& same_but_weights(new.jars@, old.jars@)
    &&& jar_weights(new.jars@) == shares(p as nat, jar_counts(old.jars@, equal_size))
}

/// What normalizing `old` into `new` does: where no shelf has a weight,
/// one hundred percent is spread over the shelves; then each shelf spreads
/// its weight over its jars.
pub open spec fn cabinet_normalized(new: CookieCabinet, old: CookieCabinet, equal_size: bool) -> bool {
    let given = weight_sum(shelf_weights(old.shelves@));
    let weights = if given == 0 {
        shares(FULL as nat, shelf_counts(old.shelves@, equal_size))
    } else {
        shelf_weights(old.shelves@)
    };
    &&& new.shelves@.len() == old.shelves@.len()
    &&& forall|i: int|
        0 <= i < new.shelves@.len() ==> shelf_normalized(
            #[trigger] new.shelves@[i],
            old.shelves@[i],
            weights[i],
            equal_size,
        )
}

/// A shelf that a draw can come from: its jar weights add up to a positive
/// 64-bit number and every weighted jar holds a quote.
pub open spec fn shelf_ready(s: CookieShelf) -> bool {
    &&& 0 < weight_sum(jar_weights(s.jars@)) <= u64::MAX
    &&& forall|j: int|
        0 <= j < s.jars@.len() && (#[trigger] s.jars@[j]).probability > 0 ==> s.jars@[j].cookies@.len()
            > 0
}

/// A cabinet that a draw can come from.
pub open spec fn cabinet_ready(c: CookieCabinet) -> bool {
    &&& 0 < weight_sum(shelf_weights(c.shelves@)) <= u64::MAX
    &&& forall|k: int|
        0 <= k < c.shelves@.len() && (#[trigger] c.shelves@[k]).probability > 0 ==> shelf_ready(
            c.shelves@[k],
        )
}

/// `c` is a quote of a weighted jar of `s`.
pub open spec fn drawn_from_shelf(s: CookieShelf, c: Cookie) -> bool {
    exists|j: int, k: int|
        0 <= j < s.jars@.len() && s.jars@[j].probability > 0 && 0 <= k < s.jars@[j].cookies@.len()
            && c == #[trigger] s.jars@[j].cookies@[k]
}

/// Every field of a jar but its quotes: location, weight, platform,
/// version, longest, shortest, flags, delimiter and source size.
pub type JarHeader = (Seq<char>, u64, Seq<char>, u64, u64, u64, u64, char, u64);

/// A jar seen as its header and its quotes.
pub type JarView = (JarHeader, Seq<Cookie>);

pub type ShelfView = (Seq<char>, u64, Seq<JarView>);

pub open spec fn jar_header(j: CookieJar) -> JarHeader {
    (
        j.location@,
        j.probability,
        j.platform@,
        j.version,
        j.max_length,
        j.min_length,
        j.flags,
        j.delim,
        j.file_size,
    )
}

pub open spec fn jar_view(j: CookieJar) -> JarView {
    (jar_header(j), j.cookies@)
}

pub open spec fn shelf_view(s: CookieShelf) -> ShelfView {
    (s.location@, s.probability, s.jars@.map_values(|j: CookieJar| jar_view(j)))
}

/// A jar as `sieve` leaves it: the same header, fewer quotes.
pub open spec fn sifted_jar<F: Fn(&str) -> bool>(j: CookieJar, sieve: CookieSieve<F>) -> JarView {
    (jar_header(j), j.cookies@.filter(|c: Cookie| sieve.admits(c.content@)))
}

/// The jars that keep a quote once `sieve` has been applied to each.
pub open spec fn sifted_jars<F: Fn(&str) -> bool>(jars: Seq<CookieJar>, sieve: CookieSieve<F>) -> Seq<
    JarView,
> {
    jars.map_values(|j: CookieJar| sifted_jar(j, sieve)).filter(|v: JarView| v.1.len() > 0)
}

pub open spec fn sifted_shelf<F: Fn(&str) -> bool>(s: CookieShelf, sieve: CookieSieve<F>) -> ShelfView {
    (s.location@, s.probability, sifted_jars(s.jars@, sieve))
}

fn sizes_of(jars: &Vec<CookieJar>, equal_size: bool) -> (r: Vec<u64>)
    ensures
        r@ == jar_counts(jars@, equal_size),
{
    let mut r: Vec<u64> = Vec::new();
    let mut i: usize = 0;
    while i < jars.len()
        invariant
            i <= jars@.len(),
            r@ == jar_counts(jars@, equal_size).take(i as int),
        decreases jars@.len() - i,
    {
        if equal_size {
            r.push(1);
        } else {
            r.push(jars[i].cookies.len() as u64);
        }
        i += 1;
        assert(r@ =~= jar_counts(jars@, equal_size).take(i as int));
    }
    assert(r@ =~= jar_counts(jars@, equal_size));
    r
}

fn weights_of(jars: &Vec<CookieJar>) -> (r: Vec<u64>)
    ensures
        r@ == jar_weights(jars@),
{
    let mut r: Vec<u64> = Vec::new();
    let mut i: usize = 0;
    while i < jars.len()
        invariant
            i <= jars@.len(),
            r@ == jar_weights(jars@).take(i as int),
        decreases jars@.len() - i,
    {
        r.push(jars[i].probability);
        i += 1;
        assert(r@ =~= jar_weights(jars@).take(i as int));
    }
    assert(r@ =~= jar_weights(jars@));
    r
}

/// Gives jar `i` weight `w[i]`, changing nothing else.
fn set_jar_weights(jars: &mut Vec<CookieJar>, w: &Vec<u64>)
    requires
        w@.len() == old(jars)@.len(),
    ensures
        same_but_weights(final(jars)@, old(jars)@),
        jar_weights(final(jars)@) == w@,
{
    let ghost orig = jars@;
    let mut taken: Vec<CookieJar> = Vec::new();
    std::mem::swap(jars, &mut taken);
    let mut rest = reversed(taken);
    let n = rest.len();
    let mut i: usize = 0;
    while rest.len() > 0
        invariant
            n == orig.len(),
            n == w@.len(),
            i + rest@.len() == n,
            forall|k: int| 0 <= k < rest@.len() ==> rest@[k] == orig[n - 1 - k],
            jars@.len() == i,
            forall|k: int|
                0 <= k < i ==> #[trigger] jars@[k] == (CookieJar { probability: w@[k], ..orig[k] }),
        decreases rest@.len(),
    {
        let mut j = rest.pop().unwrap();
        assert(j == orig[i as int]);
        j.probability = w[i];
        jars.push(j);
        i += 1;
    }
    assert(jar_weights(jars@) =~= w@);
}

impl Default for CookieShelf {
    /// A shelf with no location, weight or jar.
    fn default() -> (r: Self)
        ensures
            r.location@ == Seq::<char>::empty(),
            r.probability == 0,
            r.jars@.len() == 0,
    {
        CookieShelf { location: String::new(), probability: 0, jars: Vec::new() }
    }
}

impl Default for CookieCabinet {
    /// A cabinet with no shelf.
    fn default() -> (r: Self)
        ensures
            r.shelves@.len() == 0,
    {
        CookieCabinet { shelves: Vec::new() }
    }
}

impl CookieShelf {
    pub fn new(location: &str, probability: u64) -> (r: Self)
        ensures
            r.location@ == location@,
            r.probability == probability,
            r.jars@.len() == 0,
    {
        CookieShelf { location: String::from_str(location), probability, jars: Vec::new() }
    }

    /// The number of quotes in all jars; `usize::MAX` if that is larger.
    pub fn num_of_cookies(&self) -> (r: usize)
        ensures
            r == if total_cookies(self.jars@) > usize::MAX {
                usize::MAX as nat
            } else {
                total_cookies(self.jars@)
            },
    {
        let mut t: usize = 0;
        let mut i: usize = 0;
        while i < self.jars.len()
            invariant
                i <= self.jars@.len(),
                t == if total_cookies(self.jars@.take(i as int)) > usize::MAX {
                    usize::MAX as nat
                } else {
                    total_cookies(self.jars@.take(i as int))
                },
            decreases self.jars@.len() - i,
        {
            assert(jar_sizes(self.jars@.take(i + 1)).drop_last() =~= jar_sizes(
                self.jars@.take(i as int),
            ));
            let n = self.jars[i].cookies.len();
            if t > usize::MAX - n {
                t = usize::MAX;
            } else {
                t = t + n;
            }
            i += 1;
        }
        assert(self.jars@.take(i as int) =~= self.jars@);
        t
    }

    pub fn iter(&self) -> std::slice::Iter<'_, CookieJar> {
        self.jars.iter()
    }

    pub fn num_of_jars(&self) -> (r: usize)
        ensures
            r == self.jars@.len(),
    {
        self.jars.len()
    }

    /// Spreads the shelf's weight over its jars: equally when
    /// `equal_size`, else in proportion to their numbers of quotes. The jars
    /// of a shelf without weight get weight 0.
    pub fn calculate_prob(&mut self, equal_size: bool)
        ensures
            shelf_normalized(*final(self), *old(self), old(self).probability, equal_size),
    {
        let counts = sizes_of(&self.jars, equal_size);
        let w = distribute(self.probability, &counts);
        set_jar_weights(&mut self.jars, &w);
    }

    /// Applies `filter` to every jar and drops the jars left empty.
    pub fn filter<F: Fn(&str) -> bool>(&mut self, filter: &CookieSieve<F>) -> (r: Result<
        (),
        CookieError,
    >)
        requires
            filter.well_formed(),
        ensures
            r is Ok,
            shelf_view(*final(self)) == sifted_shelf(*old(self), *filter),
    {
        let ghost orig = self.jars@;
        let ghost f1 = |j: CookieJar| sifted_jar(j, *filter);
        let ghost f2 = |v: JarView| v.1.len() > 0;
        let ghost fv = |j: CookieJar| jar_view(j);
        let mut taken: Vec<CookieJar> = Vec::new();
        std::mem::swap(&mut self.jars, &mut taken);
        let mut rest = reversed(taken);
        let n = rest.len();
        let mut i: usize = 0;
        assert(orig.take(0).map_values(f1).filter(f2) =~= Seq::<JarView>::empty()) by {
            reveal(Seq::filter);
        }
        while rest.len() > 0
            invariant
                n == orig.len(),
                i + rest@.len() == n,
                forall|k: int| 0 <= k < rest@.len() ==> rest@[k] == orig[n - 1 - k],
                self.jars@.map_values(fv) == orig.take(i as int).map_values(f1).filter(f2),
                f1 == (|j: CookieJar| sifted_jar(j, *filter)),
                f2 == (|v: JarView| v.1.len() > 0),
                fv == (|j: CookieJar| jar_view(j)),
                filter.well_formed(),
                self.location == old(self).location,
                self.probability == old(self).probability,
            decreases rest@.len(),
        {
            let mut j = rest.pop().unwrap();
            assert(j == orig[i as int]);
            let ghost before = self.jars@;
            let _ = j.filter(filter);
            assert(jar_view(j) == f1(orig[i as int]));
            proof {
                reveal(Seq::filter);
                assert(orig.take(i + 1).map_values(f1) =~= orig.take(i as int).map_values(f1).push(
                    f1(orig[i as int]),
                ));
                assert(orig.take(i + 1).map_values(f1).drop_last() =~= orig.take(
                    i as int,
                ).map_values(f1));
            }
            if j.cookies.len() > 0 {
                self.jars.push(j);
                assert(self.jars@.map_values(fv) =~= before.map_values(fv).push(jar_view(j)));
            }
            i += 1;
        }
        assert(orig.take(i as int) =~= orig);
        Ok(())
    }

    /// Draws a jar by weight, then a quote of it uniformly.
    pub fn sample(&self, rng: &mut ThreadRng) -> (r: Option<&Cookie>)
        ensures
            r matches Some(c) ==> drawn_from_shelf(*self, *c),
            shelf_ready(*self) ==> r is Some,
    {
        let w = weights_of(&self.jars);
        match checked_total(&w) {
            None => None,
            Some(_) => match weighted_draw(rng, &w) {
                None => None,
                Some(i) => {
                    let jar = &self.jars[i];
                    let r = jar.sample(rng);
                    proof {
                        if r is Some {
                            let c = r->Some_0;
                            let k = choose|k: int| 0 <= k < jar.cookies@.len() && *c == jar.cookies@[k];
                            assert(drawn_from_shelf(*self, *c)) by {
                                assert(self.jars@[i as int].cookies@[k] == *c);
                            }
                        }
                    }
                    r
                },
            },
        }
    }
}

impl CookieCabinet {
    pub fn new(shelves: Vec<CookieShelf>) -> (r: Self)
        ensures
            r.shelves == shelves,
    {
        CookieCabinet { shelves }
    }

    pub fn iter(&self) -> std::slice::Iter<'_, CookieShelf> {
        self.shelves.iter()
    }

    pub fn push(&mut self, shelf: CookieShelf)
        ensures
            final(self).shelves@ == old(self).shelves@.push(shelf),
    {
        self.shelves.push(shelf);
    }

    /// The number of jars on all shelves; `usize::MAX` if that is larger.
    pub fn num_of_jars(&self) -> (r: usize)
        ensures
            r == sat_usize(weight_sum(shelf_jar_counts(self.shelves@))),
    {
        let mut t: usize = 0;
        let mut i: usize = 0;
        while i < self.shelves.len()
            invariant
                i <= self.shelves@.len(),
                t == sat_usize(weight_sum(shelf_jar_counts(self.shelves@.take(i as int)))),
            decreases self.shelves@.len() - i,
        {
            assert(shelf_jar_counts(self.shelves@.take(i + 1)).drop_last() =~= shelf_jar_counts(
                self.shelves@.take(i as int),
            ));
            let n = self.shelves[i].jars.len();
            if t > usize::MAX - n {
                t = usize::MAX;
            } else {
                t = t + n;
            }
            i += 1;
        }
        assert(self.shelves@.take(i as int) =~= self.shelves@);
        t
    }

    /// The number of quotes on all shelves; `usize::MAX` if that is larger.
    pub fn num_of_cookies(&self) -> (r: usize)
        ensures
            r == sat_usize(weight_sum(shelf_cookie_counts(self.shelves@))),
    {
        let mut t: usize = 0;
        let mut i: usize = 0;
        while i < self.shelves.len()
            invariant
                i <= self.shelves@.len(),
                t == sat_usize(weight_sum(shelf_cookie_counts(self.shelves@.take(i as int)))),
            decreases self.shelves@.len() - i,
        {
            assert(shelf_cookie_counts(self.shelves@.take(i + 1)).drop_last() =~= shelf_cookie_counts(
                self.shelves@.take(i as int),
            ));
            let n = self.shelves[i].num_of_cookies();
            if t > usize::MAX - n {
                t = usize::MAX;
            } else {
                t = t + n;
            }
            i += 1;
        }
        assert(self.shelves@.take(i as int) =~= self.shelves@);
        t
    }
}

/// What each shelf of a cabinet is proportional to, as a vector.
fn counts_of_shelves(shelves: &Vec<CookieShelf>, equal_size: bool) -> (r: Vec<u64>)
    ensures
        r@ == shelf_counts(shelves@, equal_size),
{
    let mut r: Vec<u64> = Vec::new();
    let mut i: usize = 0;
    while i < shelves.len()
        invariant
            i <= shelves@.len(),
            r@ == shelf_counts(shelves@, equal_size).take(i as int),
        decreases shelves@.len() - i,
    {
        if equal_size {
            r.push(shelves[i].jars.len() as u64);
        } else {
            let sizes = sizes_of(&shelves[i].jars, false);
            match checked_total(&sizes) {
                Some(t) => r.push(t),
                None => r.push(u64::MAX),
            }
        }
        i += 1;
        assert(r@ =~= shelf_counts(shelves@, equal_size).take(i as int));
    }
    assert(r@ =~= shelf_counts(shelves@, equal_size));
    r
}

fn weights_of_shelves(shelves: &Vec<CookieShelf>) -> (r: Vec<u64>)
    ensures
        r@ == shelf_weights(shelves@),
{
    let mut r: Vec<u64> = Vec::new();
    let mut i: usize = 0;
    while i < shelves.len()
        invariant
            i <= shelves@.len(),
            r@ == shelf_weights(shelves@).take(i as int),
        decreases shelves@.len() - i,
    {
        r.push(shelves[i].probability);
        i += 1;
        assert(r@ =~= shelf_weights(shelves@).take(i as int));
    }
    assert(r@ =~= shelf_weights(shelves@));
    r
}

/// The texts of the tokens.
pub open spec fn token_views(items: Seq<String>) -> Seq<Seq<char>> {
    items.map_values(|s: String| s@)
}

/// Whether a token gives a weight rather than a location.
pub open spec fn is_weight_token(t: Seq<char>) -> bool {
    t.len() > 0 && t.last() == '%'
}

/// The shelves, as location and weight, that the tokens from `i` on
/// describe, `pending` being a weight read just before them. A weight
/// applies to the location right after it; one with no location after it
/// is an error.
pub open spec fn shelf_plan(items: Seq<Seq<char>>, i: int, pending: Option<u64>) -> Result<
    Seq<(Seq<char>, u64)>,
    CookieError,
>
    decreases items.len() - i,
{
    if i >= items.len() {
        if pending is Some {
            Err(CookieError::DanglingWeight)
        } else {
            Ok(Seq::empty())
        }
    } else if is_weight_token(items[i]) {
        if pending is Some {
            Err(CookieError::DanglingWeight)
        } else {
            match weight_result(items[i].drop_last()) {
                Err(e) => Err(e),
                Ok(w) => shelf_plan(items, i + 1, Some(w)),
            }
        }
    } else {
        match shelf_plan(items, i + 1, None) {
            Err(e) => Err(e),
            Ok(rest) => Ok(
                seq![
                    (items[i], match pending {
                        Some(w) => w,
                        None => 0u64,
                    }),
                ] + rest,
            ),
        }
    }
}

/// Weights as the shelves hold them: none at all, or a total within the
/// tolerance of one hundred percent.
pub open spec fn weights_acceptable(total: nat) -> bool {
    total == 0 || (FULL - TOLERANCE <= total && total <= FULL + TOLERANCE)
}

/// The weight tokens of `items`, without their `%`, in order.
pub open spec fn weight_bodies(items: Seq<Seq<char>>) -> Seq<Seq<char>>
    decreases items.len(),
{
    if items.len() == 0 {
        Seq::empty()
    } else {
        let w = weight_bodies(items.drop_last());
        if is_weight_token(items.last()) {
            w.push(items.last().drop_last())
        } else {
            w
        }
    }
}

/// The most digits after a point among the weights, and at least six.
pub open spec fn places(bodies: Seq<Seq<char>>) -> nat
    decreases bodies.len(),
{
    if bodies.len() == 0 {
        6
    } else {
        let k = places(bodies.drop_last());
        let f = frac_part(bodies.last()).len();
        if f > k {
            f
        } else {
            k
        }
    }
}

/// The sum of the weights, exactly, in units of ten to the minus `k` percent.
pub open spec fn exact_total(bodies: Seq<Seq<char>>, k: nat) -> nat
    decreases bodies.len(),
{
    if bodies.len() == 0 {
        0
    } else {
        exact_total(bodies.drop_last(), k) + num(scaled_digits(bodies.last(), k))
    }
}

/// Weights given by hand, added exactly: none at all, or one hundred
/// percent within the tolerance.
pub open spec fn given_weights_acceptable(bodies: Seq<Seq<char>>) -> bool {
    let k = places(bodies);
    let e = exact_total(bodies, k);
    let p = pow10((k - 6) as nat);
    e == 0 || ((FULL - TOLERANCE) * p <= e && e <= (FULL + TOLERANCE) * p)
}

proof fn lemma_places(bodies: Seq<Seq<char>>)
    ensures
        places(bodies) >= 6,
        forall|i: int| 0 <= i < bodies.len() ==> frac_part(#[trigger] bodies[i]).len() <= places(bodies),
    decreases bodies.len(),
{
    if bodies.len() > 0 {
        let init = bodies.drop_last();
        lemma_places(init);
        assert forall|i: int| 0 <= i < bodies.len() implies frac_part(#[trigger] bodies[i]).len()
            <= places(bodies) by {
            if i < init.len() {
                assert(bodies[i] == init[i]);
            }
        }
    }
}

proof fn lemma_rescale(bodies: Seq<Seq<char>>, k: nat, d: nat)
    requires
        forall|i: int| 0 <= i < bodies.len() ==> frac_part(#[trigger] bodies[i]).len() <= k,
    ensures
        exact_total(bodies, k + d) == exact_total(bodies, k) * pow10(d),
    decreases bodies.len(),
{
    if bodies.len() > 0 {
        let init = bodies.drop_last();
        let s = bodies.last();
        assert forall|i: int| 0 <= i < init.len() implies frac_part(#[trigger] init[i]).len() <= k by {
            assert(init[i] == bodies[i]);
        }
        lemma_rescale(init, k, d);
        assert(frac_part(s).len() <= k) by {
            assert(s == bodies[bodies.len() - 1]);
        }
        assert(scaled_digits(s, k + d) =~= scaled_digits(s, k) + zeros(d));
        lemma_num_concat(scaled_digits(s, k), zeros(d));
        lemma_num_zeros(d);
        let a = exact_total(init, k);
        let b = num(scaled_digits(s, k));
        assert((a + b) * pow10(d) == a * pow10(d) + b * pow10(d)) by (nonlinear_arith);
    } else {
        assert(0 * pow10(d) == 0);
    }
}

proof fn lemma_decide(hn: nat, l: nat, p: nat, h: nat, a: nat, b: nat)
    requires
        l < p,
        0 < a <= b,
        hn <= b ==> h == hn,
        hn > b ==> h == b + 1,
    ensures
        ((h == 0 && l == 0) || (h >= a && (h < b || (h == b && l == 0)))) == (hn * p + l == 0 || (a
            * p <= hn * p + l && hn * p + l <= b * p)),
{
    assert(hn * p + l == 0 <==> hn == 0 && l == 0) by (nonlinear_arith)
        requires
            l < p,
    ;
    assert(a * p <= hn * p + l <==> a <= hn) by (nonlinear_arith)
        requires
            l < p,
    ;
    assert(hn * p + l <= b * p <==> (hn < b || (hn == b && l == 0))) by (nonlinear_arith)
        requires
            l < p,
    ;
}

/// The shelves of `c` are exactly `plan`, all still without jars.
pub open spec fn cabinet_of_plan(c: CookieCabinet, plan: Seq<(Seq<char>, u64)>) -> bool {
    &&& c.shelves@.len() == plan.len()
    &&& forall|i: int|
        0 <= i < plan.len() ==> {
            &&& (#[trigger] c.shelves@[i]).location@ == plan[i].0
            &&& c.shelves@[i].probability == plan[i].1
            &&& c.shelves@[i].jars@.len() == 0
        }
}

pub open spec fn prepend_plan(
    acc: Seq<(Seq<char>, u64)>,
    r: Result<Seq<(Seq<char>, u64)>, CookieError>,
) -> Result<Seq<(Seq<char>, u64)>, CookieError> {
    match r {
        Ok(rest) => Ok(acc + rest),
        Err(e) => Err(e),
    }
}

impl CookieCabinet {
    /// Normalizes the weights: where no shelf has one, one hundred percent
    /// is spread over the shelves, equally per jar when `equal_size`, else
    /// in proportion to their numbers of quotes; then each shelf spreads
    /// its weight over its jars the same way.
    pub fn calculate_prob(&mut self, equal_size: bool)
        ensures
            cabinet_normalized(*final(self), *old(self), equal_size),
    {
        let given = weights_of_shelves(&self.shelves);
        let weights = match checked_total(&given) {
            Some(0) => {
                let counts = counts_of_shelves(&self.shelves, equal_size);
                distribute(FULL, &counts)
            },
            _ => given,
        };
        let ghost orig = self.shelves@;
        let ghost target = weights@;
        let mut taken: Vec<CookieShelf> = Vec::new();
        std::mem::swap(&mut self.shelves, &mut taken);
        let mut rest = reversed(taken);
        let n = rest.len();
        let mut i: usize = 0;
        while rest.len() > 0
            invariant
                n == orig.len(),
                n == weights@.len(),
                i + rest@.len() == n,
                forall|k: int| 0 <= k < rest@.len() ==> rest@[k] == orig[n - 1 - k],
                self.shelves@.len() == i,
                forall|k: int|
                    0 <= k < i ==> shelf_normalized(
                        #[trigger] self.shelves@[k],
                        orig[k],
                        weights@[k],
                        equal_size,
                    ),
            decreases rest@.len(),
        {
            let mut sh = rest.pop().unwrap();
            assert(sh == orig[i as int]);
            sh.probability = weights[i];
            sh.calculate_prob(equal_size);
            self.shelves.push(sh);
            i += 1;
        }
    }

    /// Applies `filter` to every shelf and drops the shelves left empty;
    /// fails when no quote is left.
    pub fn filter<F: Fn(&str) -> bool>(&mut self, filter: &CookieSieve<F>) -> (r: Result<
        (),
        CookieError,
    >)
        requires
            filter.well_formed(),
        ensures
            r is Ok <==> final(self).shelves@.len() > 0,
            r is Err ==> r == Err::<(), CookieError>(CookieError::NoMatch),
            final(self).shelves@.map_values(|s: CookieShelf| shelf_view(s)) == old(
                self,
            ).shelves@.map_values(|s: CookieShelf| sifted_shelf(s, *filter)).filter(
                |v: ShelfView| v.2.len() > 0,
            ),
    {
        let ghost orig = self.shelves@;
        let ghost f1 = |s: CookieShelf| sifted_shelf(s, *filter);
        let ghost f2 = |v: ShelfView| v.2.len() > 0;
        let ghost fv = |s: CookieShelf| shelf_view(s);
        let mut taken: Vec<CookieShelf> = Vec::new();
        std::mem::swap(&mut self.shelves, &mut taken);
        let mut rest = reversed(taken);
        let n = rest.len();
        let mut i: usize = 0;
        assert(orig.take(0).map_values(f1).filter(f2) =~= Seq::<ShelfView>::empty()) by {
            reveal(Seq::filter);
        }
        while rest.len() > 0
            invariant
                n == orig.len(),
                i + rest@.len() == n,
                forall|k: int| 0 <= k < rest@.len() ==> rest@[k] == orig[n - 1 - k],
                self.shelves@.map_values(fv) == orig.take(i as int).map_values(f1).filter(f2),
                f1 == (|s: CookieShelf| sifted_shelf(s, *filter)),
                f2 == (|v: ShelfView| v.2.len() > 0),
                fv == (|s: CookieShelf| shelf_view(s)),
                filter.well_formed(),
            decreases rest@.len(),
        {
            let mut sh = rest.pop().unwrap();
            assert(sh == orig[i as int]);
            let ghost before = self.shelves@;
            let _ = sh.filter(filter);
            assert(shelf_view(sh) == f1(orig[i as int]));
            proof {
                reveal(Seq::filter);
                assert(orig.take(i + 1).map_values(f1) =~= orig.take(i as int).map_values(f1).push(
                    f1(orig[i as int]),
                ));
                assert(orig.take(i + 1).map_values(f1).drop_last() =~= orig.take(
                    i as int,
                ).map_values(f1));
            }
            if sh.jars.len() > 0 {
                self.shelves.push(sh);
                assert(self.shelves@.map_values(fv) =~= before.map_values(fv).push(shelf_view(sh)));
            } else {
                assert(shelf_view(sh).2.len() == 0);
            }
            i += 1;
        }
        assert(orig.take(i as int) =~= orig);
        if self.shelves.len() == 0 {
            return Err(CookieError::NoMatch);
        }
        Ok(())
    }

    /// Draws a shelf by weight, then a jar of it by weight, then a quote of
    /// that jar uniformly.
    pub fn sample(&self, rng: &mut ThreadRng) -> (r: Option<&Cookie>)
        ensures
            r matches Some(c) ==> exists|k: int|
                0 <= k < self.shelves@.len() && self.shelves@[k].probability > 0
                    && drawn_from_shelf(#[trigger] self.shelves@[k], *c),
            cabinet_ready(*self) ==> r is Some,
    {
        let w = weights_of_shelves(&self.shelves);
        match checked_total(&w) {
            None => None,
            Some(_) => match weighted_draw(rng, &w) {
                None => None,
                Some(i) => {
                    let r = self.shelves[i].sample(rng);
                    assert(r matches Some(c) ==> drawn_from_shelf(self.shelves@[i as int], *c));
                    r
                },
            },
        }
    }

    /// Builds the shelves from tokens such as `30% fortunes 70% tips`: a
    /// token ending in `%` gives the weight of the location after it, and a
    /// location without one gets its weight later. No tokens at all give
    /// one shelf at `fallback` with the whole weight. Fails on a malformed
    /// weight, on a weight with no location after it, and on weights that
    /// are given but do not add up to one hundred percent within the
    /// tolerance; that sum is taken exactly, whatever the number of digits.
    /// Each shelf keeps its weight rounded to millionths of a percent.
    pub fn from_string_list(items: &[String], fallback: &str) -> (r: Result<CookieCabinet, CookieError>)
        ensures
            items@.len() == 0 ==> (r matches Ok(c) && cabinet_of_plan(
                c,
                seq![(fallback@, FULL)],
            )),
            items@.len() > 0 ==> match shelf_plan(token_views(items@), 0, None) {
                Err(e) => r == Err::<CookieCabinet, CookieError>(e),
                Ok(plan) => if given_weights_acceptable(weight_bodies(token_views(items@))) {
                    r matches Ok(c) && cabinet_of_plan(c, plan)
                } else {
                    r == Err::<CookieCabinet, CookieError>(CookieError::PartialWeights)
                },
            },
    {
        let mut shelves: Vec<CookieShelf> = Vec::new();
        if items.len() == 0 {
            shelves.push(CookieShelf::new(fallback, FULL));
            return Ok(CookieCabinet { shelves });
        }
        let ghost toks = token_views(items@);
        let ghost whole = shelf_plan(toks, 0, None);
        let ghost acc: Seq<(Seq<char>, u64)> = Seq::empty();
        let mut pending: Option<u64> = None;
        let mut i: usize = 0;
        let mut kcur: usize = 6;
        let mut total: Vec<u8> = Vec::new();
        assert(toks.take(0) =~= Seq::<Seq<char>>::empty());
        assert(prepend_plan(acc, whole) =~= whole) by {
            if whole is Ok {
                assert(acc + whole->Ok_0 =~= whole->Ok_0);
            }
        }
        while i < items.len()
            invariant
                i <= items@.len(),
                toks == token_views(items@),
                whole == shelf_plan(toks, 0, None),
                prepend_plan(acc, shelf_plan(toks, i as int, pending)) == whole,
                cabinet_of_plan(CookieCabinet { shelves }, acc),
                kcur == places(weight_bodies(toks.take(i as int))),
                is_digits(total@),
                num(total@) == exact_total(weight_bodies(toks.take(i as int)), kcur as nat),
            decreases items@.len() - i,
        {
            let mut t = chars_of(items[i].as_str());
            assert(t@ == toks[i as int]);
            let ghost before = weight_bodies(toks.take(i as int));
            assert(toks.take(i + 1).drop_last() =~= toks.take(i as int));
            assert(toks.take(i + 1).last() == toks[i as int]);
            if t.len() > 0 && t[t.len() - 1] == '%' {
                if pending.is_some() {
                    return Err(CookieError::DanglingWeight);
                }
                t.pop();
                match parse_weight(&t) {
                    Err(e) => {
                        return Err(e);
                    },
                    Ok(w) => {
                        pending = Some(w);
                    },
                }
                assert(t@ == toks[i as int].drop_last());
                assert(weight_bodies(toks.take(i + 1)) == before.push(t@));
                let fl = frac_len_of(&t);
                if fl > kcur {
                    proof {
                        lemma_places(before);
                        lemma_rescale(before, kcur as nat, (fl - kcur) as nat);
                        assert(kcur as nat + (fl - kcur) as nat == fl as nat);
                    }
                    pad_back(&mut total, fl - kcur);
                    kcur = fl;
                }
                proof {
                    assert(before.push(t@).drop_last() =~= before);
                }
                let digits = scaled_digit_vec(&t, kcur);
                total = add_numbers(&total, &digits);
            } else {
                let w = match pending {
                    Some(w) => w,
                    None => 0,
                };
                let ghost old_shelves = shelves@;
                shelves.push(CookieShelf::new(items[i].as_str(), w));
                proof {
                    let rest = shelf_plan(toks, i + 1, None);
                    if rest is Ok {
                        assert(acc + (seq![(toks[i as int], w)] + rest->Ok_0) =~= acc.push(
                            (toks[i as int], w),
                        ) + rest->Ok_0);
                    }
                    acc = acc.push((toks[i as int], w));
                }
                assert(weight_bodies(toks.take(i + 1)) == before);
                pending = None;
            }
            i += 1;
        }
        if pending.is_some() {
            return Err(CookieError::DanglingWeight);
        }
        assert(whole == Ok::<Seq<(Seq<char>, u64)>, CookieError>(acc)) by {
            assert(acc + Seq::<(Seq<char>, u64)>::empty() =~= acc);
        }
        assert(toks.take(i as int) =~= toks);
        proof {
            lemma_places(weight_bodies(toks));
        }
        let padded = pad_front(&total, kcur);
        let q = padded.len() - (kcur - 6);
        let h = leading_value(&padded, q, FULL + TOLERANCE);
        let low_zero = zero_from(&padded, q);
        proof {
            let bodies = weight_bodies(toks);
            lemma_places(bodies);
            let hi = padded@.take(q as int);
            let lo = padded@.skip(q as int);
            assert(hi + lo =~= padded@);
            lemma_num_concat(hi, lo);
            assert(is_digits(lo)) by {
                assert forall|t: int| 0 <= t < lo.len() implies #[trigger] lo[t] < 10 by {
                    assert(lo[t] == padded@[q + t]);
                }
            }
            lemma_num_bound(lo);
            assert(lo.len() == kcur - 6);
            lemma_decide(
                num(hi),
                num(lo),
                pow10((kcur - 6) as nat),
                h as nat,
                (FULL - TOLERANCE) as nat,
                (FULL + TOLERANCE) as nat,
            );
        }
        if (h == 0 && low_zero) || (h >= FULL - TOLERANCE && (h < FULL + TOLERANCE || (h == FULL
            + TOLERANCE && low_zero))) {
            Ok(CookieCabinet { shelves })
        } else {
            Err(CookieError::PartialWeights)
        }
    }
}

/// After normalization the shelf weights add up to one hundred percent
/// (exactly, where none were given by hand; within the tolerance where
/// they were), and the jar weights of every weighted shelf with something
/// to spread over add up to the shelf's weight exactly. The cabinet must
/// hold something to spread over: its shelves' counts add up to a positive
/// 64-bit number.
pub proof fn lemma_normalized_sums(old: CookieCabinet, new: CookieCabinet, equal_size: bool)
    requires
        cabinet_normalized(new, old, equal_size),
        weights_acceptable(weight_sum(shelf_weights(old.shelves@))),
        0 < weight_sum(shelf_counts(old.shelves@, equal_size)) <= u64::MAX,
    ensures
        FULL - TOLERANCE <= weight_sum(shelf_weights(new.shelves@)) <= FULL + TOLERANCE,
        weight_sum(shelf_weights(old.shelves@)) == 0 ==> weight_sum(shelf_weights(new.shelves@))
            == FULL,
        forall|i: int|
            0 <= i < new.shelves@.len() && (#[trigger] new.shelves@[i]).probability > 0 && 0
                < weight_sum(jar_counts(old.shelves@[i].jars@, equal_size)) <= u64::MAX
                ==> weight_sum(jar_weights(new.shelves@[i].jars@)) == new.shelves@[i].probability,
{
    let given = weight_sum(shelf_weights(old.shelves@));
    let weights = if given == 0 {
        shares(FULL as nat, shelf_counts(old.shelves@, equal_size))
    } else {
        shelf_weights(old.shelves@)
    };
    assert(shelf_weights(new.shelves@) =~= weights) by {
        assert forall|i: int| 0 <= i < new.shelves@.len() implies shelf_weights(new.shelves@)[i]
            == weights[i] by {
            assert(shelf_normalized(new.shelves@[i], old.shelves@[i], weights[i], equal_size));
        }
    }
    if given == 0 {
        lemma_shares_sum(FULL as nat, shelf_counts(old.shelves@, equal_size));
    }
    assert forall|i: int|
        0 <= i < new.shelves@.len() && (#[trigger] new.shelves@[i]).probability > 0 && 0
            < weight_sum(jar_counts(old.shelves@[i].jars@, equal_size)) <= u64::MAX implies weight_sum(
        jar_weights(new.shelves@[i].jars@),
    ) == new.shelves@[i].probability by {
        assert(shelf_normalized(new.shelves@[i], old.shelves@[i], weights[i], equal_size));
        lemma_shares_sum(
            new.shelves@[i].probability as nat,
            jar_counts(old.shelves@[i].jars@, equal_size),
        );
    }
}

/// `n`, or `usize::MAX` when it is larger.
pub open spec fn sat_usize(n: nat) -> nat {
    if n > usize::MAX {
        usize::MAX as nat
    } else {
        n
    }
}

pub open spec fn shelf_jar_counts(shelves: Seq<CookieShelf>) -> Seq<u64> {
    shelves.map_values(|s: CookieShelf| s.jars@.len() as u64)
}

/// Each shelf's number of quotes, as `CookieShelf::num_of_cookies` reports it.
pub open spec fn shelf_cookie_counts(shelves: Seq<CookieShelf>) -> Seq<u64> {
    shelves.map_values(|s: CookieShelf| sat_usize(total_cookies(s.jars@)) as u64)
}

// ---------------------------------------------------------------------
// Sieve
// ---------------------------------------------------------------------

/// Every call of `f` on a string holding `text` returns true.
pub open spec fn passes<F: Fn(&str) -> bool>(f: F, text: Seq<char>) -> bool {
    forall|s: &str, b: bool| s@ == text && #[trigger] call_ensures(f, (s,), b) ==> b
}

/// `f` accepts every string and its answer depends on the text alone.
pub open spec fn is_pure<F: Fn(&str) -> bool>(f: F) -> bool {
    &&& forall|s: &str| #[trigger] call_requires(f, (s,))
    &&& forall|s1: &str, s2: &str, b1: bool, b2: bool|
        s1@ == s2@ && #[trigger] call_ensures(f, (s1,), b1) && #[trigger] call_ensures(f, (s2,), b2)
            ==> b1 == b2
}

/// A conjunction of text predicates, applied in the order they were added.
pub struct CookieSieve<F> {
    filters: Vec<F>,
}

impl<F> View for CookieSieve<F> {
    type V = Seq<F>;

    closed spec fn view(&self) -> Seq<F> {
        self.filters@
    }
}

impl<F> Default for CookieSieve<F> {
    /// A sieve that admits everything.
    fn default() -> (r: Self)
        ensures
            r@ == Seq::<F>::empty(),
    {
        CookieSieve { filters: Vec::new() }
    }
}

/// The order of the predicates does not matter: two sieves holding the
/// same predicates admit the same texts.
pub proof fn lemma_sieve_order<F: Fn(&str) -> bool>(a: CookieSieve<F>, b: CookieSieve<F>, text: Seq<char>)
    requires
        a@.to_set() == b@.to_set(),
    ensures
        a.admits(text) == b.admits(text),
{
    if a.admits(text) {
        assert forall|i: int| 0 <= i < b@.len() implies passes(#[trigger] b@[i], text) by {
            assert(b@.contains(b@[i]));
            assert(b@.to_set().contains(b@[i]));
            assert(a@.to_set().contains(b@[i]));
            let j = choose|j: int| 0 <= j < a@.len() && a@[j] == b@[i];
            assert(passes(a@[j], text));
        }
    }
    if b.admits(text) {
        assert forall|i: int| 0 <= i < a@.len() implies passes(#[trigger] a@[i], text) by {
            assert(a@.contains(a@[i]));
            assert(a@.to_set().contains(a@[i]));
            assert(b@.to_set().contains(a@[i]));
            let j = choose|j: int| 0 <= j < b@.len() && b@[j] == a@[i];
            assert(passes(b@[j], text));
        }
    }
}

impl<F: Fn(&str) -> bool> CookieSieve<F> {
    pub open spec fn well_formed(&self) -> bool {
        forall|i: int| 0 <= i < self@.len() ==> is_pure(#[trigger] self@[i])
    }

    /// Every predicate holds of `text`.
    pub open spec fn admits(&self, text: Seq<char>) -> bool {
        forall|i: int| 0 <= i < self@.len() ==> passes(#[trigger] self@[i], text)
    }

    pub fn add_filter(&mut self, filter: F)
        ensures
            final(self)@ == old(self)@.push(filter),
    {
        self.filters.push(filter);
    }

    /// Whether every predicate holds of `cookie`; true for an empty sieve.
    pub fn filter(&self, cookie: &str) -> (r: bool)
        requires
            self.well_formed(),
        ensures
            r == self.admits(cookie@),
    {
        let mut i: usize = 0;
        while i < self.filters.len()
            invariant
                i <= self@.len(),
                self.well_formed(),
                forall|j: int| 0 <= j < i ==> passes(#[trigger] self@[j], cookie@),
            decreases self@.len() - i,
        {
            let f = &self.filters[i];
            assert(is_pure(self@[i as int]));
            let b = f(cookie);
            if !b {
                assert(!passes(self@[i as int], cookie@));
                return false;
            }
            assert forall|s: &str, c: bool| s@ == cookie@ && #[trigger] call_ensures(
                self@[i as int],
                (s,),
                c,
            ) implies c by {
                assert(call_ensures(self@[i as int], (cookie,), true));
            }
            i += 1;
        }
        true
    }

    pub fn len(&self) -> (r: usize)
        ensures
            r == self@.len(),
    {
        self.filters.len()
    }
}
} // verus!
