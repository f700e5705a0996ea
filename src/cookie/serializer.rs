//! The binary `strfile` index: a fixed header, one offset per quote and the
//! size of the source text, in the three layouts that BSD/Homebrew, Linux
//! and FreeBSD write.

use crate::cookie::{Cookie, CookieError, CookieJar};
use vstd::prelude::*;
use vstd::utf8::encode_utf8;

verus! {

pub const VERSION_HOMEBREW: u64 = 1;

pub const VERSION_LINUX: u64 = 2;

pub const VERSION_FREEBSD: u64 = 1;

/// The three incompatible layouts of an index file.
#[derive(Debug, Clone, Copy, PartialEq, Eq, Structural)]
pub enum SerializerType {
    Homebrew,
    Linux,
    FreeBSD,
}

/// How one integer field is stored.
#[derive(Debug, Clone, Copy, PartialEq, Eq, Structural)]
pub enum FieldWidth {
    /// The value cut to 32 bits, in network order, in the low half of an
    /// 8-byte little-endian field: what `htonl` on a wide C integer leaves.
    Net32In64,
    /// 32-bit big-endian.
    Be32,
    /// 64-bit big-endian.
    Be64,
}

// ---------------------------------------------------------------------
// Byte-level model
// ---------------------------------------------------------------------

pub open spec fn be32_bytes(v: u32) -> Seq<u8> {
    seq![(v >> 24u32) as u8, (v >> 16u32) as u8, (v >> 8u32) as u8, v as u8]
}

pub open spec fn be32_of(b: Seq<u8>) -> u32 {
    ((b[0] as u32) << 24u32) | ((b[1] as u32) << 16u32) | ((b[2] as u32) << 8u32) | (b[3] as u32)
}

pub open spec fn be64_bytes(v: u64) -> Seq<u8> {
    seq![
        (v >> 56u64) as u8,
        (v >> 48u64) as u8,
        (v >> 40u64) as u8,
        (v >> 32u64) as u8,
        (v >> 24u64) as u8,
        (v >> 16u64) as u8,
        (v >> 8u64) as u8,
        v as u8,
    ]
}

pub open spec fn be64_of(b: Seq<u8>) -> u64 {
    ((b[0] as u64) << 56u64) | ((b[1] as u64) << 48u64) | ((b[2] as u64) << 40u64) | ((b[3] as u64)
        << 32u64) | ((b[4] as u64) << 24u64) | ((b[5] as u64) << 16u64) | ((b[6] as u64) << 8u64)
        | (b[7] as u64)
}

pub open spec fn field_size(w: FieldWidth) -> nat {
    match w {
        FieldWidth::Be32 => 4,
        _ => 8,
    }
}

/// The bytes that store `v` in a field of width `w`.
pub open spec fn field_bytes(w: FieldWidth, v: u64) -> Seq<u8> {
    match w {
        FieldWidth::Net32In64 => be32_bytes(#[verifier::truncate] (v as u32)) + seq![0u8, 0u8, 0u8, 0u8],
        FieldWidth::Be32 => be32_bytes(#[verifier::truncate] (v as u32)),
        FieldWidth::Be64 => be64_bytes(v),
    }
}

/// The value that a field of width `w` holds in `b`.
pub open spec fn field_of(w: FieldWidth, b: Seq<u8>) -> u64 {
    match w {
        FieldWidth::Be64 => be64_of(b),
        _ => be32_of(b) as u64,
    }
}

/// Whether `v` survives a field of width `w` unchanged.
pub open spec fn fits(w: FieldWidth, v: u64) -> bool {
    w == FieldWidth::Be64 || v <= u32::MAX
}

pub open spec fn header_width(t: SerializerType) -> FieldWidth {
    match t {
        SerializerType::Homebrew => FieldWidth::Net32In64,
        _ => FieldWidth::Be32,
    }
}

pub open spec fn entry_width(t: SerializerType) -> FieldWidth {
    match t {
        SerializerType::Homebrew => FieldWidth::Net32In64,
        SerializerType::Linux => FieldWidth::Be32,
        SerializerType::FreeBSD => FieldWidth::Be64,
    }
}

pub open spec fn padding(t: SerializerType) -> nat {
    match t {
        SerializerType::Homebrew => 7,
        _ => 3,
    }
}

/// Position of the delimiter byte: after version, count, longest, shortest and flags.
pub open spec fn delim_pos(t: SerializerType) -> nat {
    5 * field_size(header_width(t))
}

/// 48 bytes for Homebrew, 24 for Linux and FreeBSD.
pub open spec fn header_size(t: SerializerType) -> nat {
    delim_pos(t) + 1 + padding(t)
}

pub open spec fn default_version(t: SerializerType) -> u64 {
    match t {
        SerializerType::Linux => VERSION_LINUX,
        SerializerType::Homebrew => VERSION_HOMEBREW,
        SerializerType::FreeBSD => VERSION_FREEBSD,
    }
}

/// The version written for a jar: its own, or the layout's when it has none.
pub open spec fn effective_version(t: SerializerType, v: u64) -> u64 {
    if v != 0 {
        v
    } else {
        default_version(t)
    }
}

/// The length in bytes of `s` as UTF-8, as `str::len` reports it.
pub open spec fn byte_len(s: Seq<char>) -> nat {
    (encode_utf8(s).len() as usize) as nat
}

/// Where quote `i` starts in the source text when each earlier quote is
/// followed by a newline, the delimiter and a newline.
pub open spec fn running_offset(cookies: Seq<Cookie>, i: int) -> nat
    decreases i,
{
    if i <= 0 {
        0
    } else {
        running_offset(cookies, i - 1) + byte_len(cookies[i - 1].content@) + 3
    }
}

/// The offset written for quote `i`: its own when set, else the running one.
pub open spec fn emitted_offset(cookies: Seq<Cookie>, i: int) -> u64 {
    if cookies[i].offset != 0 {
        cookies[i].offset
    } else {
        wrap64(running_offset(cookies, i) as int)
    }
}

/// `n` reduced to 64 bits.
pub open spec fn wrap64(n: int) -> u64 {
    (n % 0x1_0000_0000_0000_0000int) as u64
}

pub(crate) proof fn lemma_wrapping_step(x: u64, y: u64)
    ensures
        (if x + y > u64::MAX {
            x + y - 0x1_0000_0000_0000_0000int
        } else {
            x + y
        }) == (x + y) % 0x1_0000_0000_0000_0000int,
{
    let m = 0x1_0000_0000_0000_0000int;
    if x + y > u64::MAX {
        vstd::arithmetic::div_mod::lemma_mod_sub_multiples_vanish(x + y, m);
        vstd::arithmetic::div_mod::lemma_small_mod((x + y - m) as nat, m as nat);
    } else {
        vstd::arithmetic::div_mod::lemma_small_mod((x + y) as nat, m as nat);
    }
}

pub open spec fn emitted_offsets(cookies: Seq<Cookie>) -> Seq<u64> {
    Seq::new(cookies.len(), |i: int| emitted_offset(cookies, i))
}

pub open spec fn entries_bytes(w: FieldWidth, offs: Seq<u64>) -> Seq<u8>
    decreases offs.len(),
{
    if offs.len() == 0 {
        Seq::empty()
    } else {
        entries_bytes(w, offs.drop_last()) + field_bytes(w, offs.last())
    }
}

pub open spec fn header_bytes(t: SerializerType, jar: CookieJar) -> Seq<u8> {
    let w = header_width(t);
    field_bytes(w, effective_version(t, jar.version)) + field_bytes(w, jar.cookies@.len() as u64)
        + field_bytes(w, jar.max_length) + field_bytes(w, jar.min_length) + field_bytes(
        w,
        jar.flags,
    ) + seq![(jar.delim as u32) as u8] + Seq::new(padding(t), |i: int| 0u8)
}

/// The index file of `jar` in layout `t`.
pub open spec fn encoding(t: SerializerType, jar: CookieJar) -> Seq<u8> {
    header_bytes(t, jar) + entries_bytes(entry_width(t), emitted_offsets(jar.cookies@))
        + field_bytes(entry_width(t), jar.file_size)
}

pub open spec fn trailer_size(t: SerializerType) -> nat {
    field_size(entry_width(t))
}

pub open spec fn table_len(t: SerializerType, b: Seq<u8>) -> int {
    b.len() - header_size(t) - trailer_size(t)
}

/// Long enough for header and trailer, with whole entries in between.
pub open spec fn well_sized(t: SerializerType, b: Seq<u8>) -> bool {
    table_len(t, b) >= 0 && table_len(t, b) % (field_size(entry_width(t)) as int) == 0
}

/// The number of entries in the offset table.
pub open spec fn entry_count(t: SerializerType, b: Seq<u8>) -> int {
    table_len(t, b) / (field_size(entry_width(t)) as int)
}

/// Header field `k`: 0 version, 1 count, 2 longest, 3 shortest, 4 flags.
pub open spec fn header_field(t: SerializerType, b: Seq<u8>, k: int) -> u64 {
    let s = field_size(header_width(t)) as int;
    field_of(header_width(t), b.subrange(k * s, k * s + s))
}

pub open spec fn entry_at(t: SerializerType, b: Seq<u8>, i: int) -> u64 {
    let s = field_size(entry_width(t)) as int;
    let p = header_size(t) + i * s;
    field_of(entry_width(t), b.subrange(p, p + s))
}

pub open spec fn trailer_at(t: SerializerType, b: Seq<u8>) -> u64 {
    field_of(entry_width(t), b.subrange(b.len() - trailer_size(t), b.len() as int))
}

/// The declared count agrees with the entries present.
pub open spec fn count_agrees(t: SerializerType, b: Seq<u8>) -> bool {
    header_field(t, b, 1) == entry_count(t, b)
}

pub open spec fn platform_name(t: SerializerType) -> Seq<char> {
    match t {
        SerializerType::Homebrew => "homebrew"@,
        SerializerType::Linux => "linux"@,
        SerializerType::FreeBSD => "freebsd"@,
    }
}

/// What decoding `b` in layout `t` yields when it succeeds.
pub open spec fn decodes_to(t: SerializerType, b: Seq<u8>, jar: CookieJar) -> bool {
    &&& jar.location@ == Seq::<char>::empty()
    &&& jar.probability == 0
    &&& jar.platform@ == platform_name(t)
    &&& jar.version == header_field(t, b, 0)
    &&& jar.max_length == header_field(t, b, 2)
    &&& jar.min_length == header_field(t, b, 3)
    &&& jar.flags == header_field(t, b, 4)
    &&& jar.delim == (b[delim_pos(t) as int] as char)
    &&& jar.file_size == trailer_at(t, b)
    &&& jar.cookies@.len() == entry_count(t, b)
    &&& forall|i: int|
        0 <= i < jar.cookies@.len() ==> {
            &&& (#[trigger] jar.cookies@[i]).offset == entry_at(t, b, i)
            &&& jar.cookies@[i].location@ == Seq::<char>::empty()
            &&& jar.cookies@[i].content@ == Seq::<char>::empty()
        }
}

// ---------------------------------------------------------------------
// Lemmas
// ---------------------------------------------------------------------

proof fn lemma_be32_round_trip(v: u32)
    ensures
        be32_of(be32_bytes(v)) == v,
{
    let b = be32_bytes(v);
    assert(b[0] == (v >> 24u32) as u8 && b[1] == (v >> 16u32) as u8 && b[2] == (v >> 8u32) as u8
        && b[3] == v as u8);
    assert(((((v >> 24u32) as u8) as u32) << 24u32) | ((((v >> 16u32) as u8) as u32) << 16u32) | ((((v
        >> 8u32) as u8) as u32) << 8u32) | ((v as u8) as u32) == v) by (bit_vector);
}

proof fn lemma_be64_round_trip(v: u64)
    ensures
        be64_of(be64_bytes(v)) == v,
{
    let b = be64_bytes(v);
    assert(b[0] == (v >> 56u64) as u8 && b[1] == (v >> 48u64) as u8 && b[2] == (v >> 40u64) as u8
        && b[3] == (v >> 32u64) as u8 && b[4] == (v >> 24u64) as u8 && b[5] == (v >> 16u64) as u8
        && b[6] == (v >> 8u64) as u8 && b[7] == v as u8);
    assert(((((v >> 56u64) as u8) as u64) << 56u64) | ((((v >> 48u64) as u8) as u64) << 48u64) | ((((v
        >> 40u64) as u8) as u64) << 40u64) | ((((v >> 32u64) as u8) as u64) << 32u64) | ((((v
        >> 24u64) as u8) as u64) << 24u64) | ((((v >> 16u64) as u8) as u64) << 16u64) | ((((v
        >> 8u64) as u8) as u64) << 8u64) | ((v as u8) as u64) == v) by (bit_vector);
}

proof fn lemma_field_round_trip(w: FieldWidth, v: u64)
    requires
        fits(w, v),
    ensures
        field_bytes(w, v).len() == field_size(w),
        field_of(w, field_bytes(w, v)) == v,
{
    match w {
        FieldWidth::Be64 => {
            lemma_be64_round_trip(v);
        },
        _ => {
            lemma_be32_round_trip(v as u32);
            let b = field_bytes(w, v);
            assert(b.subrange(0, 4) =~= be32_bytes(v as u32));
            assert(be32_of(b) == be32_of(be32_bytes(v as u32)));
        },
    }
}

proof fn lemma_entries_bytes(w: FieldWidth, offs: Seq<u64>, i: int)
    requires
        0 <= i < offs.len(),
    ensures
        entries_bytes(w, offs).len() == offs.len() * field_size(w),
        entries_bytes(w, offs).subrange(i * field_size(w), i * field_size(w) + field_size(w))
            == field_bytes(w, offs[i]),
    decreases offs.len(),
{
    let s = field_size(w) as int;
    lemma_entries_len(w, offs);
    let init = offs.drop_last();
    lemma_entries_len(w, init);
    let e = entries_bytes(w, offs);
    assert(e == entries_bytes(w, init) + field_bytes(w, offs.last()));
    assert(init.len() * s == (offs.len() - 1) * s);
    if i == offs.len() - 1 {
        assert(i * s == init.len() * s);
        assert(e.subrange(i * s, i * s + s) =~= field_bytes(w, offs.last()));
    } else {
        lemma_entries_bytes(w, init, i);
        assert(i * s + s <= init.len() * s) by (nonlinear_arith)
            requires
                i + 1 <= init.len(),
                s >= 0,
        ;
        assert(e.subrange(i * s, i * s + s) =~= entries_bytes(w, init).subrange(i * s, i * s + s));
    }
}

proof fn lemma_entries_len(w: FieldWidth, offs: Seq<u64>)
    ensures
        entries_bytes(w, offs).len() == offs.len() * field_size(w),
    decreases offs.len(),
{
    if offs.len() > 0 {
        lemma_entries_len(w, offs.drop_last());
        assert((offs.len() - 1) * field_size(w) + field_size(w) == offs.len() * field_size(w))
            by (nonlinear_arith);
    }
}

/// Encoding and then decoding a jar gives back its header fields, its
/// offsets and its source size, in every layout. The count, lengths and
/// flags must fit the 32-bit header fields, the offsets and the size must
/// fit the entry width, and the delimiter must be a single byte. The
/// version comes back as the layout's own where the jar had none, and each
/// offset as written: the jar's own, or the running one where it had 0.
pub proof fn lemma_round_trip(t: SerializerType, jar: CookieJar)
    requires
        jar.cookies@.len() <= u32::MAX,
        effective_version(t, jar.version) <= u32::MAX,
        jar.max_length <= u32::MAX,
        jar.min_length <= u32::MAX,
        jar.flags <= u32::MAX,
        (jar.delim as u32) < 256,
        fits(entry_width(t), jar.file_size),
        forall|i: int| 0 <= i < jar.cookies@.len() ==> fits(entry_width(t), emitted_offset(jar.cookies@, i)),
    ensures
        well_sized(t, encoding(t, jar)),
        count_agrees(t, encoding(t, jar)),
        header_field(t, encoding(t, jar), 0) == effective_version(t, jar.version),
        header_field(t, encoding(t, jar), 2) == jar.max_length,
        header_field(t, encoding(t, jar), 3) == jar.min_length,
        header_field(t, encoding(t, jar), 4) == jar.flags,
        (encoding(t, jar)[delim_pos(t) as int] as char) == jar.delim,
        trailer_at(t, encoding(t, jar)) == jar.file_size,
        entry_count(t, encoding(t, jar)) == jar.cookies@.len(),
        forall|i: int|
            0 <= i < jar.cookies@.len() ==> entry_at(t, encoding(t, jar), i) == emitted_offset(
                jar.cookies@,
                i,
            ),
{
    let b = encoding(t, jar);
    let hw = header_width(t);
    let ew = entry_width(t);
    let hs = field_size(hw) as int;
    let es = field_size(ew) as int;
    let n = jar.cookies@.len() as int;
    let offs = emitted_offsets(jar.cookies@);
    let h = header_bytes(t, jar);
    let e = entries_bytes(ew, offs);
    let f = field_bytes(ew, jar.file_size);
    lemma_entries_len(ew, offs);
    lemma_field_round_trip(hw, effective_version(t, jar.version));
    lemma_field_round_trip(hw, n as u64);
    lemma_field_round_trip(hw, jar.max_length);
    lemma_field_round_trip(hw, jar.min_length);
    lemma_field_round_trip(hw, jar.flags);
    lemma_field_round_trip(ew, jar.file_size);
    assert(h.len() == header_size(t));
    assert(b == h + e + f);
    assert(b.len() == header_size(t) + n * es + es);
    assert(table_len(t, b) == n * es);
    assert((n * es) % es == 0 && (n * es) / es == n) by (nonlinear_arith)
        requires
            es > 0,
            n >= 0,
    ;
    assert(b.subrange(0, hs) =~= field_bytes(hw, effective_version(t, jar.version)));
    assert(b.subrange(hs, 2 * hs) =~= field_bytes(hw, n as u64));
    assert(b.subrange(2 * hs, 3 * hs) =~= field_bytes(hw, jar.max_length));
    assert(b.subrange(3 * hs, 4 * hs) =~= field_bytes(hw, jar.min_length));
    assert(b.subrange(4 * hs, 5 * hs) =~= field_bytes(hw, jar.flags));
    assert(b[delim_pos(t) as int] == (jar.delim as u32) as u8);
    assert(b.subrange(b.len() - es, b.len() as int) =~= f);
    assert forall|i: int| 0 <= i < n implies entry_at(t, b, i) == emitted_offset(jar.cookies@, i) by {
        lemma_entries_bytes(ew, offs, i);
        lemma_field_round_trip(ew, offs[i]);
        let p = header_size(t) + i * es;
        assert(i * es + es <= n * es) by (nonlinear_arith)
            requires
                i + 1 <= n,
                es >= 0,
        ;
        assert(b.subrange(p, p + es) =~= e.subrange(i * es, i * es + es));
    }
}

// ---------------------------------------------------------------------
// Executable codec
// ---------------------------------------------------------------------

fn push_field(out: &mut Vec<u8>, w: FieldWidth, v: u64)
    ensures
        final(out)@ == old(out)@ + field_bytes(w, v),
{
    match w {
        FieldWidth::Be64 => {
            out.push((v >> 56u64) as u8);
            out.push((v >> 48u64) as u8);
            out.push((v >> 40u64) as u8);
            out.push((v >> 32u64) as u8);
            out.push((v >> 24u64) as u8);
            out.push((v >> 16u64) as u8);
            out.push((v >> 8u64) as u8);
            out.push(v as u8);
        },
        _ => {
            let x = #[verifier::truncate] (v as u32);
            out.push((x >> 24u32) as u8);
            out.push((x >> 16u32) as u8);
            out.push((x >> 8u32) as u8);
            out.push(x as u8);
            if w == FieldWidth::Net32In64 {
                out.push(0u8);
                out.push(0u8);
                out.push(0u8);
                out.push(0u8);
            }
        },
    }
    assert(final(out)@ =~= old(out)@ + field_bytes(w, v));
}

fn read_field(b: &Vec<u8>, pos: usize, w: FieldWidth) -> (r: u64)
    requires
        pos + field_size(w) <= b@.len(),
    ensures
        r == field_of(w, b@.subrange(pos as int, pos + field_size(w))),
{
    let _n = b.len();
    let ghost s = b@.subrange(pos as int, pos + field_size(w));
    match w {
        FieldWidth::Be64 => {
            ((b[pos] as u64) << 56u64) | ((b[pos + 1] as u64) << 48u64) | ((b[pos + 2] as u64)
                << 40u64) | ((b[pos + 3] as u64) << 32u64) | ((b[pos + 4] as u64) << 24u64) | ((b[pos
                + 5] as u64) << 16u64) | ((b[pos + 6] as u64) << 8u64) | (b[pos + 7] as u64)
        },
        _ => {
            let x: u32 = ((b[pos] as u32) << 24u32) | ((b[pos + 1] as u32) << 16u32) | ((b[pos
                + 2] as u32) << 8u32) | (b[pos + 3] as u32);
            x as u64
        },
    }
}

impl SerializerType {
    pub fn header_width(&self) -> (r: FieldWidth)
        ensures
            r == header_width(*self),
    {
        match self {
            SerializerType::Homebrew => FieldWidth::Net32In64,
            _ => FieldWidth::Be32,
        }
    }

    pub fn entry_width(&self) -> (r: FieldWidth)
        ensures
            r == entry_width(*self),
    {
        match self {
            SerializerType::Homebrew => FieldWidth::Net32In64,
            SerializerType::Linux => FieldWidth::Be32,
            SerializerType::FreeBSD => FieldWidth::Be64,
        }
    }
}

impl FieldWidth {
    pub fn size(&self) -> (r: usize)
        ensures
            r == field_size(*self),
    {
        match self {
            FieldWidth::Be32 => 4,
            _ => 8,
        }
    }
}

/// Writes `data` as an index file in layout `t`.
pub fn encode(data: &CookieJar, t: SerializerType) -> (r: Vec<u8>)
    ensures
        r@ == encoding(t, *data),
{
    let hw = t.header_width();
    let ew = t.entry_width();
    let mut bytes: Vec<u8> = Vec::new();
    let version = if data.version != 0 {
        data.version
    } else {
        match t {
            SerializerType::Homebrew => VERSION_HOMEBREW,
            SerializerType::Linux => VERSION_LINUX,
            SerializerType::FreeBSD => VERSION_FREEBSD,
        }
    };
    push_field(&mut bytes, hw, version);
    push_field(&mut bytes, hw, data.cookies.len() as u64);
    push_field(&mut bytes, hw, data.max_length);
    push_field(&mut bytes, hw, data.min_length);
    push_field(&mut bytes, hw, data.flags);
    bytes.push(#[verifier::truncate] ((data.delim as u32) as u8));
    let pad: usize = if t == SerializerType::Homebrew {
        7
    } else {
        3
    };
    let mut k: usize = 0;
    while k < pad
        invariant
            k <= pad,
            pad == padding(t),
            hw == header_width(t),
            bytes@ == field_bytes(hw, effective_version(t, data.version)) + field_bytes(
                hw,
                data.cookies@.len() as u64,
            ) + field_bytes(hw, data.max_length) + field_bytes(hw, data.min_length) + field_bytes(
                hw,
                data.flags,
            ) + seq![(data.delim as u32) as u8] + Seq::new(k as nat, |i: int| 0u8),
        decreases pad - k,
    {
        bytes.push(0u8);
        k += 1;
        assert(bytes@ =~= field_bytes(hw, effective_version(t, data.version)) + field_bytes(
            hw,
            data.cookies@.len() as u64,
        ) + field_bytes(hw, data.max_length) + field_bytes(hw, data.min_length) + field_bytes(
            hw,
            data.flags,
        ) + seq![(data.delim as u32) as u8] + Seq::new(k as nat, |i: int| 0u8));
    }
    assert(bytes@ == header_bytes(t, *data));
    let ghost cookies = data.cookies@;
    let mut offset: u64 = 0;
    let mut i: usize = 0;
    while i < data.cookies.len()
        invariant
            i <= cookies.len(),
            cookies == data.cookies@,
            ew == entry_width(t),
            offset == wrap64(running_offset(cookies, i as int) as int),
            bytes@ == header_bytes(t, *data) + entries_bytes(
                ew,
                emitted_offsets(cookies).take(i as int),
            ),
        decreases cookies.len() - i,
    {
        let c = &data.cookies[i];
        let v = if c.offset != 0 {
            c.offset
        } else {
            offset
        };
        push_field(&mut bytes, ew, v);
        let len = c.content.as_str().len();
        let o1 = offset.wrapping_add(len as u64);
        let o2 = o1.wrapping_add(3);
        proof {
            let m = 0x1_0000_0000_0000_0000int;
            let run = running_offset(cookies, i as int) as int;
            let bl = byte_len(cookies[i as int].content@) as int;
            lemma_wrapping_step(offset, len as u64);
            lemma_wrapping_step(o1, 3);
            vstd::arithmetic::div_mod::lemma_small_mod(bl as nat, m as nat);
            vstd::arithmetic::div_mod::lemma_small_mod(3, m as nat);
            vstd::arithmetic::div_mod::lemma_add_mod_noop(run, bl, m);
            vstd::arithmetic::div_mod::lemma_add_mod_noop(run + bl, 3, m);
            vstd::arithmetic::div_mod::lemma_mod_twice(run + bl, m);
        }
        offset = o2;
        proof {
            let t1 = emitted_offsets(cookies).take(i + 1);
            assert(t1.drop_last() =~= emitted_offsets(cookies).take(i as int));
        }
        i += 1;
    }
    assert(emitted_offsets(cookies).take(i as int) =~= emitted_offsets(cookies));
    push_field(&mut bytes, ew, data.file_size);
    bytes
}

/// Reads an index file in layout `t`. The file must hold the header, whole
/// entries and the trailing size; the count in its header must match the
/// entries present.
pub fn decode(bytes: &Vec<u8>, t: SerializerType) -> (r: Result<CookieJar, CookieError>)
    ensures
        !well_sized(t, bytes@) ==> r == Err::<CookieJar, CookieError>(CookieError::MalformedHeader),
        well_sized(t, bytes@) && !count_agrees(t, bytes@) ==> r == Err::<CookieJar, CookieError>(
            CookieError::TruncatedData,
        ),
        well_sized(t, bytes@) && count_agrees(t, bytes@) ==> (r matches Ok(jar) && decodes_to(
            t,
            bytes@,
            jar,
        )),
{
    let hw = t.header_width();
    let ew = t.entry_width();
    let hs = hw.size();
    let es = ew.size();
    let header: usize = 5 * hs + 1 + if t == SerializerType::Homebrew {
        7
    } else {
        3
    };
    assert(header == header_size(t));
    if bytes.len() < header + es {
        return Err(CookieError::MalformedHeader);
    }
    let table = bytes.len() - header - es;
    if table % es != 0 {
        return Err(CookieError::MalformedHeader);
    }
    let n = table / es;
    let count = read_field(bytes, hs, hw);
    proof {
        assert(hs * 1 == hs);
    }
    if count != n as u64 {
        return Err(CookieError::TruncatedData);
    }
    let version = read_field(bytes, 0, hw);
    let max_length = read_field(bytes, 2 * hs, hw);
    let min_length = read_field(bytes, 3 * hs, hw);
    let flags = read_field(bytes, 4 * hs, hw);
    let delim = bytes[5 * hs] as char;
    let file_size = read_field(bytes, bytes.len() - es, ew);
    let platform = match t {
        SerializerType::Homebrew => String::from_str("homebrew"),
        SerializerType::Linux => String::from_str("linux"),
        SerializerType::FreeBSD => String::from_str("freebsd"),
    };
    let blen = bytes.len();
    let mut cookies: Vec<Cookie> = Vec::new();
    let mut i: usize = 0;
    let mut pos: usize = header;
    while i < n
        invariant
            i <= n,
            n * es == table,
            table == bytes@.len() - header - es,
            blen == bytes@.len(),
            header == header_size(t),
            es == field_size(ew),
            ew == entry_width(t),
            pos == header + i * es,
            cookies@.len() == i,
            forall|j: int|
                0 <= j < i ==> {
                    &&& (#[trigger] cookies@[j]).offset == entry_at(t, bytes@, j)
                    &&& cookies@[j].location@ == Seq::<char>::empty()
                    &&& cookies@[j].content@ == Seq::<char>::empty()
                },
        decreases n - i,
    {
        assert(i * es + es <= n * es) by (nonlinear_arith)
            requires
                i + 1 <= n,
        ;
        assert((i + 1) * es == i * es + es) by (nonlinear_arith);
        let offset = read_field(bytes, pos, ew);
        cookies.push(Cookie { location: String::new(), content: String::new(), offset });
        i += 1;
        pos += es;
    }
    let jar = CookieJar {
        location: String::new(),
        probability: 0,
        platform,
        version,
        max_length,
        min_length,
        flags,
        delim,
        file_size,
        cookies,
    };
    proof {
        reveal_strlit("homebrew");
        reveal_strlit("linux");
        reveal_strlit("freebsd");
    }
    Ok(jar)
}


// ---------------------------------------------------------------------
// Format detection and the public interface
// ---------------------------------------------------------------------

/// The 32-bit big-endian word at `at`.
pub open spec fn word_at(b: Seq<u8>, at: int) -> u32 {
    be32_of(b.subrange(at, at + 4))
}

/// The layout that the first bytes of an index file give away, tested in
/// this order: Homebrew writes version 1 as a 32-bit word followed by four
/// zero bytes; FreeBSD writes version 1 and 64-bit offsets, whose high
/// halves are zero for small files; Linux writes version 2, a nonzero count
/// and 32-bit offsets. Anything else is `host`.
pub open spec fn detected_type(b: Seq<u8>, host: SerializerType) -> SerializerType {
    if b.len() >= 8 && word_at(b, 0) == 1 && word_at(b, 4) == 0 {
        SerializerType::Homebrew
    } else if b.len() >= 36 && word_at(b, 0) == 1 && word_at(b, 24) == 0 && word_at(b, 32) == 0 {
        SerializerType::FreeBSD
    } else if b.len() >= 36 && word_at(b, 0) == 2 && word_at(b, 4) != 0 && word_at(b, 28) != 0
        && word_at(b, 32) != 0 {
        SerializerType::Linux
    } else {
        host
    }
}

/// A buffer of zero bytes matches none of the patterns, so the host's
/// layout is taken.
pub proof fn lemma_zeros_fall_back(b: Seq<u8>, host: SerializerType)
    requires
        forall|i: int| 0 <= i < b.len() ==> b[i] == 0,
    ensures
        detected_type(b, host) == host,
{
    if b.len() >= 8 {
        let w = b.subrange(0, 4);
        assert(w[0] == 0 && w[1] == 0 && w[2] == 0 && w[3] == 0);
        assert(((0u8 as u32) << 24u32) | ((0u8 as u32) << 16u32) | ((0u8 as u32) << 8u32) | (0u8 as u32)
            == 0) by (bit_vector);
        assert(word_at(b, 0) == 0);
    }
}

/// The layout named by an operating system as `std::env::consts::OS` spells it.
pub open spec fn type_of_os(os: Seq<char>) -> SerializerType {
    if os == "macos"@ {
        SerializerType::Homebrew
    } else if os == "freebsd"@ {
        SerializerType::FreeBSD
    } else {
        SerializerType::Linux
    }
}

/// The layout named by a platform name; `host` for any other name.
pub open spec fn type_of_platform(name: Seq<char>, host: SerializerType) -> SerializerType {
    if name == "homebrew"@ {
        SerializerType::Homebrew
    } else if name == "linux"@ {
        SerializerType::Linux
    } else if name == "freebsd"@ {
        SerializerType::FreeBSD
    } else {
        host
    }
}

fn same_text(a: &str, b: &str) -> (r: bool)
    ensures
        r == (a@ == b@),
{
    String::from_str(a) == String::from_str(b)
}

fn word(b: &Vec<u8>, at: usize) -> (r: u32)
    requires
        at + 4 <= b@.len(),
    ensures
        r == word_at(b@, at as int),
{
    read_field(b, at, FieldWidth::Be32) as u32
}

/// Stores `n` the way `htonl` on a 64-bit C integer does: cut to 32 bits,
/// in network order, in the low half of a little-endian 8-byte field.
pub fn u64_htonl_to_bytes(n: u64) -> (r: [u8; 8])
    ensures
        r@ == field_bytes(FieldWidth::Net32In64, n),
{
    let x = #[verifier::truncate] (n as u32);
    let r = [(x >> 24u32) as u8, (x >> 16u32) as u8, (x >> 8u32) as u8, x as u8, 0u8, 0u8, 0u8, 0u8];
    assert(r@ =~= field_bytes(FieldWidth::Net32In64, n));
    r
}

/// Reads a field written by [`u64_htonl_to_bytes`].
pub fn u64_ntohl_from_bytes(bytes: [u8; 8]) -> (r: u64)
    ensures
        r == field_of(FieldWidth::Net32In64, bytes@),
{
    let x: u32 = ((bytes[0] as u32) << 24u32) | ((bytes[1] as u32) << 16u32) | ((bytes[2] as u32)
        << 8u32) | (bytes[3] as u32);
    x as u64
}

/// Entry point of the codec, keyed by layout.
pub struct Serializer;

impl Serializer {
    pub fn to_bytes(data: &CookieJar, t: &SerializerType) -> (r: Vec<u8>)
        ensures
            r@ == encoding(*t, *data),
    {
        encode(data, *t)
    }

    pub fn from_bytes(bytes: &Vec<u8>, t: &SerializerType) -> (r: Result<CookieJar, CookieError>)
        ensures
            !well_sized(*t, bytes@) ==> r == Err::<CookieJar, CookieError>(
                CookieError::MalformedHeader,
            ),
            well_sized(*t, bytes@) && !count_agrees(*t, bytes@) ==> r == Err::<
                CookieJar,
                CookieError,
            >(CookieError::TruncatedData),
            well_sized(*t, bytes@) && count_agrees(*t, bytes@) ==> (r matches Ok(jar)
                && decodes_to(*t, bytes@, jar)),
    {
        decode(bytes, *t)
    }

    /// The layout called `platform`; `host` for an unknown name.
    pub fn get_type_by_platform(platform: &str, host: SerializerType) -> (r: SerializerType)
        ensures
            r == type_of_platform(platform@, host),
    {
        if same_text(platform, "homebrew") {
            SerializerType::Homebrew
        } else if same_text(platform, "linux") {
            SerializerType::Linux
        } else if same_text(platform, "freebsd") {
            SerializerType::FreeBSD
        } else {
            host
        }
    }

    pub fn get_platform_by_type(t: &SerializerType) -> (r: String)
        ensures
            r@ == platform_name(*t),
    {
        match t {
            SerializerType::Homebrew => String::from_str("homebrew"),
            SerializerType::Linux => String::from_str("linux"),
            SerializerType::FreeBSD => String::from_str("freebsd"),
        }
    }

    /// The layout used on operating system `os`: Linux's where none is known.
    pub fn get_type_by_os(os: &str) -> (r: SerializerType)
        ensures
            r == type_of_os(os@),
    {
        if same_text(os, "macos") {
            SerializerType::Homebrew
        } else if same_text(os, "freebsd") {
            SerializerType::FreeBSD
        } else {
            SerializerType::Linux
        }
    }

    /// Guesses the layout of an index file from its first bytes; `host`
    /// when none of the three patterns matches. Never fails, whatever the
    /// length of `bytes`.
    pub fn get_type_by_bytes(bytes: &Vec<u8>, host: SerializerType) -> (r: SerializerType)
        ensures
            r == detected_type(bytes@, host),
    {
        let n = bytes.len();
        if n >= 8 && word(bytes, 0) == 1 && word(bytes, 4) == 0 {
            SerializerType::Homebrew
        } else if n >= 36 && word(bytes, 0) == 1 && word(bytes, 24) == 0 && word(bytes, 32) == 0 {
            SerializerType::FreeBSD
        } else if n >= 36 && word(bytes, 0) == 2 && word(bytes, 4) != 0 && word(bytes, 28) != 0
            && word(bytes, 32) != 0 {
            SerializerType::Linux
        } else {
            host
        }
    }
}

/// The BSD/Homebrew layout: 8-byte fields holding 32-bit values.
pub struct SerializerHomebrew;

impl SerializerHomebrew {
    pub fn to_bytes(data: &CookieJar) -> (r: Vec<u8>)
        ensures
            r@ == encoding(SerializerType::Homebrew, *data),
    {
        encode(data, SerializerType::Homebrew)
    }

    pub fn from_bytes(bytes: &Vec<u8>) -> (r: Result<CookieJar, CookieError>)
        ensures
            !well_sized(SerializerType::Homebrew, bytes@) ==> r == Err::<CookieJar, CookieError>(
                CookieError::MalformedHeader,
            ),
            well_sized(SerializerType::Homebrew, bytes@) && !count_agrees(SerializerType::Homebrew, bytes@)
                ==> r == Err::<CookieJar, CookieError>(CookieError::TruncatedData),
            well_sized(SerializerType::Homebrew, bytes@) && count_agrees(SerializerType::Homebrew, bytes@)
                ==> (r matches Ok(jar) && decodes_to(SerializerType::Homebrew, bytes@, jar)),
    {
        decode(bytes, SerializerType::Homebrew)
    }
}

/// The Linux layout: 32-bit header fields and offsets.
pub struct SerializerLinux;

impl SerializerLinux {
    pub fn to_bytes(data: &CookieJar) -> (r: Vec<u8>)
        ensures
            r@ == encoding(SerializerType::Linux, *data),
    {
        encode(data, SerializerType::Linux)
    }

    pub fn from_bytes(bytes: &Vec<u8>) -> (r: Result<CookieJar, CookieError>)
        ensures
            !well_sized(SerializerType::Linux, bytes@) ==> r == Err::<CookieJar, CookieError>(
                CookieError::MalformedHeader,
            ),
            well_sized(SerializerType::Linux, bytes@) && !count_agrees(SerializerType::Linux, bytes@)
                ==> r == Err::<CookieJar, CookieError>(CookieError::TruncatedData),
            well_sized(SerializerType::Linux, bytes@) && count_agrees(SerializerType::Linux, bytes@)
                ==> (r matches Ok(jar) && decodes_to(SerializerType::Linux, bytes@, jar)),
    {
        decode(bytes, SerializerType::Linux)
    }
}

/// The FreeBSD layout: 32-bit header fields and 64-bit offsets.
pub struct SerializerFreeBSD;

impl SerializerFreeBSD {
    pub fn to_bytes(data: &CookieJar) -> (r: Vec<u8>)
        ensures
            r@ == encoding(SerializerType::FreeBSD, *data),
    {
        encode(data, SerializerType::FreeBSD)
    }

    pub fn from_bytes(bytes: &Vec<u8>) -> (r: Result<CookieJar, CookieError>)
        ensures
            !well_sized(SerializerType::FreeBSD, bytes@) ==> r == Err::<CookieJar, CookieError>(
                CookieError::MalformedHeader,
            ),
            well_sized(SerializerType::FreeBSD, bytes@) && !count_agrees(SerializerType::FreeBSD, bytes@)
                ==> r == Err::<CookieJar, CookieError>(CookieError::TruncatedData),
            well_sized(SerializerType::FreeBSD, bytes@) && count_agrees(SerializerType::FreeBSD, bytes@)
                ==> (r matches Ok(jar) && decodes_to(SerializerType::FreeBSD, bytes@, jar)),
    {
        decode(bytes, SerializerType::FreeBSD)
    }
}

} // verus!
