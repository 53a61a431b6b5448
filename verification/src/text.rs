//! Byte-level text helpers over UTF-8 encoded text. Every offset in the
//! library is a byte offset into the text that was prepared.

use vstd::prelude::*;
use vstd::string::StringSliceAdditionalSpecFns;
use vstd::utf8::{decode_utf8, encode_utf8, encode_utf8_decode_utf8};

verus! {

/// True when `i` starts a character of `b` or is its end, read as Rust's
/// `str::is_char_boundary` reads it: a boundary is never a continuation byte.
pub open spec fn boundary(b: Seq<u8>, i: int) -> bool {
    i == 0 || i == b.len() || (0 < i < b.len() && !(0x80 <= b[i] <= 0xbf))
}

/// Whether `i` is a character boundary of `b`.
pub fn is_boundary(b: &[u8], i: usize) -> (r: bool)
    ensures
        r == boundary(b@, i as int),
{
    i == 0 || i == b.len() || (i < b.len() && !(0x80u8 <= b[i] && b[i] <= 0xbfu8))
}

/// `a[lo, hi)` equals `w`.
pub open spec fn bytes_at(a: Seq<u8>, lo: int, hi: int, w: Seq<u8>) -> bool {
    0 <= lo <= hi <= a.len() && a.subrange(lo, hi) == w
}

/// Whether `a[lo, hi)` equals `w`.
pub fn bytes_equal_at(a: &[u8], lo: usize, hi: usize, w: &[u8]) -> (r: bool)
    requires
        lo <= hi <= a@.len(),
    ensures
        r == bytes_at(a@, lo as int, hi as int, w@),
{
    if hi - lo != w.len() {
        proof {
            assert(a@.subrange(lo as int, hi as int).len() != w@.len());
        }
        return false;
    }
    let mut k: usize = 0;
    while k < w.len()
        invariant
            lo <= hi <= a@.len(),
            hi - lo == w@.len(),
            0 <= k <= w@.len(),
            forall|j: int| 0 <= j < k ==> a@[lo + j] == w@[j],
        decreases w@.len() - k,
    {
        if a[lo + k] != w[k] {
            proof {
                assert(a@.subrange(lo as int, hi as int)[k as int] != w@[k as int]);
            }
            return false;
        }
        k += 1;
    }
    assert(a@.subrange(lo as int, hi as int) =~= w@);
    true
}

/// No line feed in the bytes `[lo, hi)`.
pub open spec fn no_newline(b: Seq<u8>, lo: int, hi: int) -> bool {
    forall|j: int| lo <= j < hi ==> #[trigger] b[j] != 0x0a
}

} // verus!

verus! {

/// ASCII whitespace as `char::is_whitespace` sees it: tab, line feed,
/// vertical tab, form feed, carriage return, and space.
pub open spec fn ascii_ws(c: u8) -> bool {
    (0x09 <= c <= 0x0d) || c == 0x20
}

/// The three-byte UTF-8 encodings of White_Space characters: U+1680,
/// U+2000..=U+200A, U+2028, U+2029, U+202F, U+205F and U+3000.
pub open spec fn wide_ws3(c0: u8, c1: u8, c2: u8) -> bool {
    ||| (c0 == 0xe1 && c1 == 0x9a && c2 == 0x80)
    ||| (c0 == 0xe2 && c1 == 0x80 && ((0x80 <= c2 <= 0x8a) || c2 == 0xa8 || c2 == 0xa9 || c2
        == 0xaf))
    ||| (c0 == 0xe2 && c1 == 0x81 && c2 == 0x9f)
    ||| (c0 == 0xe3 && c1 == 0x80 && c2 == 0x80)
}

/// The two-byte UTF-8 encodings of White_Space characters: U+0085 and U+00A0.
pub open spec fn wide_ws2(c0: u8, c1: u8) -> bool {
    c0 == 0xc2 && (c1 == 0x85 || c1 == 0xa0)
}

/// Byte length of the whitespace character that starts at `i` and ends at
/// or before `hi`, or 0 when none does. The White_Space property is the one
/// `char::is_whitespace` tests.
pub open spec fn ws_at(b: Seq<u8>, i: int, hi: int) -> int {
    if 0 <= i < hi && ascii_ws(b[i]) {
        1
    } else if 0 <= i && i + 2 <= hi && wide_ws2(b[i], b[i + 1]) {
        2
    } else if 0 <= i && i + 3 <= hi && wide_ws3(b[i], b[i + 1], b[i + 2]) {
        3
    } else {
        0
    }
}

/// Byte length of the whitespace character that ends at `j` and starts at
/// or after `lo`, or 0 when none does.
pub open spec fn ws_before(b: Seq<u8>, lo: int, j: int) -> int {
    if lo < j && ascii_ws(b[j - 1]) {
        1
    } else if lo <= j - 2 && wide_ws2(b[j - 2], b[j - 1]) {
        2
    } else if lo <= j - 3 && wide_ws3(b[j - 3], b[j - 2], b[j - 1]) {
        3
    } else {
        0
    }
}

/// Where `[lo, hi)` starts once leading whitespace is removed (`trim_start`).
pub open spec fn trim_start_at(b: Seq<u8>, lo: int, hi: int) -> int
    decreases hi - lo,
{
    if lo < hi && ws_at(b, lo, hi) > 0 {
        trim_start_at(b, lo + ws_at(b, lo, hi), hi)
    } else {
        lo
    }
}

/// Where `[lo, hi)` ends once trailing whitespace is removed (`trim_end`).
pub open spec fn trim_end_at(b: Seq<u8>, lo: int, hi: int) -> int
    decreases hi - lo,
{
    if lo < hi && ws_before(b, lo, hi) > 0 {
        trim_end_at(b, lo, hi - ws_before(b, lo, hi))
    } else {
        hi
    }
}

/// `[lo, hi)` holds nothing but whitespace (`trim().is_empty()`).
pub open spec fn blank(b: Seq<u8>, lo: int, hi: int) -> bool {
    trim_start_at(b, lo, hi) == hi
}

pub proof fn lemma_trim_start_bounds(b: Seq<u8>, lo: int, hi: int)
    requires
        lo <= hi,
    ensures
        lo <= trim_start_at(b, lo, hi) <= hi,
    decreases hi - lo,
{
    if lo < hi && ws_at(b, lo, hi) > 0 {
        lemma_trim_start_bounds(b, lo + ws_at(b, lo, hi), hi);
    }
}

pub proof fn lemma_trim_end_bounds(b: Seq<u8>, lo: int, hi: int)
    requires
        lo <= hi,
    ensures
        lo <= trim_end_at(b, lo, hi) <= hi,
    decreases hi - lo,
{
    if lo < hi && ws_before(b, lo, hi) > 0 {
        lemma_trim_end_bounds(b, lo, hi - ws_before(b, lo, hi));
    }
}

/// Byte length of the whitespace character at `i` inside `[.., hi)`.
pub fn ws_len_at(b: &[u8], i: usize, hi: usize) -> (n: usize)
    requires
        hi <= b@.len(),
    ensures
        n == ws_at(b@, i as int, hi as int),
        n <= 3,
{
    if i < hi && ((0x09u8 <= b[i] && b[i] <= 0x0du8) || b[i] == 0x20u8) {
        1
    } else if i < hi && hi - i >= 2 && b[i] == 0xc2u8 && (b[i + 1] == 0x85u8 || b[i + 1] == 0xa0u8) {
        2
    } else if i < hi && hi - i >= 3 && is_wide_ws3(b[i], b[i + 1], b[i + 2]) {
        3
    } else {
        0
    }
}

fn is_wide_ws3(c0: u8, c1: u8, c2: u8) -> (r: bool)
    ensures
        r == wide_ws3(c0, c1, c2),
{
    (c0 == 0xe1u8 && c1 == 0x9au8 && c2 == 0x80u8) || (c0 == 0xe2u8 && c1 == 0x80u8 && ((0x80u8
        <= c2 && c2 <= 0x8au8) || c2 == 0xa8u8 || c2 == 0xa9u8 || c2 == 0xafu8)) || (c0 == 0xe2u8
        && c1 == 0x81u8 && c2 == 0x9fu8) || (c0 == 0xe3u8 && c1 == 0x80u8 && c2 == 0x80u8)
}

/// Byte length of the whitespace character ending at `j` inside `[lo, ..)`.
pub fn ws_len_before(b: &[u8], lo: usize, j: usize) -> (n: usize)
    requires
        j <= b@.len(),
    ensures
        n == ws_before(b@, lo as int, j as int),
        n <= 3,
{
    if lo < j && ((0x09u8 <= b[j - 1] && b[j - 1] <= 0x0du8) || b[j - 1] == 0x20u8) {
        1
    } else if j >= 2 && lo <= j - 2 && b[j - 2] == 0xc2u8 && (b[j - 1] == 0x85u8 || b[j - 1]
        == 0xa0u8) {
        2
    } else if j >= 3 && lo <= j - 3 && is_wide_ws3(b[j - 3], b[j - 2], b[j - 1]) {
        3
    } else {
        0
    }
}

/// Start of `[lo, hi)` after `trim_start`.
pub fn trim_start_pos(b: &[u8], lo: usize, hi: usize) -> (s: usize)
    requires
        lo <= hi <= b@.len(),
    ensures
        s == trim_start_at(b@, lo as int, hi as int),
        lo <= s <= hi,
{
    let mut s = lo;
    while s < hi
        invariant
            lo <= s <= hi <= b@.len(),
            trim_start_at(b@, s as int, hi as int) == trim_start_at(b@, lo as int, hi as int),
        ensures
            lo <= s <= hi,
            trim_start_at(b@, s as int, hi as int) == s,
            trim_start_at(b@, s as int, hi as int) == trim_start_at(b@, lo as int, hi as int),
        decreases hi - s,
    {
        let n = ws_len_at(b, s, hi);
        if n == 0 {
            break;
        }
        s = s + n;
    }
    proof {
        lemma_trim_start_bounds(b@, lo as int, hi as int);
    }
    s
}

/// End of `[lo, hi)` after `trim_end`.
pub fn trim_end_pos(b: &[u8], lo: usize, hi: usize) -> (e: usize)
    requires
        lo <= hi <= b@.len(),
    ensures
        e == trim_end_at(b@, lo as int, hi as int),
        lo <= e <= hi,
{
    let mut e = hi;
    while e > lo
        invariant
            lo <= e <= hi <= b@.len(),
            trim_end_at(b@, lo as int, e as int) == trim_end_at(b@, lo as int, hi as int),
        ensures
            lo <= e <= hi,
            trim_end_at(b@, lo as int, e as int) == e,
            trim_end_at(b@, lo as int, e as int) == trim_end_at(b@, lo as int, hi as int),
        decreases e - lo,
    {
        let n = ws_len_before(b, lo, e);
        if n == 0 {
            break;
        }
        e = e - n;
    }
    proof {
        lemma_trim_end_bounds(b@, lo as int, hi as int);
    }
    e
}

/// Whether `[lo, hi)` holds only whitespace.
pub fn is_blank(b: &[u8], lo: usize, hi: usize) -> (r: bool)
    requires
        lo <= hi <= b@.len(),
    ensures
        r == blank(b@, lo as int, hi as int),
{
    trim_start_pos(b, lo, hi) == hi
}

} // verus!

verus! {

/// Two strings are equal exactly when their UTF-8 encodings are.
pub proof fn lemma_encode_injective(a: Seq<char>, b: Seq<char>)
    requires
        encode_utf8(a) == encode_utf8(b),
    ensures
        a == b,
{
    encode_utf8_decode_utf8(a);
    encode_utf8_decode_utf8(b);
}

/// Whether two strings are equal.
pub fn str_eq(a: &str, b: &str) -> (r: bool)
    ensures
        r == (a@ == b@),
{
    let ab = a.as_bytes();
    let bb = b.as_bytes();
    let r = bytes_equal_at(ab, 0, ab.len(), bb);
    proof {
        assert(ab@.subrange(0, ab@.len() as int) =~= ab@);
        if r {
            lemma_encode_injective(a@, b@);
        }
    }
    r
}

/// `[lo, hi)` is an in-order range of `b` with both ends on character
/// boundaries.
pub open spec fn sub_ok(b: Seq<u8>, lo: int, hi: int) -> bool {
    lo <= hi <= b.len() && boundary(b, lo) && boundary(b, hi)
}

} // verus!

verus! {

/// ASCII lowercase of one byte; other bytes unchanged (`to_ascii_lowercase`).
pub open spec fn lc(c: u8) -> u8 {
    if 0x41 <= c <= 0x5a {
        (c + 32) as u8
    } else {
        c
    }
}

/// ASCII-lowercased bytes.
pub open spec fn lower(b: Seq<u8>) -> Seq<u8> {
    Seq::new(b.len(), |i: int| lc(b[i]))
}

pub fn lc_byte(c: u8) -> (r: u8)
    ensures
        r == lc(c),
{
    if 0x41u8 <= c && c <= 0x5au8 {
        c + 32
    } else {
        c
    }
}

/// ASCII-lowercased copy of `b[lo, hi)`.
pub fn lower_copy(b: &[u8], lo: usize, hi: usize) -> (r: Vec<u8>)
    requires
        lo <= hi <= b@.len(),
    ensures
        r@ == lower(b@.subrange(lo as int, hi as int)),
{
    let mut r: Vec<u8> = Vec::new();
    for i in lo..hi
        invariant
            lo <= hi <= b@.len(),
            r@.len() == i - lo,
            forall|k: int| 0 <= k < r@.len() ==> r@[k] == lc(b@[lo + k]),
    {
        r.push(lc_byte(b[i]));
    }
    assert(r@ =~= lower(b@.subrange(lo as int, hi as int)));
    r
}

/// The first position at or after `at` where `w` occurs in `h`
/// (`str::find` on the part of `h` from `at`, offset back to `h`).
pub open spec fn find_from(h: Seq<u8>, w: Seq<u8>, at: int) -> Option<int>
    decreases h.len() - at,
{
    if at < 0 || at + w.len() > h.len() {
        None
    } else if h.subrange(at, at + w.len()) == w {
        Some(at)
    } else if at >= h.len() {
        None
    } else {
        find_from(h, w, at + 1)
    }
}

pub proof fn lemma_find_from(h: Seq<u8>, w: Seq<u8>, at: int)
    ensures
        find_from(h, w, at) matches Some(s) ==> at <= s && s + w.len() <= h.len() && 0 <= s
            && h.subrange(s, s + w.len()) == w,
    decreases h.len() - at,
{
    if at < 0 || at + w.len() > h.len() {
    } else if h.subrange(at, at + w.len()) == w {
    } else if at >= h.len() {
    } else {
        lemma_find_from(h, w, at + 1);
    }
}

/// Where `w` first occurs in `h` at or after `at`.
pub fn find_bytes(h: &[u8], w: &[u8], at: usize) -> (r: Option<usize>)
    ensures
        r is Some <==> find_from(h@, w@, at as int) is Some,
        r matches Some(s) ==> find_from(h@, w@, at as int) == Some(s as int),
        r matches Some(s) ==> at <= s && s + w@.len() <= h@.len(),
{
    let mut s = at;
    proof {
        lemma_find_from(h@, w@, at as int);
    }
    while s <= h.len() && w.len() <= h.len() - s
        invariant
            at <= s,
            find_from(h@, w@, at as int) == find_from(h@, w@, s as int),
        decreases h@.len() + 1 - s,
    {
        if bytes_equal_at(h, s, s + w.len(), w) {
            return Some(s);
        }
        if w.len() == 0 {
            assert(h@.subrange(s as int, s as int) =~= w@);
        }
        if s >= h.len() {
            return None;
        }
        s += 1;
    }
    None
}

/// Code of the character whose encoding starts at `i` and fits before
/// `hi`, read from its lead byte and continuation bytes.
pub open spec fn code_at(b: Seq<u8>, i: int, hi: int) -> Option<u32> {
    if !(0 <= i < hi) {
        None
    } else if b[i] < 0x80 {
        Some(b[i] as u32)
    } else if 0xc0 <= b[i] <= 0xdf && i + 2 <= hi {
        Some(vstd::utf8::codepoint_width_2(b[i], b[i + 1]))
    } else if 0xe0 <= b[i] <= 0xef && i + 3 <= hi {
        Some(vstd::utf8::codepoint_width_3(b[i], b[i + 1], b[i + 2]))
    } else if 0xf0 <= b[i] <= 0xf7 && i + 4 <= hi {
        Some(vstd::utf8::codepoint_width_4(b[i], b[i + 1], b[i + 2], b[i + 3]))
    } else {
        None
    }
}

/// Code of the character whose encoding ends at `j` and starts at or after
/// `lo`.
pub open spec fn code_before(b: Seq<u8>, lo: int, j: int) -> Option<u32> {
    if !(lo < j) {
        None
    } else if b[j - 1] < 0x80 {
        Some(b[j - 1] as u32)
    } else if j - 2 >= lo && 0xc0 <= b[j - 2] <= 0xdf {
        Some(vstd::utf8::codepoint_width_2(b[j - 2], b[j - 1]))
    } else if j - 3 >= lo && 0xe0 <= b[j - 3] <= 0xef {
        Some(vstd::utf8::codepoint_width_3(b[j - 3], b[j - 2], b[j - 1]))
    } else if j - 4 >= lo && 0xf0 <= b[j - 4] <= 0xf7 {
        Some(vstd::utf8::codepoint_width_4(b[j - 4], b[j - 3], b[j - 2], b[j - 1]))
    } else {
        None
    }
}

fn cw2(b1: u8, b2: u8) -> (r: u32)
    ensures
        r == vstd::utf8::codepoint_width_2(b1, b2),
{
    (((b1 & 0x1fu8) as u32) << 6u32) | ((b2 & 0x3fu8) as u32)
}

fn cw3(b1: u8, b2: u8, b3: u8) -> (r: u32)
    ensures
        r == vstd::utf8::codepoint_width_3(b1, b2, b3),
{
    (((b1 & 0x0fu8) as u32) << 12u32) | (((b2 & 0x3fu8) as u32) << 6u32) | ((b3 & 0x3fu8) as u32)
}

fn cw4(b1: u8, b2: u8, b3: u8, b4: u8) -> (r: u32)
    ensures
        r == vstd::utf8::codepoint_width_4(b1, b2, b3, b4),
{
    (((b1 & 0x07u8) as u32) << 18u32) | (((b2 & 0x3fu8) as u32) << 12u32) | (((b3 & 0x3fu8)
        as u32) << 6u32) | ((b4 & 0x3fu8) as u32)
}

pub fn char_code_at(b: &[u8], i: usize, hi: usize) -> (r: Option<u32>)
    requires
        hi <= b@.len(),
    ensures
        r == code_at(b@, i as int, hi as int),
{
    if i >= hi {
        None
    } else if b[i] < 0x80u8 {
        Some(b[i] as u32)
    } else if 0xc0u8 <= b[i] && b[i] <= 0xdfu8 && hi - i >= 2 {
        Some(cw2(b[i], b[i + 1]))
    } else if 0xe0u8 <= b[i] && b[i] <= 0xefu8 && hi - i >= 3 {
        Some(cw3(b[i], b[i + 1], b[i + 2]))
    } else if 0xf0u8 <= b[i] && b[i] <= 0xf7u8 && hi - i >= 4 {
        Some(cw4(b[i], b[i + 1], b[i + 2], b[i + 3]))
    } else {
        None
    }
}

pub fn char_code_before(b: &[u8], lo: usize, j: usize) -> (r: Option<u32>)
    requires
        j <= b@.len(),
    ensures
        r == code_before(b@, lo as int, j as int),
{
    if lo >= j {
        None
    } else if b[j - 1] < 0x80u8 {
        Some(b[j - 1] as u32)
    } else if j - lo >= 2 && 0xc0u8 <= b[j - 2] && b[j - 2] <= 0xdfu8 {
        Some(cw2(b[j - 2], b[j - 1]))
    } else if j - lo >= 3 && 0xe0u8 <= b[j - 3] && b[j - 3] <= 0xefu8 {
        Some(cw3(b[j - 3], b[j - 2], b[j - 1]))
    } else if j - lo >= 4 && 0xf0u8 <= b[j - 4] && b[j - 4] <= 0xf7u8 {
        Some(cw4(b[j - 4], b[j - 3], b[j - 2], b[j - 1]))
    } else {
        None
    }
}

/// The character with code `u` (`char::from_u32`): the contract claims it
/// is `Some` exactly for Unicode scalar values, holding that value.
#[verifier::external_body]
pub(crate) fn char_from_code(u: u32) -> (r: Option<char>)
    ensures
        r == (if vstd::utf8::is_scalar(u) { Some(u as char) } else { None }),
{
    char::from_u32(u)
}

/// Number of characters in UTF-8 bytes: the bytes that are not
/// continuation bytes (`chars().count()`).
pub open spec fn char_count(b: Seq<u8>) -> nat
    decreases b.len(),
{
    if b.len() == 0 {
        0
    } else {
        char_count(b.drop_last()) + if 0x80 <= b.last() <= 0xbf {
            0nat
        } else {
            1nat
        }
    }
}

/// Number of characters in `b[lo, hi)`.
pub fn count_chars(b: &[u8], lo: usize, hi: usize) -> (n: usize)
    requires
        lo <= hi <= b@.len(),
    ensures
        n == char_count(b@.subrange(lo as int, hi as int)),
{
    let mut n: usize = 0;
    for i in lo..hi
        invariant
            lo <= hi <= b@.len(),
            n == char_count(b@.subrange(lo as int, i as int)),
            n <= i - lo,
    {
        assert(b@.subrange(lo as int, i + 1).drop_last() =~= b@.subrange(lo as int, i as int));
        if !(0x80u8 <= b[i] && b[i] <= 0xbfu8) {
            n += 1;
        }
    }
    n
}

} // verus!

verus! {

/// Copy of `b[lo, hi)`.
pub fn copy_range(b: &[u8], lo: usize, hi: usize) -> (r: Vec<u8>)
    requires
        lo <= hi <= b@.len(),
    ensures
        r@ == b@.subrange(lo as int, hi as int),
{
    let mut r: Vec<u8> = Vec::new();
    for i in lo..hi
        invariant
            lo <= hi <= b@.len(),
            r@ == b@.subrange(lo as int, i as int),
    {
        r.push(b[i]);
        assert(r@ =~= b@.subrange(lo as int, i + 1));
    }
    r
}

/// `a` ends with `suffix`.
pub open spec fn ends_with(a: Seq<u8>, suffix: Seq<u8>) -> bool {
    suffix.len() <= a.len() && a.subrange(a.len() - suffix.len(), a.len() as int) == suffix
}

/// `a` starts with `prefix`.
pub open spec fn starts_with(a: Seq<u8>, prefix: Seq<u8>) -> bool {
    prefix.len() <= a.len() && a.subrange(0, prefix.len() as int) == prefix
}

pub fn bytes_end_with(a: &[u8], suffix: &[u8]) -> (r: bool)
    ensures
        r == ends_with(a@, suffix@),
{
    if suffix.len() > a.len() {
        return false;
    }
    bytes_equal_at(a, a.len() - suffix.len(), a.len(), suffix)
}

pub fn bytes_start_with(a: &[u8], prefix: &[u8]) -> (r: bool)
    ensures
        r == starts_with(a@, prefix@),
{
    if prefix.len() > a.len() {
        return false;
    }
    bytes_equal_at(a, 0, prefix.len(), prefix)
}

/// End of the word that starts at `i`: the first whitespace character at
/// or after `i`, or `hi`.
pub open spec fn word_end(b: Seq<u8>, i: int, hi: int) -> int
    decreases hi - i,
{
    if i < hi && ws_at(b, i, hi) == 0 {
        word_end(b, i + 1, hi)
    } else {
        i
    }
}

pub proof fn lemma_word_end(b: Seq<u8>, i: int, hi: int)
    requires
        i <= hi,
    ensures
        i <= word_end(b, i, hi) <= hi,
        i < hi && ws_at(b, i, hi) == 0 ==> i < word_end(b, i, hi),
    decreases hi - i,
{
    if i < hi && ws_at(b, i, hi) == 0 {
        lemma_word_end(b, i + 1, hi);
    }
}

/// End of the word starting at `i` inside `[.., hi)`.
pub fn word_end_pos(b: &[u8], i: usize, hi: usize) -> (e: usize)
    requires
        i <= hi <= b@.len(),
    ensures
        e == word_end(b@, i as int, hi as int),
        i <= e <= hi,
{
    let mut e = i;
    proof {
        lemma_word_end(b@, i as int, hi as int);
    }
    while e < hi && ws_len_at(b, e, hi) == 0
        invariant
            i <= e <= hi <= b@.len(),
            word_end(b@, e as int, hi as int) == word_end(b@, i as int, hi as int),
        decreases hi - e,
    {
        e += 1;
    }
    e
}

} // verus!

verus! {

pub proof fn lemma_trim_start_stops(b: Seq<u8>, lo: int, hi: int)
    requires
        lo <= hi,
    ensures
        trim_start_at(b, lo, hi) < hi ==> ws_at(b, trim_start_at(b, lo, hi), hi) == 0,
    decreases hi - lo,
{
    if lo < hi && ws_at(b, lo, hi) > 0 {
        lemma_trim_start_stops(b, lo + ws_at(b, lo, hi), hi);
    }
}

/// The whitespace-separated words of `b[i, hi)` (`split_whitespace`).
pub open spec fn words_in(b: Seq<u8>, i: int, hi: int) -> Seq<Seq<u8>>
    decreases hi - i,
{
    if i >= hi {
        seq![]
    } else {
        let s = trim_start_at(b, i, hi);
        if s >= hi {
            seq![]
        } else {
            let e = word_end(b, s, hi);
            if e <= i || e > hi {
                seq![]
            } else {
                seq![b.subrange(s, e)] + words_in(b, e, hi)
            }
        }
    }
}

/// Words joined with single spaces.
pub open spec fn join_space(ws: Seq<Seq<u8>>) -> Seq<u8>
    decreases ws.len(),
{
    if ws.len() == 0 {
        seq![]
    } else if ws.len() == 1 {
        ws[0]
    } else {
        join_space(ws.drop_last()) + seq![0x20u8] + ws.last()
    }
}

/// `b[lo, hi)` with every whitespace run collapsed to one space and the
/// ends trimmed.
pub open spec fn collapse(b: Seq<u8>, lo: int, hi: int) -> Seq<u8> {
    join_space(words_in(b, lo, hi))
}

proof fn lemma_words_step(b: Seq<u8>, i: int, hi: int)
    requires
        i < hi,
        trim_start_at(b, i, hi) < hi,
    ensures
        i <= trim_start_at(b, i, hi) < word_end(b, trim_start_at(b, i, hi), hi) <= hi,
{
    lemma_trim_start_bounds(b, i, hi);
    lemma_trim_start_stops(b, i, hi);
    lemma_word_end(b, trim_start_at(b, i, hi), hi);
}

/// `collapse` of `b[lo, hi)`.
pub fn collapse_ws(b: &[u8], lo: usize, hi: usize) -> (r: Vec<u8>)
    requires
        lo <= hi <= b@.len(),
    ensures
        r@ == collapse(b@, lo as int, hi as int),
{
    let mut out: Vec<u8> = Vec::new();
    let ghost mut done: Seq<Seq<u8>> = seq![];
    let mut i = lo;
    let mut any = false;
    while i < hi
        invariant
            any == (done.len() > 0),
            lo <= i <= hi <= b@.len(),
            done + words_in(b@, i as int, hi as int) == words_in(b@, lo as int, hi as int),
            out@ == join_space(done),
        ensures
            done + words_in(b@, i as int, hi as int) == words_in(b@, lo as int, hi as int),
            out@ == join_space(done),
            words_in(b@, i as int, hi as int) =~= seq![],
        decreases hi - i,
    {
        let s = trim_start_pos(b, i, hi);
        if s >= hi {
            break;
        }
        proof {
            lemma_words_step(b@, i as int, hi as int);
        }
        let e = word_end_pos(b, s, hi);
        let ghost w = b@.subrange(s as int, e as int);
        if any {
            out.push(0x20u8);
        }
        any = true;
        let mut k = s;
        let ghost before = out@;
        while k < e
            invariant
                s <= k <= e <= b@.len(),
                out@ == before + b@.subrange(s as int, k as int),
            decreases e - k,
        {
            out.push(b[k]);
            assert(out@ =~= before + b@.subrange(s as int, k + 1));
            k += 1;
        }
        proof {
            let nd = done.push(w);
            assert(nd.drop_last() =~= done);
            if done.len() == 0 {
                assert(out@ =~= join_space(nd));
            } else {
                assert(out@ =~= join_space(nd));
            }
            assert(words_in(b@, i as int, hi as int) =~= seq![w] + words_in(b@, e as int, hi as int));
            assert(nd + words_in(b@, e as int, hi as int) =~= done + words_in(b@, i as int, hi as int));
            done = nd;
        }
        i = e;
    }
    proof {
        assert(done + words_in(b@, i as int, hi as int) =~= done);
    }
    out
}

} // verus!

verus! {

/// The texts of string slices.
pub open spec fn str_views(v: Seq<&str>) -> Seq<Seq<char>> {
    v.map_values(|t: &str| t@)
}

/// The texts of strings.
pub open spec fn string_views(v: Seq<String>) -> Seq<Seq<char>> {
    v.map_values(|t: String| t@)
}

/// The contents of byte vectors.
pub open spec fn byte_views(v: Seq<Vec<u8>>) -> Seq<Seq<u8>> {
    v.map_values(|x: Vec<u8>| x@)
}

/// The characters of `s`, in order.
pub fn chars_of(s: &str) -> (r: Vec<char>)
    ensures
        r@ == s@,
{
    let mut r: Vec<char> = Vec::new();
    proof {
        vstd::string::axiom_spec_iter(s);
    }
    for c in it: s.chars()
        invariant
            it.seq() == s@,
            r@ == it.seq().take(it.index() as int),
    {
        r.push(c);
    }
    r
}


/// No occurrence of `w` in `h` starts in `[at, to)`.
pub open spec fn absent_between(h: Seq<u8>, w: Seq<u8>, at: int, to: int) -> bool {
    forall|s: int|
        at <= s < to ==> !(s + w.len() <= h.len() && #[trigger] h.subrange(s, s + w.len()) == w)
}

/// `find_from` finds the first occurrence: none starts between `at` and
/// what it returns (or the end, when it returns none).
pub proof fn lemma_find_first(h: Seq<u8>, w: Seq<u8>, at: int)
    requires
        0 <= at,
    ensures
        find_from(h, w, at) matches Some(s) ==> absent_between(h, w, at, s),
        find_from(h, w, at) is None ==> absent_between(h, w, at, h.len() + 1int),
    decreases h.len() - at,
{
    if at + w.len() > h.len() {
    } else if h.subrange(at, at + w.len()) == w {
    } else if at >= h.len() {
    } else {
        lemma_find_first(h, w, at + 1);
    }
}

/// The first line feed at or after `i` is at `k`.
pub proof fn lemma_find_nl(h: Seq<u8>, i: int, k: int)
    requires
        0 <= i <= k < h.len(),
        h[k] == 0x0au8,
        forall|j: int| i <= j < k ==> h[j] != 0x0au8,
    ensures
        find_from(h, seq![0x0au8], i) == Some(k),
    decreases k - i,
{
    if i < k {
        assert(h.subrange(i, i + 1) != seq![0x0au8]) by {
            assert(h.subrange(i, i + 1)[0] == h[i]);
        }
        lemma_find_nl(h, i + 1, k);
    } else {
        assert(h.subrange(i, i + 1) =~= seq![0x0au8]);
    }
}

/// Searching `p + b` from `|p| + i` is searching `b` from `i`, shifted.
pub proof fn lemma_find_shift(p: Seq<u8>, b: Seq<u8>, w: Seq<u8>, i: int)
    requires
        0 <= i,
    ensures
        find_from(p + b, w, p.len() + i) == (match find_from(b, w, i) {
            Some(s) => Some(p.len() + s),
            None => None::<int>,
        }),
    decreases b.len() - i,
{
    let h = p + b;
    let a = p.len() + i;
    if a + w.len() > h.len() {
    } else {
        assert(h.subrange(a, a + w.len()) =~= b.subrange(i, i + w.len()));
        if b.subrange(i, i + w.len()) == w {
        } else if i >= b.len() {
        } else {
            lemma_find_shift(p, b, w, i + 1);
            assert(p.len() + (i + 1) == a + 1);
        }
    }
}

/// Trimming reads only the bytes inside the range: equal bytes there, at
/// any offset, trim alike.
pub proof fn lemma_trim_start_local(b1: Seq<u8>, lo: int, hi: int, b2: Seq<u8>, d: int)
    requires
        0 <= lo <= hi <= b1.len(),
        0 <= lo + d,
        hi + d <= b2.len(),
        forall|j: int| lo <= j < hi ==> b1[j] == b2[j + d],
    ensures
        trim_start_at(b2, lo + d, hi + d) == trim_start_at(b1, lo, hi) + d,
    decreases hi - lo,
{
    assert(ws_at(b1, lo, hi) == ws_at(b2, lo + d, hi + d)) by {
        if lo < hi {
            assert(b1[lo] == b2[lo + d]);
        }
        if lo + 2 <= hi {
            assert(b1[lo + 1] == b2[lo + 1 + d]);
        }
        if lo + 3 <= hi {
            assert(b1[lo + 2] == b2[lo + 2 + d]);
        }
    }
    if lo < hi && ws_at(b1, lo, hi) > 0 {
        lemma_trim_start_local(b1, lo + ws_at(b1, lo, hi), hi, b2, d);
    }
}

} // verus!
