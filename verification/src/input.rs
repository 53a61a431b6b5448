//! Input contract: decoding, limits, BOM handling, commit-format split, and
//! manifest field extraction. Fail-closed boundary.

use sha2::{Digest, Sha256};
use std::ops::Range;
use vstd::prelude::*;
use crate::config::{AnalysisError, Config, InputFormat, InputRejection};
use crate::text::{blank, boundary, bytes_at, bytes_equal_at, is_blank, is_boundary, no_newline, trim_start_at, ws_at};
use crate::tomlv::TomlValue;
use vstd::utf8::{encode_utf8, valid_utf8};
use vstd::string::StringSliceAdditionalSpecFns;

verus! {

/// Where the line that starts at `start` and is closed by the line feed at
/// `nl` ends: before the line feed, and before a carriage return that
/// directly precedes it inside the line.
pub open spec fn line_end(b: Seq<u8>, start: int, nl: int) -> int {
    if nl > start && b[nl - 1] == 0x0d {
        nl - 1
    } else {
        nl
    }
}

/// `r` is the line that starts at `r.start` and is closed by the line feed
/// at `nl`.
pub open spec fn closed_line(b: Seq<u8>, r: Range<usize>, nl: int) -> bool {
    &&& r.start <= nl < b.len()
    &&& b[nl] == 0x0a
    &&& no_newline(b, r.start as int, nl)
    &&& r.end == line_end(b, r.start as int, nl)
}

/// The lines of `b`: split at each line feed, a carriage return before the
/// line feed dropped, and the text after the last line feed (possibly
/// empty) as the final line.
pub open spec fn is_line_split(b: Seq<u8>, lines: Seq<Range<usize>>) -> bool {
    &&& lines.len() >= 1
    &&& lines[0].start == 0
    &&& forall|k: int|
        0 <= k < lines.len() - 1 ==> closed_line(b, #[trigger] lines[k], lines[k + 1].start - 1)
    &&& lines.last().end == b.len()
    &&& lines.last().start <= b.len()
    &&& no_newline(b, lines.last().start as int, b.len() as int)
}

/// Byte range of each line, excluding the line terminator.
#[verifier::spinoff_prover]
#[verifier::rlimit(30)]
pub fn line_ranges(text: &str) -> (out: Vec<Range<usize>>)
    ensures
        is_line_split(text.spec_bytes(), out@),
{
    let mut out: Vec<Range<usize>> = Vec::new();
    let mut start = 0usize;
    let bytes = text.as_bytes();
    let n = bytes.len();
    let ghost b = bytes@;
    for i in 0..n
        invariant
            n == b.len(),
            b == bytes@,
            start <= i,
            out.len() == 0 ==> start == 0,
            out.len() > 0 ==> out@[0].start == 0,
            out.len() > 0 ==> start >= 1,
            forall|k: int|
                0 <= k < out.len() ==> closed_line(
                    b,
                    #[trigger] out@[k],
                    if k + 1 < out.len() { out@[k + 1].start - 1 } else { start - 1 },
                ),
            no_newline(b, start as int, i as int),
    {
        if bytes[i] == 0x0au8 {
            let mut end = i;
            if end > start && bytes[end - 1] == 0x0du8 {
                end -= 1;
            }
            out.push(start..end);
            start = i + 1;
        }
    }
    out.push(start..n);
    out
}


/// Two line splits of the same bytes agree up to line `k`.
proof fn lemma_line_splits_agree(b: Seq<u8>, l1: Seq<Range<usize>>, l2: Seq<Range<usize>>, k: int)
    requires
        is_line_split(b, l1),
        is_line_split(b, l2),
        0 <= k < l1.len(),
        k < l2.len(),
    ensures
        l1[k].start == l2[k].start,
        k == l1.len() - 1 <==> k == l2.len() - 1,
        l1[k].end == l2[k].end,
    decreases k,
{
    if k > 0 {
        lemma_line_splits_agree(b, l1, l2, k - 1);
        assert(closed_line(b, l1[k - 1], l1[k].start - 1));
        assert(closed_line(b, l2[k - 1], l2[k].start - 1));
        let n1 = l1[k].start - 1;
        let n2 = l2[k].start - 1;
        if n1 < n2 {
            assert(b[n1] == 0x0a);
        } else if n2 < n1 {
            assert(b[n2] == 0x0a);
        }
    }
    let s = l1[k].start as int;
    if k < l1.len() - 1 {
        assert(closed_line(b, l1[k], l1[k + 1].start - 1));
        let n1 = l1[k + 1].start - 1;
        assert(b[n1] == 0x0a);
        if k < l2.len() - 1 {
            assert(closed_line(b, l2[k], l2[k + 1].start - 1));
            let n2 = l2[k + 1].start - 1;
            if n1 < n2 {
                assert(b[n1] == 0x0a);
            } else if n2 < n1 {
                assert(b[n2] == 0x0a);
            }
        }
    } else if k < l2.len() - 1 {
        assert(closed_line(b, l2[k], l2[k + 1].start - 1));
        let n2 = l2[k + 1].start - 1;
        assert(b[n2] == 0x0a);
    }
}

/// The line split of a byte string is unique: `line_ranges` is a function
/// of the text alone.
pub proof fn law_line_split_unique(b: Seq<u8>, l1: Seq<Range<usize>>, l2: Seq<Range<usize>>)
    requires
        is_line_split(b, l1),
        is_line_split(b, l2),
    ensures
        l1 == l2,
{
    lemma_line_splits_agree(b, l1, l2, 0);
    if l1.len() < l2.len() {
        lemma_line_splits_agree(b, l1, l2, l1.len() - 1);
    } else if l2.len() < l1.len() {
        lemma_line_splits_agree(b, l1, l2, l2.len() - 1);
    }
    assert forall|k: int| 0 <= k < l1.len() implies l1[k] == l2[k] by {
        lemma_line_splits_agree(b, l1, l2, k);
    }
    assert(l1 =~= l2);
}

/// A byte that may appear in a trailer key: ASCII letters and digits, `-`
/// and `_`.
pub open spec fn key_byte(c: u8) -> bool {
    (0x30 <= c <= 0x39) || (0x41 <= c <= 0x5a) || (0x61 <= c <= 0x7a) || c == 0x2d || c == 0x5f
}

/// `[lo, hi)` is a `Key: value` trailer line: a non-empty key of key bytes,
/// a colon, and a space right after it.
pub open spec fn trailer_line(b: Seq<u8>, lo: int, hi: int) -> bool {
    exists|c: int| #[trigger] trailer_colon(b, lo, hi, c)
}

/// The colon at `c` ends a non-empty key of `[lo, hi)` and is followed by a
/// space inside the line.
pub open spec fn trailer_colon(b: Seq<u8>, lo: int, hi: int, c: int) -> bool {
    &&& lo < c
    &&& c + 1 < hi
    &&& b[c] == 0x3a
    &&& b[c + 1] == 0x20
    &&& forall|j: int| lo <= j < c ==> #[trigger] key_byte(b[j])
}

fn is_key_byte(c: u8) -> (r: bool)
    ensures
        r == key_byte(c),
{
    (0x30u8 <= c && c <= 0x39u8) || (0x41u8 <= c && c <= 0x5au8) || (0x61u8 <= c && c <= 0x7au8)
        || c == 0x2du8 || c == 0x5fu8
}

fn is_trailer_line(b: &[u8], lo: usize, hi: usize) -> (r: bool)
    requires
        lo <= hi <= b@.len(),
    ensures
        r == trailer_line(b@, lo as int, hi as int),
{
    let mut c = lo;
    while c < hi && b[c] != 0x3au8
        invariant
            lo <= c <= hi <= b@.len(),
            forall|j: int| lo <= j < c ==> b@[j] != 0x3a,
        decreases hi - c,
    {
        c += 1;
    }
    if c == hi || c == lo {
        proof {
            if trailer_line(b@, lo as int, hi as int) {
                let w = choose|w: int| trailer_colon(b@, lo as int, hi as int, w);
                assert(key_byte(b@[lo as int]));
            }
        }
        return false;
    }
    let mut j = lo;
    while j < c
        invariant
            lo <= j <= c < hi <= b@.len(),
            forall|k: int| lo <= k < j ==> #[trigger] key_byte(b@[k]),
            forall|k: int| lo <= k < c ==> b@[k] != 0x3a,
            b@[c as int] == 0x3a,
        decreases c - j,
    {
        if !is_key_byte(b[j]) {
            proof {
                if trailer_line(b@, lo as int, hi as int) {
                    let w = choose|w: int| trailer_colon(b@, lo as int, hi as int, w);
                    if w > c {
                        assert(key_byte(b@[c as int]));
                    }
                    assert(key_byte(b@[j as int]));
                }
            }
            return false;
        }
        j += 1;
    }
    let r = c + 1 < hi && b[c + 1] == 0x20u8;
    proof {
        if r {
            assert(trailer_colon(b@, lo as int, hi as int, c as int));
        } else if trailer_line(b@, lo as int, hi as int) {
            let w = choose|w: int| trailer_colon(b@, lo as int, hi as int, w);
            if w > c {
                assert(key_byte(b@[c as int]));
            }
        }
    }
    r
}

/// A trailer line always holds something other than whitespace.
proof fn lemma_trailer_not_blank(b: Seq<u8>, lo: int, hi: int)
    requires
        0 <= lo <= hi <= b.len(),
        trailer_line(b, lo, hi),
    ensures
        !blank(b, lo, hi),
{
    let w = choose|w: int| trailer_colon(b, lo, hi, w);
    assert(key_byte(b[lo]));
    assert(ws_at(b, lo, hi) == 0);
}

/// Byte ranges of the three parts of a commit message. `trailers` is empty
/// and at the end of the text when the message has no trailer block.
#[derive(Debug)]
pub struct CommitSplit {
    pub subject: Range<usize>,
    pub body: Range<usize>,
    pub trailers: Range<usize>,
}

pub open spec fn line_blank(b: Seq<u8>, r: Range<usize>) -> bool {
    blank(b, r.start as int, r.end as int)
}

pub open spec fn line_is_trailer(b: Seq<u8>, r: Range<usize>) -> bool {
    trailer_line(b, r.start as int, r.end as int)
}

/// Lines `[i, ..)` stripped of the trailing run of blank lines; the subject
/// line (line 0) is never stripped.
pub open spec fn content_end(b: Seq<u8>, lines: Seq<Range<usize>>, i: int) -> int
    decreases i,
{
    if i > 1 && line_blank(b, lines[i - 1]) {
        content_end(b, lines, i - 1)
    } else {
        i
    }
}

/// First line of the run of trailer lines that ends at line `i`, never
/// reaching the subject line.
pub open spec fn trailer_run_start(b: Seq<u8>, lines: Seq<Range<usize>>, i: int) -> int
    decreases i,
{
    if i > 1 && line_is_trailer(b, lines[i - 1]) {
        trailer_run_start(b, lines, i - 1)
    } else {
        i
    }
}

/// Index of the first line of the trailing run of `Key: value` lines that
/// closes the message once trailing blank lines are set aside, or the
/// number of lines when there is no such run.
pub open spec fn trailer_run_first(b: Seq<u8>, lines: Seq<Range<usize>>) -> int {
    let k = content_end(b, lines, lines.len() as int);
    let t = trailer_run_start(b, lines, k);
    if t < k {
        t
    } else {
        lines.len() as int
    }
}

/// Index of the first trailer line: the closing run of `Key: value` lines
/// when a blank line separates it from the body or it is the whole tail
/// after the subject; otherwise the number of lines (no trailer block).
pub open spec fn trailer_first(b: Seq<u8>, lines: Seq<Range<usize>>) -> int {
    let t = trailer_run_first(b, lines);
    if t < lines.len() && (t == 1 || (t > 1 && line_blank(b, lines[t - 1]))) {
        t
    } else {
        lines.len() as int
    }
}

/// The split of a commit message with lines `lines`.
pub open spec fn commit_split_of(b: Seq<u8>, lines: Seq<Range<usize>>) -> CommitSplit {
    let n = b.len() as usize;
    let b_start = if lines.len() > 1 {
        lines[1].start
    } else {
        n
    };
    let tf = trailer_first(b, lines);
    if tf < lines.len() {
        let t_start = lines[tf].start;
        CommitSplit {
            subject: lines[0],
            body: Range { start: b_start, end: if t_start < n { t_start } else { n } },
            trailers: Range { start: t_start, end: n },
        }
    } else {
        CommitSplit {
            subject: lines[0],
            body: Range { start: b_start, end: n },
            trailers: Range { start: n, end: n },
        }
    }
}

/// Splits a commit message into subject, body, and trailer block.
pub fn split_commit(text: &str) -> (split: CommitSplit)
    ensures
        forall|lines: Seq<Range<usize>>|
            is_line_split(text.spec_bytes(), lines) ==> split == commit_split_of(
                text.spec_bytes(),
                lines,
            ),
        split.subject.start == 0,
        split.subject.end <= split.body.start,
        split.body.start <= split.body.end,
        split.body.end == split.trailers.start,
        split.trailers.start <= split.trailers.end,
        split.trailers.end == text.spec_bytes().len(),
{
    let lines = line_ranges(text);
    let bytes = text.as_bytes();
    let ghost b = bytes@;
    let n = lines.len();
    let mut trailer_first = n;
    let mut i = n;
    while i > 1
        invariant
            b == bytes@,
            is_line_split(b, lines@),
            n == lines@.len(),
            1 <= i <= n,
            trailer_first == n ==> content_end(b, lines@, n as int) == content_end(
                b,
                lines@,
                i as int,
            ),
            trailer_first < n ==> {
                &&& trailer_first == i
                &&& i < content_end(b, lines@, n as int)
                &&& trailer_run_start(b, lines@, content_end(b, lines@, n as int))
                    == trailer_run_start(b, lines@, i as int)
            },
            trailer_first <= n,
        ensures
            trailer_first == trailer_run_first(b, lines@),
            trailer_first < n ==> trailer_first >= 1,
        decreases i,
    {
        assert(lines@[i - 1].start <= lines@[i - 1].end <= b.len()) by {
            if i - 1 < n - 1 {
                assert(closed_line(b, lines@[i - 1], lines@[i as int].start - 1));
            }
        }
        let lo = lines[i - 1].start;
        let hi = lines[i - 1].end;
        if is_blank(bytes, lo, hi) {
            if trailer_first < n {
                proof {
                    if line_is_trailer(b, lines@[i - 1]) {
                        lemma_trailer_not_blank(b, lo as int, hi as int);
                    }
                }
                break;
            }
            i -= 1;
            continue;
        }
        if is_trailer_line(bytes, lo, hi) {
            trailer_first = i - 1;
            i -= 1;
        } else {
            break;
        }
    }
    // The run is a trailer block only when a blank line separates it from
    // the body or it is the whole tail after the subject.
    if trailer_first < n && trailer_first > 1 {
        let p = trailer_first - 1;
        assert(lines@[p as int].start <= lines@[p as int].end <= b.len()) by {
            assert(closed_line(b, lines@[p as int], lines@[p + 1].start - 1));
        }
        if !is_blank(bytes, lines[p].start, lines[p].end) {
            trailer_first = n;
        }
    }
    assert(trailer_first == crate::input::trailer_first(b, lines@));
    let len = bytes.len();
    let b_start = if n > 1 {
        lines[1].start
    } else {
        len
    };
    assert(b_start <= len) by {
        if n > 1 {
            if 1 < n - 1 {
                assert(closed_line(b, lines@[1], lines@[2].start - 1));
            }
        }
    }
    assert(lines@[0].end <= b_start) by {
        if n > 1 {
            assert(closed_line(b, lines@[0], lines@[1].start - 1));
        }
    }
    let split = if trailer_first < n {
        let t_start = lines[trailer_first].start;
        assert(b_start <= t_start <= len) by {
            if trailer_first < n - 1 {
                assert(closed_line(b, lines@[trailer_first as int], lines@[trailer_first + 1].start - 1));
            }
            if trailer_first > 1 {
                assert(closed_line(b, lines@[1], lines@[2].start - 1));
                assert(lines@[1].start <= lines@[trailer_first as int].start) by {
                    lemma_line_starts_increase(b, lines@, 1, trailer_first as int);
                }
            }
        }
        CommitSplit {
            subject: lines[0].start..lines[0].end,
            body: b_start..(if t_start < len { t_start } else { len }),
            trailers: t_start..len,
        }
    } else {
        CommitSplit { subject: lines[0].start..lines[0].end, body: b_start..len, trailers: len..len }
    };
    proof {
        assert forall|ls: Seq<Range<usize>>| is_line_split(b, ls) implies split == commit_split_of(
            b,
            ls,
        ) by {
            law_line_split_unique(b, ls, lines@);
        }
    }
    split
}

/// Line starts grow with the line index.
proof fn lemma_line_starts_increase(b: Seq<u8>, lines: Seq<Range<usize>>, i: int, j: int)
    requires
        is_line_split(b, lines),
        0 <= i <= j < lines.len(),
    ensures
        lines[i].start <= lines[j].start,
    decreases j - i,
{
    if i < j {
        assert(closed_line(b, lines[j - 1], lines[j].start - 1));
        lemma_line_starts_increase(b, lines, i, j - 1);
    }
}


/// The SHA-256 digest of `data`.
pub uninterp spec fn sha256_digest(data: Seq<u8>) -> Seq<u8>;

/// Computes the SHA-256 digest with `sha2::Sha256::digest`; the contract
/// claims the result is the 32-byte digest of exactly `data`.
#[verifier::external_body]
pub(crate) fn sha256(data: &[u8]) -> (d: Vec<u8>)
    ensures
        d@ == sha256_digest(data@),
        d@.len() == 32,
{
    Sha256::digest(data).to_vec()
}

/// Lower-case hexadecimal digit for a nibble.
pub open spec fn hex_digit(n: u8) -> char {
    if n < 10 {
        (48 + n) as char
    } else {
        (87 + n) as char
    }
}

/// Lower-case hexadecimal text of `d`, two digits per byte, high nibble first.
pub open spec fn hex_lower(d: Seq<u8>) -> Seq<char>
    decreases d.len(),
{
    if d.len() == 0 {
        seq![]
    } else {
        hex_lower(d.drop_last()) + seq![hex_digit(d.last() / 16), hex_digit(d.last() % 16)]
    }
}

fn hex_digit_char(n: u8) -> (c: char)
    requires
        n < 16,
    ensures
        c == hex_digit(n),
{
    if n < 10 {
        (48u8 + n) as char
    } else {
        (87u8 + n) as char
    }
}

/// Appends one character, with `String::push`.
#[verifier::external_body]
pub(crate) fn push_char(s: &mut String, c: char)
    ensures
        final(s)@ == old(s)@.push(c),
{
    s.push(c)
}

/// Appends the lower-case hexadecimal text of `d`.
pub fn push_hex_lower(s: &mut String, d: &[u8])
    ensures
        final(s)@ == old(s)@ + hex_lower(d@),
{
    for i in 0..d.len()
        invariant
            s@ == old(s)@ + hex_lower(d@.take(i as int)),
    {
        let x = d[i];
        push_char(s, hex_digit_char(x / 16));
        push_char(s, hex_digit_char(x % 16));
        assert(d@.take(i + 1).drop_last() =~= d@.take(i as int));
    }
    assert(d@.take(d@.len() as int) =~= d@);
}

/// Lower-case hexadecimal text of `d`.
pub fn to_hex_lower(d: &[u8]) -> (s: String)
    ensures
        s@ == hex_lower(d@),
{
    let mut s = String::new();
    push_hex_lower(&mut s, d);
    assert(s@ =~= hex_lower(d@));
    s
}

/// Lower-case hexadecimal SHA-256 of `bytes`.
pub fn sha256_hex(bytes: &[u8]) -> (s: String)
    ensures
        s@ == hex_lower(sha256_digest(bytes@)),
        s@.len() == 64,
{
    let d = sha256(bytes);
    let s = to_hex_lower(d.as_slice());
    proof {
        lemma_hex_len(d@);
    }
    s
}

pub proof fn lemma_hex_len(d: Seq<u8>)
    ensures
        hex_lower(d).len() == 2 * d.len(),
    decreases d.len(),
{
    if d.len() > 0 {
        lemma_hex_len(d.drop_last());
    }
}


/// A value with the byte span it was parsed from.
#[derive(Debug)]
pub struct Spanned<T> {
    pub value: T,
    pub start: usize,
    pub end: usize,
}

/// The `[package]` fields a manifest check reads, as the TOML parser gives
/// them.
#[derive(Debug)]
pub struct PackageTable {
    pub name: Option<String>,
    pub version: Option<TomlValue>,
    pub description: Option<Spanned<String>>,
    pub keywords: Option<Spanned<Vec<String>>>,
    pub categories: Option<Spanned<Vec<String>>>,
}

/// A parsed manifest: its `[package]` table when there is one.
#[derive(Debug)]
pub struct ManifestDoc {
    pub package: Option<PackageTable>,
}

/// What the cargo-metadata checks read from a manifest.
#[derive(Debug)]
pub struct ManifestInfo {
    pub name: Option<String>,
    pub description: Option<String>,
    pub description_span: Option<Range<usize>>,
    /// Set when the description bytes in source equal the parsed value, so
    /// offsets can point inside the string literal.
    pub description_inner: Option<Range<usize>>,
    pub keywords: Option<(usize, Range<usize>)>,
    pub categories: Option<(usize, Range<usize>)>,
    pub version: Option<String>,
}

/// The inside of the description's string literal, when the bytes between
/// its quotes are exactly the parsed value and sit on character boundaries.
pub open spec fn inner_span(b: Seq<u8>, d: Spanned<String>) -> Option<Range<usize>> {
    if d.start < usize::MAX && d.end >= 1 && d.start + 1 <= d.end - 1 && d.end - 1 <= b.len()
        && boundary(b, d.start + 1) && boundary(b, d.end - 1) && bytes_at(
        b,
        d.start + 1,
        d.end - 1,
        encode_utf8(d.value@),
    ) {
        Some(Range { start: (d.start + 1) as usize, end: (d.end - 1) as usize })
    } else {
        None
    }
}

/// The string a TOML value holds, when it is a string.
pub open spec fn toml_string(v: Option<TomlValue>) -> Option<String> {
    match v {
        Some(TomlValue::String(s)) => Some(s),
        _ => None,
    }
}

/// What a manifest with text bytes `b` that parsed as `parsed` yields.
pub open spec fn manifest_outcome(b: Seq<u8>, parsed: Result<ManifestDoc, String>) -> Result<
    ManifestInfo,
    AnalysisError,
> {
    match parsed {
        Err(e) => Err(AnalysisError::UnsupportedInput(InputRejection::ManifestParse(e))),
        Ok(doc) => match doc.package {
            None => Err(AnalysisError::UnsupportedInput(InputRejection::NoPackageTable)),
            Some(pkg) => Ok(
                ManifestInfo {
                    name: pkg.name,
                    version: toml_string(pkg.version),
                    description: match pkg.description {
                        Some(d) => Some(d.value),
                        None => None,
                    },
                    description_span: match pkg.description {
                        Some(d) => Some(Range { start: d.start, end: d.end }),
                        None => None,
                    },
                    description_inner: match pkg.description {
                        Some(d) => inner_span(b, d),
                        None => None,
                    },
                    keywords: match pkg.keywords {
                        Some(k) => Some((k.value@.len() as usize, Range { start: k.start, end: k.end })),
                        None => None,
                    },
                    categories: match pkg.categories {
                        Some(k) => Some((k.value@.len() as usize, Range { start: k.start, end: k.end })),
                        None => None,
                    },
                },
            ),
        },
    }
}

fn description_inner(b: &[u8], d: &Spanned<String>) -> (r: Option<Range<usize>>)
    ensures
        r == inner_span(b@, *d),
{
    if d.start < usize::MAX && d.end >= 1 {
        let lo = d.start + 1;
        let hi = d.end - 1;
        if lo <= hi && hi <= b.len() && is_boundary(b, lo) && is_boundary(b, hi)
            && bytes_equal_at(b, lo, hi, d.value.as_str().as_bytes()) {
            return Some(lo..hi);
        }
    }
    None
}

/// Reads the manifest fields the cargo-metadata checks need from a parsed
/// manifest whose text is `text`.
pub fn parse_manifest(text: &str, parsed: Result<ManifestDoc, String>) -> (r: Result<
    ManifestInfo,
    AnalysisError,
>)
    ensures
        r == manifest_outcome(text.spec_bytes(), parsed),
{
    let doc = match parsed {
        Err(e) => {
            return Err(AnalysisError::UnsupportedInput(InputRejection::ManifestParse(e)));
        },
        Ok(doc) => doc,
    };
    let pkg = match doc.package {
        None => {
            return Err(AnalysisError::UnsupportedInput(InputRejection::NoPackageTable));
        },
        Some(pkg) => pkg,
    };
    let b = text.as_bytes();
    let version = match pkg.version {
        Some(TomlValue::String(s)) => Some(s),
        _ => None,
    };
    let (description, description_span, description_inner) = match pkg.description {
        Some(d) => {
            let inner = description_inner(b, &d);
            let span = d.start..d.end;
            (Some(d.value), Some(span), inner)
        },
        None => (None, None, None),
    };
    let keywords = match pkg.keywords {
        Some(k) => Some((k.value.len(), k.start..k.end)),
        None => None,
    };
    let categories = match pkg.categories {
        Some(k) => Some((k.value.len(), k.start..k.end)),
        None => None,
    };
    Ok(
        ManifestInfo {
            name: pkg.name,
            description,
            description_span,
            description_inner,
            keywords,
            categories,
            version,
        },
    )
}


/// The format-specific data of a prepared input.
#[derive(Debug)]
pub enum FormatData {
    Markdown,
    Text,
    Commit(CommitSplit),
    Manifest(ManifestInfo),
}

/// An input accepted for analysis.
#[derive(Debug)]
pub struct Prepared {
    /// sha256 over the original bytes as received (pre BOM strip).
    pub sha256: String,
    pub original_len: usize,
    pub bom_stripped: bool,
    pub mixed_line_endings: bool,
    /// The post-BOM-strip payload every offset indexes.
    pub text: String,
    pub format: FormatData,
}

/// The input opens with the UTF-8 byte order mark EF BB BF.
pub open spec fn has_bom(b: Seq<u8>) -> bool {
    b.len() >= 3 && b[0] == 0xef && b[1] == 0xbb && b[2] == 0xbf
}

/// The payload: the input without a leading byte order mark.
pub open spec fn strip_bom(b: Seq<u8>) -> Seq<u8> {
    if has_bom(b) {
        b.skip(3)
    } else {
        b
    }
}

pub open spec fn crlf_at(b: Seq<u8>, i: int) -> bool {
    0 <= i && i + 1 < b.len() && b[i] == 0x0d && b[i + 1] == 0x0a
}

pub open spec fn bare_lf_at(b: Seq<u8>, i: int) -> bool {
    0 <= i < b.len() && b[i] == 0x0a && (i == 0 || b[i - 1] != 0x0d)
}

/// The text uses CRLF somewhere and a bare LF somewhere else.
pub open spec fn mixed_endings(b: Seq<u8>) -> bool {
    (exists|i: int| #[trigger] crlf_at(b, i)) && (exists|i: int| #[trigger] bare_lf_at(b, i))
}

/// `n` is how far the bytes are valid UTF-8: the longest valid prefix.
pub open spec fn utf8_valid_up_to(b: Seq<u8>, n: int) -> bool {
    &&& 0 <= n < b.len()
    &&& valid_utf8(b.take(n))
    &&& forall|m: int| n < m <= b.len() ==> !valid_utf8(#[trigger] b.take(m))
}

/// Decodes UTF-8 with `std::str::from_utf8`. The contract claims: the
/// decoded text when the bytes are valid UTF-8 (its bytes are the input),
/// and otherwise `Utf8Error::valid_up_to`, the end of the longest valid
/// prefix, as the documentation of that method defines it.
#[verifier::external_body]
fn decode_utf8(bytes: &[u8]) -> (r: Result<&str, usize>)
    ensures
        r is Ok <==> valid_utf8(bytes@),
        r matches Ok(s) ==> s.spec_bytes() == bytes@,
        r matches Err(n) ==> utf8_valid_up_to(bytes@, n as int),
{
    match std::str::from_utf8(bytes) {
        Ok(s) => Ok(s),
        Err(e) => Err(e.valid_up_to()),
    }
}

fn scan_line_endings(b: &[u8]) -> (r: bool)
    ensures
        r == mixed_endings(b@),
{
    let mut crlf = false;
    let mut bare = false;
    let n = b.len();
    for i in 0..n
        invariant
            n == b@.len(),
            crlf <==> exists|j: int| #[trigger] crlf_at(b@, j) && j + 1 < i,
            bare <==> exists|j: int| #[trigger] bare_lf_at(b@, j) && j < i,
    {
        if b[i] == 0x0au8 {
            if i > 0 && b[i - 1] == 0x0du8 {
                crlf = true;
                assert(crlf_at(b@, i - 1));
            } else {
                bare = true;
                assert(bare_lf_at(b@, i as int));
            }
        }
        proof {
            if crlf {
                let j = choose|j: int| #[trigger] crlf_at(b@, j) && j + 1 < i + 1;
                assert(crlf_at(b@, j) && j + 1 < i + 1);
            }
            assert forall|j: int| #[trigger] crlf_at(b@, j) && j + 1 < i + 1 implies crlf by {
                if j + 1 == i {
                } else {
                    assert(crlf_at(b@, j) && j + 1 < i);
                }
            }
            assert forall|j: int| #[trigger] bare_lf_at(b@, j) && j < i + 1 implies bare by {
                if j == i {
                } else {
                    assert(bare_lf_at(b@, j) && j < i);
                }
            }
        }
    }
    proof {
        if exists|j: int| #[trigger] crlf_at(b@, j) {
            let j = choose|j: int| #[trigger] crlf_at(b@, j);
            assert(crlf_at(b@, j) && j + 1 < n);
        }
        if exists|j: int| #[trigger] bare_lf_at(b@, j) {
            let j = choose|j: int| #[trigger] bare_lf_at(b@, j);
            assert(bare_lf_at(b@, j) && j < n);
        }
    }
    crlf && bare
}

/// The format data for text bytes `b` under `format`, given what the
/// manifest parser returned when the format is a manifest.
pub open spec fn format_outcome(
    b: Seq<u8>,
    format: InputFormat,
    parsed: Result<ManifestDoc, String>,
) -> Result<FormatData, AnalysisError> {
    match format {
        InputFormat::Markdown => Ok(FormatData::Markdown),
        InputFormat::Text => Ok(FormatData::Text),
        InputFormat::Commit => Ok(
            FormatData::Commit(
                commit_split_of(b, lines_from(b, 0, 0)),
            ),
        ),
        InputFormat::Manifest => match manifest_outcome(b, parsed) {
            Ok(info) => Ok(FormatData::Manifest(info)),
            Err(e) => Err(e),
        },
    }
}

/// The format data in `r` is what `format_outcome` gives for payload `b`
/// when the manifest parser returned `parsed` on that payload.
pub open spec fn format_result<P: Fn(&str) -> Result<ManifestDoc, String>>(
    b: Seq<u8>,
    format: InputFormat,
    parse: P,
    parsed: Result<ManifestDoc, String>,
    r: Result<Prepared, AnalysisError>,
) -> bool {
    &&& format == InputFormat::Manifest ==> exists|t: &str|
        t.spec_bytes() == b && #[trigger] parse.ensures((t,), parsed)
    &&& match format_outcome(b, format, parsed) {
        Ok(f) => r matches Ok(p) && p.format == f,
        Err(e) => r == Err::<Prepared, AnalysisError>(e),
    }
}

/// Checks the input against the limits, hashes it, strips a byte order
/// mark, decodes UTF-8, notes mixed line endings, and reads the
/// format-specific structure. `parse_manifest_toml` parses manifest text
/// as TOML; it is called once, on the decoded text, and only for the
/// manifest format.
pub fn prepare<P>(input: &[u8], config: &Config, parse_manifest_toml: P) -> (r: Result<
    Prepared,
    AnalysisError,
>) where P: Fn(&str) -> Result<ManifestDoc, String>
    requires
        forall|t: &str| #[trigger] parse_manifest_toml.requires((t,)),
    ensures
        input@.len() > config.limits.max_bytes ==> r == Err::<Prepared, AnalysisError>(
            AnalysisError::UnsupportedInput(
                InputRejection::TooLarge { len: input@.len() as usize, limit: config.limits.max_bytes },
            ),
        ),
        input@.len() <= config.limits.max_bytes && !valid_utf8(strip_bom(input@)) ==> exists|
            n: usize,
        |
            utf8_valid_up_to(strip_bom(input@), n as int) && r == Err::<Prepared, AnalysisError>(
                AnalysisError::UnsupportedInput(InputRejection::InvalidUtf8 { valid_up_to: n }),
            ),
        input@.len() <= config.limits.max_bytes && valid_utf8(strip_bom(input@))
            && config.input_format != InputFormat::Manifest ==> r is Ok,
        r matches Ok(p) ==> {
            &&& input@.len() <= config.limits.max_bytes
            &&& p.sha256@ == hex_lower(sha256_digest(input@))
            &&& p.original_len == input@.len()
            &&& p.bom_stripped == has_bom(input@)
            &&& encode_utf8(p.text@) == strip_bom(input@)
            &&& p.mixed_line_endings == mixed_endings(strip_bom(input@))
        },
        input@.len() <= config.limits.max_bytes && valid_utf8(strip_bom(input@)) ==> exists|
            parsed: Result<ManifestDoc, String>,
        |
            #[trigger] format_result(
                strip_bom(input@),
                config.input_format,
                parse_manifest_toml,
                parsed,
                r,
            ),
{
    if input.len() > config.limits.max_bytes {
        return Err(
            AnalysisError::UnsupportedInput(
                InputRejection::TooLarge { len: input.len(), limit: config.limits.max_bytes },
            ),
        );
    }
    let sha256 = sha256_hex(input);
    let bom = input.len() >= 3 && input[0] == 0xefu8 && input[1] == 0xbbu8 && input[2] == 0xbfu8;
    let payload = if bom {
        vstd::slice::slice_subrange(input, 3, input.len())
    } else {
        input
    };
    assert(payload@ =~= strip_bom(input@));
    let decoded = match decode_utf8(payload) {
        Ok(s) => s,
        Err(n) => {
            return Err(
                AnalysisError::UnsupportedInput(InputRejection::InvalidUtf8 { valid_up_to: n }),
            );
        },
    };
    let text = decoded.to_owned();
    let mixed_line_endings = scan_line_endings(payload);
    let ghost mut parsed_seen: Result<ManifestDoc, String> = vstd::pervasive::arbitrary();
    let format = match config.input_format {
        InputFormat::Markdown => Ok(FormatData::Markdown),
        InputFormat::Text => Ok(FormatData::Text),
        InputFormat::Commit => {
            let split = split_commit(decoded);
            proof {
                lemma_line_split_exists(payload@);
            }
            Ok(FormatData::Commit(split))
        },
        InputFormat::Manifest => {
            let parsed = parse_manifest_toml(decoded);
            proof {
                parsed_seen = parsed;
            }
            match parse_manifest(decoded, parsed) {
                Ok(info) => Ok(FormatData::Manifest(info)),
                Err(e) => Err(e),
            }
        },
    };
    let r = match format {
        Ok(format) => Ok(
            Prepared {
                sha256,
                original_len: input.len(),
                bom_stripped: bom,
                mixed_line_endings,
                text,
                format,
            },
        ),
        Err(e) => Err(e),
    };
    assert(format_result(payload@, config.input_format, parse_manifest_toml, parsed_seen, r));
    r
}

/// The lines of `b` from byte `i` on, the current line having started at
/// `start`.
pub open spec fn lines_from(b: Seq<u8>, start: int, i: int) -> Seq<Range<usize>>
    decreases b.len() - i,
{
    if i >= b.len() {
        seq![Range { start: start as usize, end: b.len() as usize }]
    } else if b[i] == 0x0a {
        seq![Range { start: start as usize, end: line_end(b, start, i) as usize }] + lines_from(
            b,
            i + 1,
            i + 1,
        )
    } else {
        lines_from(b, start, i + 1)
    }
}

/// A line split of the bytes from `s0` on.
pub open spec fn is_split_from(b: Seq<u8>, s0: int, lines: Seq<Range<usize>>) -> bool {
    &&& lines.len() >= 1
    &&& lines[0].start == s0
    &&& forall|k: int|
        0 <= k < lines.len() - 1 ==> closed_line(b, #[trigger] lines[k], lines[k + 1].start - 1)
    &&& lines.last().end == b.len()
    &&& lines.last().start <= b.len()
    &&& no_newline(b, lines.last().start as int, b.len() as int)
}

proof fn lemma_lines_from(b: Seq<u8>, start: int, i: int)
    requires
        0 <= start <= i <= b.len(),
        b.len() <= usize::MAX,
        no_newline(b, start, i),
    ensures
        is_split_from(b, start, lines_from(b, start, i)),
    decreases b.len() - i,
{
    if i >= b.len() {
    } else if b[i] == 0x0a {
        lemma_lines_from(b, i + 1, i + 1);
        let rest = lines_from(b, i + 1, i + 1);
        let first = Range { start: start as usize, end: line_end(b, start, i) as usize };
        let all = seq![first] + rest;
        assert(all == lines_from(b, start, i));
        assert forall|k: int| 0 <= k < all.len() - 1 implies closed_line(
            b,
            #[trigger] all[k],
            all[k + 1].start - 1,
        ) by {
            if k > 0 {
                assert(all[k] == rest[k - 1]);
                assert(all[k + 1] == rest[k]);
                assert(closed_line(b, rest[k - 1], rest[k].start - 1));
            }
        }
        assert(all.last() == rest.last());
    } else {
        lemma_lines_from(b, start, i + 1);
    }
}

/// Every byte string has a line split.
pub proof fn lemma_line_split_exists(b: Seq<u8>)
    requires
        b.len() <= usize::MAX,
    ensures
        is_line_split(b, lines_from(b, 0, 0)),
{
    lemma_lines_from(b, 0, 0);
}

} // verus!
