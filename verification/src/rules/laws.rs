//! What the emphasis and profile-contract rules find, stated over the
//! bytes they read: which inputs give a hit, where it points, and how the
//! hits for several items combine.

use std::ops::Range;
use vstd::prelude::*;
use vstd::utf8::encode_utf8;
use crate::engine::Hit;
use crate::extract::{Doc, Heading};
use crate::rules::profile_contract::{trimmed_lines, k003_hits, param_strings, char_uppercase, suffix_ing, suffix_s, suffix_ss, has_line, k004_hits, content_lines, k006_hits, k002_hits, k003_heading, k003_headings, conv_prefix, suffix_ed};
use crate::text::{lemma_trim_start_local, lemma_trim_start_bounds, lemma_trim_end_bounds, trim_end_at, ws_before, code_at, lower, word_end, ws_at, trim_start_at, ends_with};
use crate::config::Config;
use crate::engine::CompiledPolicy;
use crate::input::{line_end, lines_from, CommitSplit, FormatData, ManifestInfo};
use crate::rules::{active_rule, param_int};
use crate::rules::emphasis::{next_boundary, e001_hits, emph_word, follows, staged_hits, standalone_at, window_stop};

verus! {

/// The bytes with ASCII capitals turned into small letters.
pub open spec fn ascii_lowered(b: Seq<u8>) -> Seq<u8> {
    Seq::new(b.len(), |i: int| if 0x41 <= b[i] <= 0x5a { (b[i] + 32) as u8 } else { b[i] })
}

/// An ASCII decimal digit.
pub open spec fn is_ascii_digit(c: u8) -> bool {
    0x30 <= c <= 0x39
}

/// `dddd-dd-dd` starts at byte `i` of `s`.
pub open spec fn iso_date_starts(s: Seq<u8>, i: int) -> bool {
    &&& 0 <= i && i + 10 <= s.len()
    &&& is_ascii_digit(s[i]) && is_ascii_digit(s[i + 1]) && is_ascii_digit(s[i + 2])
        && is_ascii_digit(s[i + 3])
    &&& s[i + 4] == 0x2d
    &&& is_ascii_digit(s[i + 5]) && is_ascii_digit(s[i + 6])
    &&& s[i + 7] == 0x2d
    &&& is_ascii_digit(s[i + 8]) && is_ascii_digit(s[i + 9])
}

/// A hit of `rule` on `[start, end)` with no forced reporting.
pub open spec fn hit_on(rule: usize, start: usize, end: usize) -> Hit {
    Hit { rule, span: Range { start, end }, force_candidate: false, force_hint: false }
}

proof fn lemma_lowered_is_lower(b: Seq<u8>)
    ensures
        lower(b) == ascii_lowered(b),
{
    assert(lower(b) =~= ascii_lowered(b));
}

/// SLOP-K003 on one changelog heading. A heading below level 2, or whose
/// lowercased text is a whitelisted section name, is accepted. Any other
/// heading that holds an ASCII digit and one of `.`, `v`, `[` is a release
/// heading: accepted when it carries a `dddd-dd-dd` date, flagged on its
/// text otherwise. Every other heading is an unknown section, flagged on
/// its text.
pub proof fn law_k003_heading(h: Heading, idx: usize, wl: Seq<Seq<char>>)
    ensures
        ({
            let name = ascii_lowered(encode_utf8(h.text@));
            let flagged = seq![hit_on(idx, h.text_range.start, h.text_range.end)];
            let whitelisted = exists|k: int| 0 <= k < wl.len() && encode_utf8(#[trigger] wl[k]) == name;
            let release = (exists|i: int| 0 <= i < name.len() && is_ascii_digit(#[trigger] name[i])) && (
            exists|i: int|
                0 <= i < name.len() && (#[trigger] name[i] == 0x2e || name[i] == 0x76 || name[i]
                    == 0x5b));
            let dated = exists|i: int| #[trigger] iso_date_starts(name, i);
            &&& (h.level < 2 || whitelisted) ==> k003_heading(h, idx, wl) == Seq::<Hit>::empty()
            &&& (h.level >= 2 && !whitelisted && release && dated) ==> k003_heading(h, idx, wl)
                == Seq::<Hit>::empty()
            &&& (h.level >= 2 && !whitelisted && release && !dated) ==> k003_heading(h, idx, wl)
                == flagged
            &&& (h.level >= 2 && !whitelisted && !release) ==> k003_heading(h, idx, wl) == flagged
        }),
{
    let name = ascii_lowered(encode_utf8(h.text@));
    lemma_lowered_is_lower(encode_utf8(h.text@));
    if exists|i: int| #[trigger] iso_date_starts(name, i) {
        let i = choose|i: int| #[trigger] iso_date_starts(name, i);
        assert(crate::rules::profile_contract::iso_date_at(name, i));
    }
    if exists|i: int| #[trigger] crate::rules::profile_contract::iso_date_at(name, i) {
        let i = choose|i: int| #[trigger] crate::rules::profile_contract::iso_date_at(name, i);
        assert(iso_date_starts(name, i));
    }
}

/// The SLOP-K003 hits of a heading list are those of its headings, in
/// order: appending a heading appends its hits.
pub proof fn law_k003_headings_append(hs: Seq<Heading>, h: Heading, idx: usize, wl: Seq<Seq<char>>)
    ensures
        k003_headings(hs.push(h), idx, wl) == k003_headings(hs, idx, wl) + k003_heading(h, idx, wl),
        k003_headings(Seq::<Heading>::empty(), idx, wl) == Seq::<Hit>::empty(),
{
    assert(hs.push(h).drop_last() =~= hs);
}

/// A byte that is ASCII but not ASCII whitespace.
pub open spec fn ascii_word_byte(c: u8) -> bool {
    c < 0x80 && !(0x09 <= c <= 0x0d) && c != 0x20
}

proof fn lemma_word_run(b: Seq<u8>, i: int, e: int)
    requires
        0 <= i <= e <= b.len(),
        forall|j: int| i <= j < e ==> ascii_word_byte(#[trigger] b[j]),
        e == b.len() || (0x09 <= b[e] <= 0x0d) || b[e] == 0x20,
    ensures
        word_end(b, i, b.len() as int) == e,
    decreases e - i,
{
    if i < e {
        assert(ascii_word_byte(b[i]));
        assert(ws_at(b, i, b.len() as int) == 0);
        lemma_word_run(b, i + 1, e);
    } else if i < b.len() {
        assert(ws_at(b, i, b.len() as int) == 1);
    }
}

/// SLOP-K002 on a commit subject `[lo, hi)` with a conventional prefix
/// ending at `r`, whose first word after it is an ASCII word of `m` bytes.
/// The word is flagged as a candidate, on `[lo + r, lo + r + m)`, exactly
/// when it opens with an uppercase letter or, ASCII-lowercased, ends in
/// `ed`, in `ing` with more than four bytes, or in a single `s` with more
/// than three bytes; that finding comes last. Otherwise no candidate is
/// reported.
pub proof fn law_k002_first_word(
    cp: CompiledPolicy,
    config: Config,
    split: CommitSplit,
    b: Seq<u8>,
    idx: usize,
    r: int,
    m: int,
)
    requires
        active_rule(cp.pkg, config.profile, "SLOP-K002"@) == Some(idx),
        split.subject.start <= split.subject.end <= b.len(),
        conv_prefix(b.subrange(split.subject.start as int, split.subject.end as int)) == Some(r),
        m >= 1,
        ({
            let sb = b.subrange(split.subject.start as int, split.subject.end as int);
            &&& 0 <= r && r + m <= sb.len()
            &&& forall|j: int| r <= j < r + m ==> ascii_word_byte(#[trigger] sb[j])
            &&& r + m == sb.len() || (0x09 <= sb[r + m] <= 0x0d) || sb[r + m] == 0x20
        }),
    ensures
        ({
            let sb = b.subrange(split.subject.start as int, split.subject.end as int);
            let l = ascii_lowered(sb.subrange(r, r + m));
            let past = m >= 2 && l[m - 2] == 0x65 && l[m - 1] == 0x64;
            let progressive = m > 4 && l[m - 3] == 0x69 && l[m - 2] == 0x6e && l[m - 1] == 0x67;
            let third_person = m > 3 && l[m - 1] == 0x73 && l[m - 2] != 0x73;
            let upper = char_uppercase(sb[r] as char);
            let hs = k002_hits(cp, config, FormatData::Commit(split), b);
            let s = split.subject.start + r;
            &&& (past || progressive || third_person || upper) ==> hs.len() > 0 && hs.last() == Hit {
                rule: idx,
                span: Range { start: s as usize, end: (s + m) as usize },
                force_candidate: true,
                force_hint: false,
            }
            &&& !(past || progressive || third_person || upper) ==> forall|j: int|
                0 <= j < hs.len() ==> !(#[trigger] hs[j]).force_candidate
        }),
{
    reveal(k002_hits);
    let lo = split.subject.start;
    let hi = split.subject.end;
    let sb = b.subrange(lo as int, hi as int);
    assert(ascii_word_byte(sb[r]));
    assert(ws_at(sb, r, sb.len() as int) == 0);
    assert(trim_start_at(sb, r, sb.len() as int) == r);
    lemma_word_run(sb, r, r + m);
    let w = sb.subrange(r, r + m);
    let l = lower(w);
    lemma_lowered_is_lower(w);
    assert(code_at(w, 0, w.len() as int) == Some(sb[r] as u32));
    if m >= 2 {
        assert(ends_with(l, suffix_ed()) <==> (l[m - 2] == 0x65 && l[m - 1] == 0x64)) by {
            if l[m - 2] == 0x65 && l[m - 1] == 0x64 {
                assert(l.subrange(m - 2, m) =~= suffix_ed());
            }
            if ends_with(l, suffix_ed()) {
                assert(l.subrange(m - 2, m)[0] == l[m - 2]);
                assert(l.subrange(m - 2, m)[1] == l[m - 1]);
            }
        }
        assert(ends_with(l, suffix_ss()) <==> (l[m - 2] == 0x73 && l[m - 1] == 0x73)) by {
            if l[m - 2] == 0x73 && l[m - 1] == 0x73 {
                assert(l.subrange(m - 2, m) =~= suffix_ss());
            }
            if ends_with(l, suffix_ss()) {
                assert(l.subrange(m - 2, m)[0] == l[m - 2]);
                assert(l.subrange(m - 2, m)[1] == l[m - 1]);
            }
        }
    } else {
        assert(!ends_with(l, suffix_ed()));
    }
    assert(ends_with(l, suffix_s()) <==> l[m - 1] == 0x73) by {
        if l[m - 1] == 0x73 {
            assert(l.subrange(m - 1, m) =~= suffix_s());
        }
        if ends_with(l, suffix_s()) {
            assert(l.subrange(m - 1, m)[0] == l[m - 1]);
        }
    }
    if m >= 3 {
        assert(ends_with(l, suffix_ing()) <==> (l[m - 3] == 0x69 && l[m - 2] == 0x6e && l[m - 1] == 0x67))
            by {
            if l[m - 3] == 0x69 && l[m - 2] == 0x6e && l[m - 1] == 0x67 {
                assert(l.subrange(m - 3, m) =~= suffix_ing());
            }
            if ends_with(l, suffix_ing()) {
                assert(l.subrange(m - 3, m)[0] == l[m - 3]);
                assert(l.subrange(m - 3, m)[1] == l[m - 2]);
                assert(l.subrange(m - 3, m)[2] == l[m - 1]);
            }
        }
    }
}

/// SLOP-K006 on the categories of a manifest with `n` categories written
/// at `span`: with no categories the last hit is one on `[0, 0)`; with
/// them, that hit is replaced by one on `span` exactly when `n` is below
/// `categories_min` (2 by default) or above `categories_max` (3 by
/// default), and dropped otherwise. The other hits stay as they are.
pub proof fn law_k006_categories_bounds(
    cp: CompiledPolicy,
    config: Config,
    info: ManifestInfo,
    idx: usize,
    n: usize,
    span: Range<usize>,
)
    requires
        active_rule(cp.pkg, config.profile, "SLOP-K006"@) == Some(idx),
        info.categories == Some((n, span)),
    ensures
        ({
            let rule = cp.pkg.rules@[idx as int];
            let mn: usize = match param_int(rule, "categories_min"@) {
                Some(v) => v as usize,
                None => 2usize,
            };
            let mx: usize = match param_int(rule, "categories_max"@) {
                Some(v) => v as usize,
                None => 3usize,
            };
            let without = ManifestInfo { categories: None, ..info };
            let hs = k006_hits(cp, config, FormatData::Manifest(info));
            let hn = k006_hits(cp, config, FormatData::Manifest(without));
            &&& hn.len() > 0
            &&& hn.last() == hit_on(idx, 0, 0)
            &&& (n < mn || n > mx) ==> hs == hn.drop_last().push(hit_on(idx, span.start, span.end))
            &&& !(n < mn || n > mx) ==> hs == hn.drop_last()
        }),
{
    reveal(k006_hits);
    let without = ManifestInfo { categories: None, ..info };
    let hs = k006_hits(cp, config, FormatData::Manifest(info));
    let hn = k006_hits(cp, config, FormatData::Manifest(without));
    assert(hn.drop_last() =~= hs.take(hn.len() - 1));
    assert(hs =~= hn.drop_last() + hs.skip(hn.len() - 1));
}

/// Every line of `w` is some line of `g`.
pub open spec fn all_lines_present(g: Seq<Seq<u8>>, w: Seq<Seq<u8>>) -> bool {
    forall|k: int| 0 <= k < w.len() ==> exists|j: int| 0 <= j < g.len() && g[j] == #[trigger] w[k]
}

/// The number of extra lines the notes may carry: `max_extra_pointer_lines`,
/// 1 by default.
pub open spec fn extra_lines_allowed(rule: crate::policy::Rule) -> usize {
    match param_int(rule, "max_extra_pointer_lines"@) {
        Some(v) => v as usize,
        None => 1usize,
    }
}

/// The SLOP-K004 finding on release notes with bytes `b`: one hit on the
/// first byte.
pub open spec fn release_flagged(idx: usize, b: Seq<u8>) -> Seq<Hit> {
    seq![hit_on(idx, 0, if b.len() < 1 { b.len() as usize } else { 1 })]
}

/// SLOP-K004 on release notes with bytes `b`, compared line by line (each
/// line trimmed, blank lines dropped) with the configured changelog entry
/// `exp`. Without an entry the rule gives one coverage hint. With one, the
/// notes pass when their lines are the entry's, or when they hold every
/// line of the entry and at most `max_extra_pointer_lines` (1 by default)
/// more lines than it; otherwise one hit covers the first byte.
pub proof fn law_k004_release_body(cp: CompiledPolicy, config: Config, b: Seq<u8>, idx: usize)
    requires
        active_rule(cp.pkg, config.profile, "SLOP-K004"@) == Some(idx),
    ensures
        config.deployment.expected_release_body is None ==> k004_hits(cp, config, b) == seq![
            Hit { rule: idx, span: Range { start: 0, end: 0 }, force_candidate: false, force_hint: true },
        ],
        config.deployment.expected_release_body matches Some(exp) && content_lines(b) == content_lines(
            encode_utf8(exp@),
        ) ==> k004_hits(cp, config, b) == Seq::<Hit>::empty(),
        config.deployment.expected_release_body matches Some(exp) && content_lines(b) != content_lines(
            encode_utf8(exp@),
        ) && !all_lines_present(content_lines(b), content_lines(encode_utf8(exp@))) ==> k004_hits(
            cp,
            config,
            b,
        ) == release_flagged(idx, b),
        config.deployment.expected_release_body matches Some(exp) && content_lines(b) != content_lines(
            encode_utf8(exp@),
        ) && content_lines(b).len() > content_lines(encode_utf8(exp@)).len() + extra_lines_allowed(
            cp.pkg.rules@[idx as int],
        ) ==> k004_hits(cp, config, b) == release_flagged(idx, b),
        config.deployment.expected_release_body matches Some(exp) && content_lines(b).len()
            <= content_lines(encode_utf8(exp@)).len() + extra_lines_allowed(cp.pkg.rules@[idx as int])
            && all_lines_present(content_lines(b), content_lines(encode_utf8(exp@))) ==> k004_hits(
            cp,
            config,
            b,
        ) == Seq::<Hit>::empty(),
{
    reveal(k004_hits);
    if config.deployment.expected_release_body is Some {
        let exp = config.deployment.expected_release_body->Some_0;
        let g = content_lines(b);
        let w = content_lines(encode_utf8(exp@));
        if all_lines_present(g, w) {
            assert forall|k: int| 0 <= k < w.len() implies has_line(g, #[trigger] w[k]) by {
                let j = choose|j: int| 0 <= j < g.len() && g[j] == w[k];
                assert(0 <= j < g.len() && g[j] == w[k]);
            }
        } else {
            let k = choose|k: int|
                0 <= k < w.len() && !exists|j: int| 0 <= j < g.len() && g[j] == #[trigger] w[k];
            assert(!has_line(g, w[k]));
        }
    }
}

/// An ASCII letter or digit.
pub open spec fn ascii_letter_or_digit(c: u8) -> bool {
    (0x30 <= c <= 0x39) || (0x41 <= c <= 0x5a) || (0x61 <= c <= 0x7a)
}

/// The phrase `f` occurs in `a` at `s` with no ASCII letter or digit
/// directly before or after it.
pub open spec fn phrase_alone_at(a: Seq<u8>, f: Seq<u8>, s: int) -> bool {
    &&& 0 <= s && s + f.len() <= a.len()
    &&& a.subrange(s, s + f.len()) == f
    &&& (s == 0 || !ascii_letter_or_digit(a[s - 1]))
    &&& (s + f.len() == a.len() || !ascii_letter_or_digit(a[s + f.len()]))
}

/// The lowercased window SLOP-E001 searches after an emphasis ending at
/// `end`.
pub open spec fn window_after(b: Seq<u8>, end: int, within: usize) -> Seq<u8> {
    ascii_lowered(b.subrange(end, window_stop(b, end, within)))
}

/// The SLOP-E001 hits of a list of emphasis records are those of its
/// records, in order: appending a record appends its hits.
pub proof fn law_e001_records_append(
    b: Seq<u8>,
    em: Seq<(Range<usize>, String)>,
    e: (Range<usize>, String),
    idx: usize,
    words: Seq<Seq<char>>,
    followers: Seq<Seq<char>>,
    within: usize,
)
    ensures
        staged_hits(b, em.push(e), idx, words, followers, within) == staged_hits(
            b,
            em,
            idx,
            words,
            followers,
            within,
        ) + staged_hits(b, seq![e], idx, words, followers, within),
{
    assert(em.push(e).drop_last() =~= em);
    assert(seq![e].drop_last() =~= Seq::<(Range<usize>, String)>::empty());
    assert(staged_hits(b, Seq::<(Range<usize>, String)>::empty(), idx, words, followers, within)
        =~= Seq::<Hit>::empty());
}

/// SLOP-E001 on one emphasis record `e`, whose word is one of `words`
/// (trimmed, ASCII-lowercased): it gives one hit on the emphasis span
/// exactly when some phrase of `followers`, at any position of the list,
/// stands alone (no ASCII letter or digit beside it) in the lowercased
/// window after the emphasis. A record whose word is not listed gives
/// none.
pub proof fn law_e001_record(
    b: Seq<u8>,
    e: (Range<usize>, String),
    idx: usize,
    words: Seq<Seq<char>>,
    followers: Seq<Seq<char>>,
    within: usize,
)
    requires
        e.0.end <= b.len(),
    ensures
        ({
            let listed = exists|k: int|
                0 <= k < words.len() && encode_utf8(#[trigger] words[k]) == emph_word(encode_utf8(e.1@));
            let a = window_after(b, e.0.end as int, within);
            let stands = exists|k: int, s: int|
                0 <= k < followers.len() && #[trigger] phrase_alone_at(a, encode_utf8(followers[k]), s);
            &&& (listed && stands) ==> staged_hits(b, seq![e], idx, words, followers, within) == seq![
                hit_on(idx, e.0.start, e.0.end),
            ]
            &&& !(listed && stands) ==> staged_hits(b, seq![e], idx, words, followers, within)
                == Seq::<Hit>::empty()
        }),
{
    let a = window_after(b, e.0.end as int, within);
    lemma_lowered_is_lower(b.subrange(e.0.end as int, window_stop(b, e.0.end as int, within)));
    assert(seq![e].drop_last() =~= Seq::<(Range<usize>, String)>::empty());
    assert(seq![e].last() == e);
    assert(staged_hits(b, Seq::<(Range<usize>, String)>::empty(), idx, words, followers, within)
        =~= Seq::<Hit>::empty());
    let stands = exists|k: int, s: int|
        0 <= k < followers.len() && #[trigger] phrase_alone_at(a, encode_utf8(followers[k]), s);
    if stands {
        let (k, s) = choose|k: int, s: int|
            0 <= k < followers.len() && #[trigger] phrase_alone_at(a, encode_utf8(followers[k]), s);
        assert(standalone_at(a, encode_utf8(followers[k]), s));
        assert(follows(a, encode_utf8(followers[k])));
    } else {
        assert forall|k: int| 0 <= k < followers.len() implies !follows(a, encode_utf8(#[trigger] followers[k])) by {
            if follows(a, encode_utf8(followers[k])) {
                let s = choose|s: int| standalone_at(a, encode_utf8(followers[k]), s);
                assert(phrase_alone_at(a, encode_utf8(followers[k]), s));
            }
        }
    }
}

/// SLOP-K003 reads the document's headings in order, against the rule's
/// `section_whitelist`; it gives nothing when the rule does not run.
pub proof fn law_k003_reads_headings(cp: CompiledPolicy, config: Config, doc: Doc)
    ensures
        active_rule(cp.pkg, config.profile, "SLOP-K003"@) is None ==> k003_hits(cp, config, doc)
            == Seq::<Hit>::empty(),
        active_rule(cp.pkg, config.profile, "SLOP-K003"@) matches Some(idx) ==> k003_hits(
            cp,
            config,
            doc,
        ) == k003_headings(
            doc.headings@,
            idx,
            param_strings(cp.pkg.rules@[idx as int], "section_whitelist"@),
        ),
{
    reveal(k003_hits);
}

/// SLOP-E001 reads the document's emphasis records in order, with the
/// rule's `emphasized_words` and `followed_by` lists and a window of
/// `followed_within` bytes (120 by default); it gives nothing when the rule
/// does not run.
pub proof fn law_e001_reads_emphasis(cp: CompiledPolicy, config: Config, doc: Doc, b: Seq<u8>)
    ensures
        active_rule(cp.pkg, config.profile, "SLOP-E001"@) is None ==> e001_hits(cp, config, doc, b)
            == Seq::<Hit>::empty(),
        active_rule(cp.pkg, config.profile, "SLOP-E001"@) matches Some(idx) ==> e001_hits(
            cp,
            config,
            doc,
            b,
        ) == staged_hits(
            b,
            doc.emphasis@,
            idx,
            param_strings(cp.pkg.rules@[idx as int], "emphasized_words"@),
            param_strings(cp.pkg.rules@[idx as int], "followed_by"@),
            match param_int(cp.pkg.rules@[idx as int], "followed_within"@) {
                Some(v) => v as usize,
                None => 120usize,
            },
        ),
{
    reveal(e001_hits);
}

/// A continuation byte of UTF-8: `10xxxxxx`.
pub open spec fn continuation_byte(c: u8) -> bool {
    0x80 <= c <= 0xbf
}

proof fn lemma_next_boundary(b: Seq<u8>, i: int)
    requires
        0 <= i <= b.len(),
    ensures
        i <= next_boundary(b, i) <= b.len(),
        next_boundary(b, i) == 0 || next_boundary(b, i) == b.len() || !continuation_byte(
            b[next_boundary(b, i)],
        ),
        forall|q: int| i <= q < next_boundary(b, i) ==> continuation_byte(#[trigger] b[q]),
    decreases b.len() - i,
{
    if i < b.len() && !crate::text::boundary(b, i) {
        lemma_next_boundary(b, i + 1);
    }
}

/// The window SLOP-E001 searches after an emphasis that ends at `end`
/// spans `within` bytes, cut at the end of the text and then carried past
/// any continuation bytes to the next character boundary: it stops at the
/// first position, from `min(end + within, len)` on, that is the start or
/// the end of the text or holds a byte that begins a character.
pub proof fn law_e001_window(b: Seq<u8>, end: int, within: usize)
    requires
        0 <= end <= b.len(),
    ensures
        ({
            let t = if end + within < b.len() { end + within } else { b.len() as int };
            let w = window_stop(b, end, within);
            &&& end <= t <= w <= b.len()
            &&& w == 0 || w == b.len() || !continuation_byte(b[w])
            &&& forall|q: int| t <= q < w ==> continuation_byte(#[trigger] b[q])
        }),
{
    let t = if end + within < b.len() { end + within } else { b.len() as int };
    lemma_next_boundary(b, t);
    if 0 < t < b.len() && !continuation_byte(b[t]) {
        assert(crate::text::boundary(b, t));
    }
}

/// No byte of `b` is a line feed.
pub open spec fn no_line_feed(b: Seq<u8>) -> bool {
    forall|j: int| 0 <= j < b.len() ==> b[j] != 0x0au8
}

/// The ranges `rs` moved `d` bytes on.
pub open spec fn shifted(rs: Seq<Range<usize>>, d: int) -> Seq<Range<usize>> {
    rs.map_values(|r: Range<usize>| Range { start: (r.start + d) as usize, end: (r.end + d) as usize })
}

proof fn lemma_trim_end_local(b1: Seq<u8>, lo: int, hi: int, b2: Seq<u8>, d: int)
    requires
        0 <= lo <= hi <= b1.len(),
        0 <= lo + d,
        hi + d <= b2.len(),
        forall|j: int| lo <= j < hi ==> b1[j] == b2[j + d],
    ensures
        trim_end_at(b2, lo + d, hi + d) == trim_end_at(b1, lo, hi) + d,
    decreases hi - lo,
{
    assert(ws_before(b1, lo, hi) == ws_before(b2, lo + d, hi + d)) by {
        if lo < hi {
            assert(b1[hi - 1] == b2[hi - 1 + d]);
        }
        if lo <= hi - 2 {
            assert(b1[hi - 2] == b2[hi - 2 + d]);
        }
        if lo <= hi - 3 {
            assert(b1[hi - 3] == b2[hi - 3 + d]);
        }
    }
    if lo < hi && ws_before(b1, lo, hi) > 0 {
        lemma_trim_end_local(b1, lo, hi - ws_before(b1, lo, hi), b2, d);
    }
}

/// The trimmed lines of two lists of ranges, one after the other.
proof fn lemma_trimmed_concat(b: Seq<u8>, xs: Seq<Range<usize>>, ys: Seq<Range<usize>>)
    ensures
        trimmed_lines(b, xs + ys) == trimmed_lines(b, xs) + trimmed_lines(b, ys),
    decreases ys.len(),
{
    if ys.len() == 0 {
        assert(xs + ys =~= xs);
    } else {
        lemma_trimmed_concat(b, xs, ys.drop_last());
        assert((xs + ys).drop_last() =~= xs + ys.drop_last());
        assert((xs + ys).last() == ys.last());
    }
}

/// Lines of `rest` read inside `b`, where `rest` starts at byte `d`, trim
/// alike.
proof fn lemma_trimmed_shift(b: Seq<u8>, rest: Seq<u8>, d: int, rs: Seq<Range<usize>>)
    requires
        0 <= d,
        d + rest.len() == b.len(),
        b.len() <= usize::MAX,
        forall|j: int| 0 <= j < rest.len() ==> rest[j] == b[j + d],
        forall|k: int| 0 <= k < rs.len() ==> (#[trigger] rs[k]).start <= rs[k].end <= rest.len(),
    ensures
        trimmed_lines(b, shifted(rs, d)) == trimmed_lines(rest, rs),
    decreases rs.len(),
{
    if rs.len() > 0 {
        let r = rs.last();
        assert(r == rs[rs.len() - 1]);
        assert(shifted(rs, d).drop_last() =~= shifted(rs.drop_last(), d));
        assert forall|k: int| 0 <= k < rs.drop_last().len() implies (#[trigger] rs.drop_last()[k]).start
            <= rs.drop_last()[k].end <= rest.len() by {
            assert(rs.drop_last()[k] == rs[k]);
        }
        lemma_trimmed_shift(b, rest, d, rs.drop_last());
        let lo = r.start as int;
        let hi = r.end as int;
        lemma_trim_start_local(rest, lo, hi, b, d);
        lemma_trim_start_bounds(rest, lo, hi);
        let s0 = trim_start_at(rest, lo, hi);
        lemma_trim_end_local(rest, s0, hi, b, d);
        lemma_trim_end_bounds(rest, s0, hi);
        let e0 = trim_end_at(rest, s0, hi);
        assert(b.subrange(s0 + d, e0 + d) =~= rest.subrange(s0, e0));
        assert(shifted(rs, d).last() == Range { start: (lo + d) as usize, end: (hi + d) as usize });
    }
}

/// The lines of `b` from `i` on, with the current line started at `start`,
/// when no line feed lies in `[i, stop)` and one lies at `stop`.
proof fn lemma_lines_to_feed(b: Seq<u8>, start: int, i: int, stop: int)
    requires
        0 <= start <= i <= stop < b.len(),
        b.len() <= usize::MAX,
        b[stop] == 0x0au8,
        forall|j: int| i <= j < stop ==> b[j] != 0x0au8,
    ensures
        lines_from(b, start, i) == seq![Range { start: start as usize, end: line_end(b, start, stop) as usize }]
            + lines_from(b, stop + 1, stop + 1),
    decreases stop - i,
{
    if i < stop {
        lemma_lines_to_feed(b, start, i + 1, stop);
    }
}

/// The lines of `b` from `i` on when no line feed follows.
proof fn lemma_lines_last(b: Seq<u8>, start: int, i: int)
    requires
        0 <= start <= i <= b.len(),
        b.len() <= usize::MAX,
        forall|j: int| i <= j < b.len() ==> b[j] != 0x0au8,
    ensures
        lines_from(b, start, i) == seq![Range { start: start as usize, end: b.len() as usize }],
    decreases b.len() - i,
{
    if i < b.len() {
        lemma_lines_last(b, start, i + 1);
    }
}

/// Lines of `rest` read inside `b`, where `rest` starts at byte `d`.
proof fn lemma_lines_shift(b: Seq<u8>, rest: Seq<u8>, d: int, start: int, i: int)
    requires
        0 <= d,
        0 <= start <= i <= rest.len(),
        d + rest.len() == b.len(),
        b.len() <= usize::MAX,
        forall|j: int| 0 <= j < rest.len() ==> rest[j] == b[j + d],
    ensures
        lines_from(b, start + d, i + d) == shifted(lines_from(rest, start, i), d),
        forall|k: int|
            0 <= k < lines_from(rest, start, i).len() ==> (#[trigger] lines_from(rest, start, i)[k]).start
                <= lines_from(rest, start, i)[k].end <= rest.len(),
    decreases rest.len() - i,
{
    if i >= rest.len() {
        assert(shifted(lines_from(rest, start, i), d) =~= seq![
            Range { start: (start + d) as usize, end: b.len() as usize },
        ]);
    } else if rest[i] == 0x0a {
        assert(b[i + d] == 0x0au8);
        lemma_lines_shift(b, rest, d, i + 1, i + 1);
        let le = line_end(rest, start, i);
        assert(line_end(b, start + d, i + d) == le + d) by {
            if i > start {
                assert(b[i + d - 1] == rest[i - 1]);
            }
        }
        let tail = lines_from(rest, i + 1, i + 1);
        assert(shifted(seq![Range { start: start as usize, end: le as usize }] + tail, d) =~= seq![
            Range { start: (start + d) as usize, end: (le + d) as usize },
        ] + shifted(tail, d));
        let all = lines_from(rest, start, i);
        assert forall|k: int| 0 <= k < all.len() implies (#[trigger] all[k]).start <= all[k].end
            <= rest.len() by {
            if k > 0 {
                assert(all[k] == tail[k - 1]);
            }
        }
    } else {
        assert(b[i + d] == rest[i]);
        lemma_lines_shift(b, rest, d, start, i + 1);
    }
}

/// The trimmed non-blank lines of a text without line feeds: the text
/// trimmed, unless nothing but whitespace is left.
pub proof fn law_content_single_line(l: Seq<u8>)
    requires
        no_line_feed(l),
        l.len() <= usize::MAX,
    ensures
        ({
            let s = trim_start_at(l, 0, l.len() as int);
            let e = trim_end_at(l, s, l.len() as int);
            content_lines(l) == if s < e { seq![l.subrange(s, e)] } else { Seq::<Seq<u8>>::empty() }
        }),
{
    lemma_lines_last(l, 0, 0);
    let only = seq![Range { start: 0usize, end: l.len() as usize }];
    assert(only.drop_last() =~= Seq::<Range<usize>>::empty());
    assert(only.last() == Range { start: 0usize, end: l.len() as usize });
    let s0 = trim_start_at(l, 0, l.len() as int);
    let e0 = trim_end_at(l, s0, l.len() as int);
    assert(trimmed_lines(l, Seq::<Range<usize>>::empty()) =~= Seq::<Seq<u8>>::empty());
    assert(trimmed_lines(l, only) =~= (if s0 < e0 { seq![l.subrange(s0, e0)] } else { Seq::<Seq<u8>>::empty() }));
}

/// Release lines are read line by line: the trimmed non-blank lines of a
/// first line, a line feed and the rest are those of the first line
/// followed by those of the rest.
pub proof fn law_content_lines_split(l: Seq<u8>, rest: Seq<u8>)
    requires
        no_line_feed(l),
        l.len() + 1 + rest.len() <= usize::MAX,
    ensures
        content_lines(l + seq![0x0au8] + rest) == content_lines(l) + content_lines(rest),
{
    let b = l + seq![0x0au8] + rest;
    let n = l.len() as int;
    let d = n + 1;
    lemma_lines_to_feed(b, 0, 0, n);
    assert forall|j: int| 0 <= j < rest.len() implies rest[j] == b[j + d] by {}
    lemma_lines_shift(b, rest, d, 0, 0);
    let first = Range { start: 0usize, end: line_end(b, 0, n) as usize };
    let tail = lines_from(rest, 0, 0);
    assert(lines_from(b, 0, 0) == seq![first] + shifted(tail, d));
    lemma_trimmed_concat(b, seq![first], shifted(tail, d));
    lemma_trimmed_shift(b, rest, d, tail);
    // The first line reads as `l` does on its own.
    law_content_single_line(l);
    let le = line_end(b, 0, n);
    assert forall|j: int| 0 <= j < n implies l[j] == b[j] by {}
    lemma_trim_start_local(l, 0, le, b, 0);
    lemma_trim_start_bounds(l, 0, le);
    let s0 = trim_start_at(l, 0, le);
    lemma_trim_end_local(l, s0, le, b, 0);
    lemma_trim_end_bounds(l, s0, le);
    let e0 = trim_end_at(l, s0, le);
    assert(b.subrange(s0, e0) =~= l.subrange(s0, e0));
    assert(seq![first].drop_last() =~= Seq::<Range<usize>>::empty());
    assert(seq![first].last() == first);
    assert(trimmed_lines(b, Seq::<Range<usize>>::empty()) =~= Seq::<Seq<u8>>::empty());
    let head = if s0 < e0 { seq![l.subrange(s0, e0)] } else { Seq::<Seq<u8>>::empty() };
    assert(trimmed_lines(b, seq![first]) =~= head);
    let s2 = trim_start_at(l, 0, n);
    let e2 = trim_end_at(l, s2, n);
    if le < n {
        lemma_trim_cr(l, 0);
        if s0 < le {
            assert(s2 == s0);
            assert(ws_before(l, s0, n) == 1);
            assert(e2 == e0);
        } else {
            assert(s2 == n);
            assert(e2 == n);
        }
    }
    assert(content_lines(l) == head);
    assert(content_lines(b) == trimmed_lines(b, seq![first] + shifted(tail, d)));
}

/// Trimming a text that ends in a carriage return trims it as if the
/// carriage return were not there.
proof fn lemma_trim_cr(l: Seq<u8>, i: int)
    requires
        l.len() >= 1,
        l[l.len() - 1] == 0x0du8,
        0 <= i <= l.len() - 1,
    ensures
        ({
            let n = l.len() as int;
            let t = trim_start_at(l, i, n - 1);
            trim_start_at(l, i, n) == if t < n - 1 { t } else { n }
        }),
    decreases l.len() - i,
{
    let n = l.len() as int;
    if i < n - 1 {
        assert(ws_at(l, i, n) == ws_at(l, i, n - 1));
        if ws_at(l, i, n - 1) > 0 {
            lemma_trim_start_bounds(l, i, n - 1);
            lemma_trim_cr(l, i + ws_at(l, i, n - 1));
        }
    } else {
        assert(ws_at(l, i, n) == 1);
        assert(trim_start_at(l, n, n) == n);
    }
}

} // verus!
