//! Where hits point: every hit the rule families here report covers bytes
//! of the prepared text, the payload every offset indexes.

use vstd::prelude::*;
use crate::config::Config;
use crate::engine::{CompiledPolicy, Hit};
use crate::extract::{doc_fits, CodeRegion, Doc, Heading};
use crate::input::{is_line_split, lemma_line_split_exists, lines_from, FormatData, ManifestInfo};
use crate::rules::emphasis::{e001_hits, e003_hits, emphasis_hits, staged_hits};
use crate::rules::profile_contract::{
    assign_quote, conv_prefix, first_license, forbidden_word_hits, inputs_fit, k001_hits,
    k002_hits, k002_subject_hits, k003_heading, k003_headings, k003_hits, k004_hits, k005_hits,
    k006_fields, k006_hits, k007_hits, lemma_conv_prefix_bound, profile_contract_hits, quote,
    title_of, version_mismatches, versions_in, versions_of, word_hit_from, word_hit_span,
};
use crate::rules::{active_rule, package_fits};
use crate::text::{find_from, lemma_find_from, lemma_trim_start_bounds, lemma_word_end, trim_start_at, word_end};

verus! {

/// The hit covers bytes `[start, end)` of a text of `n` bytes.
pub open spec fn span_within(h: Hit, n: int) -> bool {
    h.span.start <= h.span.end && h.span.end <= n
}

/// Every hit of `hs` covers bytes of a text of `n` bytes.
pub open spec fn hits_within(hs: Seq<Hit>, n: int) -> bool {
    forall|i: int| 0 <= i < hs.len() ==> span_within(#[trigger] hs[i], n)
}

/// The spans a parsed manifest records lie in a text of `n` bytes.
pub open spec fn manifest_within(format: FormatData, n: int) -> bool {
    format matches FormatData::Manifest(info) ==> {
        &&& (info.description_span matches Some(s) ==> s.start <= s.end <= n)
        &&& (info.keywords matches Some((_, s)) ==> s.start <= s.end <= n)
        &&& (info.categories matches Some((_, s)) ==> s.start <= s.end <= n)
    }
}

proof fn lemma_concat(a: Seq<Hit>, b: Seq<Hit>, n: int)
    requires
        hits_within(a, n),
        hits_within(b, n),
    ensures
        hits_within(a + b, n),
{
    assert forall|i: int| 0 <= i < (a + b).len() implies span_within(#[trigger] (a + b)[i], n) by {
        if i < a.len() {
            assert((a + b)[i] == a[i]);
        } else {
            assert((a + b)[i] == b[i - a.len()]);
        }
    }
}

proof fn lemma_staged(
    b: Seq<u8>,
    em: Seq<(std::ops::Range<usize>, String)>,
    idx: usize,
    words: Seq<Seq<char>>,
    followers: Seq<Seq<char>>,
    within: usize,
)
    requires
        forall|i: int| 0 <= i < em.len() ==> (#[trigger] em[i]).0.start <= em[i].0.end <= b.len(),
    ensures
        hits_within(staged_hits(b, em, idx, words, followers, within), b.len() as int),
    decreases em.len(),
{
    if em.len() > 0 {
        lemma_staged(b, em.drop_last(), idx, words, followers, within);
        assert(em.last() == em[em.len() - 1]);
        lemma_concat(
            staged_hits(b, em.drop_last(), idx, words, followers, within),
            if crate::rules::emphasis::staged(b, em.last(), words, followers, within) {
                seq![crate::engine::plain_hit(idx, em.last().0.start, em.last().0.end)]
            } else {
                seq![]
            },
            b.len() as int,
        );
    }
}

proof fn lemma_emphasis(cp: CompiledPolicy, config: Config, doc: Doc, b: Seq<u8>)
    requires
        doc_fits(doc, b),
    ensures
        hits_within(emphasis_hits(cp, config, doc, b), b.len() as int),
{
    reveal(e001_hits);
    reveal(e003_hits);
    assert forall|i: int| 0 <= i < doc.emphasis@.len() implies (#[trigger] doc.emphasis@[i]).0.start
        <= doc.emphasis@[i].0.end <= b.len() by {
        assert(crate::extract::range_ok(b, doc.emphasis@[i].0));
    }
    match active_rule(cp.pkg, config.profile, "SLOP-E001"@) {
        None => {},
        Some(idx) => {
            let rule = cp.pkg.rules@[idx as int];
            lemma_staged(
                b,
                doc.emphasis@,
                idx,
                crate::rules::profile_contract::param_strings(rule, "emphasized_words"@),
                crate::rules::profile_contract::param_strings(rule, "followed_by"@),
                crate::rules::emphasis::e001_window(rule),
            );
        },
    }
    if doc.bold_label_ranges@.len() > 0 {
        assert(crate::extract::range_ok(b, doc.bold_label_ranges@[0]));
    }
    lemma_concat(e001_hits(cp, config, doc, b), e003_hits(cp, config, doc), b.len() as int);
}

proof fn lemma_word_hit_from(h: Seq<u8>, w: Seq<u8>, at: int)
    requires
        0 <= at,
    ensures
        word_hit_from(h, w, at) matches Some(s) ==> 0 <= s && s + w.len() <= h.len(),
    decreases h.len() + 1 - at,
{
    lemma_find_from(h, w, at);
    match find_from(h, w, at) {
        None => {},
        Some(s) => {
            if !crate::rules::profile_contract::standalone(h, s, s + w.len()) && !(w.len() == 0
                || s + w.len() > h.len() || s < at) {
                lemma_word_hit_from(h, w, s + w.len());
            }
        },
    }
}

proof fn lemma_forbidden(b: Seq<u8>, tr: std::ops::Range<usize>, idx: usize, words: Seq<Seq<char>>)
    requires
        tr.start <= tr.end <= b.len(),
    ensures
        hits_within(forbidden_word_hits(b, tr, idx, words), b.len() as int),
    decreases words.len(),
{
    if words.len() > 0 {
        lemma_forbidden(b, tr, idx, words.drop_last());
        let w = vstd::utf8::encode_utf8(words.last());
        let h = crate::text::lower(b.subrange(tr.start as int, tr.end as int));
        lemma_word_hit_from(h, w, 0);
        let tail = match word_hit_span(b, tr.start as int, tr.end as int, w) {
            Some(sp) => seq![crate::engine::plain_hit(idx, sp.start, sp.end)],
            None => seq![],
        };
        lemma_concat(forbidden_word_hits(b, tr, idx, words.drop_last()), tail, b.len() as int);
    }
}

proof fn lemma_title(doc: Doc, b: Seq<u8>)
    requires
        doc_fits(doc, b),
        b.len() <= usize::MAX,
    ensures
        title_of(doc, b).0.start <= title_of(doc, b).0.end <= b.len(),
{
    if doc.headings@.len() > 0 {
        assert(crate::extract::range_ok(b, doc.headings@[0].text_range));
    } else {
        lemma_line_split_exists(b);
        let ls = lines_from(b, 0, 0);
        if ls.len() > 1 {
            assert(crate::input::closed_line(b, ls[0], ls[1].start - 1));
        }
    }
}

proof fn lemma_k001(cp: CompiledPolicy, config: Config, doc: Doc, b: Seq<u8>)
    requires
        doc_fits(doc, b),
        b.len() <= usize::MAX,
    ensures
        hits_within(k001_hits(cp, config, doc, b), b.len() as int),
{
    reveal(k001_hits);
    match active_rule(cp.pkg, config.profile, "SLOP-K001"@) {
        None => {},
        Some(idx) => {
            let rule = cp.pkg.rules@[idx as int];
            let (tr, tb) = title_of(doc, b);
            lemma_title(doc, b);
            let max = crate::rules::profile_contract::param_usize(rule, "max_title_chars"@, 80);
            let first = if crate::text::char_count(tb) > max {
                seq![crate::engine::plain_hit(idx, tr.start, tr.end)]
            } else {
                seq![]
            };
            let words = crate::rules::profile_contract::param_strings(rule, "forbid_title_words"@);
            lemma_forbidden(b, tr, idx, words);
            lemma_concat(first, forbidden_word_hits(b, tr, idx, words), b.len() as int);
        },
    }
}

proof fn lemma_k002_subject(b: Seq<u8>, lo: usize, hi: usize, idx: usize, max: usize)
    requires
        lo <= hi <= b.len(),
    ensures
        hits_within(k002_subject_hits(b, lo, hi, idx, max), b.len() as int),
{
    let n = b.len() as int;
    let sb = b.subrange(lo as int, hi as int);
    let e = crate::text::trim_end_at(sb, 0, sb.len() as int);
    let p1 = if crate::text::char_count(sb) > max {
        seq![crate::engine::plain_hit(idx, lo, hi)]
    } else {
        seq![]
    };
    let p2 = if e > 0 && sb[e - 1] == 0x2e {
        seq![crate::engine::plain_hit(idx, lo, hi)]
    } else {
        seq![]
    };
    lemma_conv_prefix_bound(sb);
    let p3 = match conv_prefix(sb) {
        None => seq![crate::engine::plain_hit(idx, lo, hi)],
        Some(rest_at) => {
            let ws = trim_start_at(sb, rest_at, sb.len() as int);
            let we = word_end(sb, ws, sb.len() as int);
            let w = sb.subrange(ws, we);
            if crate::rules::profile_contract::starts_upper(w) || crate::rules::profile_contract::non_imperative(w) {
                let s = (lo + rest_at) as usize;
                seq![
                    Hit {
                        rule: idx,
                        span: std::ops::Range { start: s, end: (s + w.len()) as usize },
                        force_candidate: true,
                        force_hint: false,
                    },
                ]
            } else {
                seq![]
            }
        },
    };
    match conv_prefix(sb) {
        None => {
            assert(hits_within(p3, n));
        },
        Some(rest_at) => {
            lemma_find_from(sb, seq![0x3au8], 0);
            assert(rest_at >= 0);
            lemma_trim_start_bounds(sb, rest_at, sb.len() as int);
            let ws = trim_start_at(sb, rest_at, sb.len() as int);
            lemma_word_end(sb, ws, sb.len() as int);
            let we = word_end(sb, ws, sb.len() as int);
            assert(sb.len() == hi - lo);
            assert(sb.subrange(ws, we).len() == we - ws);
            assert(lo + rest_at + (we - ws) <= hi);
            assert(hits_within(p3, n));
        },
    }
    lemma_concat(p1, p2, n);
    lemma_concat(p1 + p2, p3, n);
    assert(k002_subject_hits(b, lo, hi, idx, max) == p1 + p2 + p3);
}

proof fn lemma_k002(cp: CompiledPolicy, config: Config, format: FormatData, b: Seq<u8>)
    requires
        format matches FormatData::Commit(split) ==> crate::extract::range_ok(b, split.subject),
    ensures
        hits_within(k002_hits(cp, config, format, b), b.len() as int),
{
    reveal(k002_hits);
    match active_rule(cp.pkg, config.profile, "SLOP-K002"@) {
        None => {},
        Some(idx) => match format {
            FormatData::Commit(split) => {
                lemma_k002_subject(
                    b,
                    split.subject.start,
                    split.subject.end,
                    idx,
                    crate::rules::profile_contract::param_usize(cp.pkg.rules@[idx as int], "max_subject_chars"@, 72),
                );
            },
            _ => {},
        },
    }
}

proof fn lemma_k003_headings(hs: Seq<Heading>, idx: usize, wl: Seq<Seq<char>>, n: int)
    requires
        forall|i: int| 0 <= i < hs.len() ==> (#[trigger] hs[i]).text_range.start <= hs[i].text_range.end <= n,
    ensures
        hits_within(k003_headings(hs, idx, wl), n),
    decreases hs.len(),
{
    if hs.len() > 0 {
        lemma_k003_headings(hs.drop_last(), idx, wl, n);
        assert(hs.last() == hs[hs.len() - 1]);
        lemma_concat(k003_headings(hs.drop_last(), idx, wl), k003_heading(hs.last(), idx, wl), n);
    }
}

proof fn lemma_k003(cp: CompiledPolicy, config: Config, doc: Doc, b: Seq<u8>)
    requires
        doc_fits(doc, b),
    ensures
        hits_within(k003_hits(cp, config, doc), b.len() as int),
{
    reveal(k003_hits);
    assert forall|i: int| 0 <= i < doc.headings@.len() implies (#[trigger] doc.headings@[i]).text_range.start
        <= doc.headings@[i].text_range.end <= b.len() by {
        assert(crate::extract::range_ok(b, doc.headings@[i].text_range));
    }
    match active_rule(cp.pkg, config.profile, "SLOP-K003"@) {
        None => {},
        Some(idx) => {
            lemma_k003_headings(
                doc.headings@,
                idx,
                crate::rules::profile_contract::param_strings(cp.pkg.rules@[idx as int], "section_whitelist"@),
                b.len() as int,
            );
        },
    }
}

proof fn lemma_k004(cp: CompiledPolicy, config: Config, b: Seq<u8>)
    ensures
        hits_within(k004_hits(cp, config, b), b.len() as int),
{
    reveal(k004_hits);
}

proof fn lemma_first_license(hs: Seq<Heading>, i: int)
    requires
        0 <= i,
    ensures
        first_license(hs, i) matches Some(k) ==> 0 <= k < hs.len(),
    decreases hs.len() - i,
{
    if i < hs.len() && !crate::rules::profile_contract::is_license_heading(hs[i]) {
        lemma_first_license(hs, i + 1);
    }
}

proof fn lemma_k005(cp: CompiledPolicy, config: Config, doc: Doc, b: Seq<u8>)
    requires
        doc_fits(doc, b),
    ensures
        hits_within(k005_hits(cp, config, doc, b), b.len() as int),
{
    reveal(k005_hits);
    lemma_first_license(doc.headings@, 0);
    match first_license(doc.headings@, 0) {
        Some(i) => {
            assert(crate::extract::range_ok(b, doc.headings@[i].range));
        },
        None => {},
    }
}

proof fn lemma_k006(cp: CompiledPolicy, config: Config, format: FormatData, b: Seq<u8>)
    requires
        manifest_within(format, b.len() as int),
    ensures
        hits_within(k006_hits(cp, config, format), b.len() as int),
{
    reveal(k006_hits);
    match active_rule(cp.pkg, config.profile, "SLOP-K006"@) {
        None => {},
        Some(idx) => match format {
            FormatData::Manifest(info) => {
                let hs = k006_fields(info, idx, cp.pkg.rules@[idx as int]);
                assert forall|i: int| 0 <= i < hs.len() implies span_within(#[trigger] hs[i], b.len() as int) by {
                }
            },
            _ => {},
        },
    }
}

/// Every version literal found lies in a text of `n` bytes.
pub open spec fn found_within(found: Seq<(std::ops::Range<usize>, Seq<u8>)>, n: int) -> bool {
    forall|i: int| 0 <= i < found.len() ==> (#[trigger] found[i]).0.start <= found[i].0.end <= n
}

proof fn lemma_found_concat(a: Seq<(std::ops::Range<usize>, Seq<u8>)>, c: Seq<(std::ops::Range<usize>, Seq<u8>)>, n: int)
    requires
        found_within(a, n),
        found_within(c, n),
    ensures
        found_within(a + c, n),
{
    assert forall|i: int| 0 <= i < (a + c).len() implies (#[trigger] (a + c)[i]).0.start <= (a + c)[i].0.end <= n by {
        if i < a.len() {
            assert((a + c)[i] == a[i]);
        } else {
            assert((a + c)[i] == c[i - a.len()]);
        }
    }
}

proof fn lemma_versions_in(body: Seq<u8>, at: int, base: int, n: int)
    requires
        0 <= at,
        0 <= base,
        base + body.len() <= n,
        n <= usize::MAX,
    ensures
        found_within(versions_in(body, at, base), n),
    decreases body.len() - at,
{
    lemma_find_from(body, assign_quote(), at);
    match find_from(body, assign_quote(), at) {
        None => {},
        Some(pos) => {
            let vstart = pos + 3;
            lemma_find_from(body, quote(), vstart);
            match find_from(body, quote(), vstart) {
                None => {},
                Some(q) => {
                    if !(q + 1 <= at || q + 1 > body.len()) {
                        lemma_versions_in(body, q + 1, base, n);
                        let v = body.subrange(vstart, q);
                        let head = if crate::rules::profile_contract::version_value(v) {
                            seq![(std::ops::Range { start: (base + vstart) as usize, end: (base + q) as usize }, v)]
                        } else {
                            seq![]
                        };
                        lemma_found_concat(head, versions_in(body, q + 1, base), n);
                    }
                },
            }
        },
    }
}

proof fn lemma_versions_of(b: Seq<u8>, regions: Seq<CodeRegion>)
    requires
        forall|i: int| 0 <= i < regions.len() ==> crate::extract::range_ok(b, (#[trigger] regions[i]).range),
        b.len() <= usize::MAX,
    ensures
        found_within(versions_of(b, regions), b.len() as int),
    decreases regions.len(),
{
    if regions.len() > 0 {
        lemma_versions_of(b, regions.drop_last());
        let r = regions.last().range;
        assert(crate::extract::range_ok(b, regions[regions.len() - 1].range));
        lemma_versions_in(b.subrange(r.start as int, r.end as int), 0, r.start as int, b.len() as int);
        lemma_found_concat(
            versions_of(b, regions.drop_last()),
            versions_in(b.subrange(r.start as int, r.end as int), 0, r.start as int),
            b.len() as int,
        );
    }
}

proof fn lemma_mismatches(found: Seq<(std::ops::Range<usize>, Seq<u8>)>, idx: usize, exp: Seq<u8>, n: int)
    requires
        found_within(found, n),
    ensures
        hits_within(version_mismatches(found, idx, exp), n),
    decreases found.len(),
{
    if found.len() > 0 {
        lemma_mismatches(found.drop_last(), idx, exp, n);
        let (span, v) = found.last();
        assert(found.last() == found[found.len() - 1]);
        let tail = if v != exp && !crate::text::starts_with(v, exp) {
            seq![crate::engine::plain_hit(idx, span.start, span.end)]
        } else {
            seq![]
        };
        lemma_concat(version_mismatches(found.drop_last(), idx, exp), tail, n);
    }
}

proof fn lemma_k007(cp: CompiledPolicy, config: Config, doc: Doc, b: Seq<u8>)
    requires
        doc_fits(doc, b),
        b.len() <= usize::MAX,
    ensures
        hits_within(k007_hits(cp, config, doc, b), b.len() as int),
{
    reveal(k007_hits);
    lemma_versions_of(b, doc.code_regions@);
    let found = versions_of(b, doc.code_regions@);
    match config.deployment.expected_version {
        Some(exp) => {
            lemma_mismatches(found, 0, vstd::utf8::encode_utf8(exp@), b.len() as int);
            match active_rule(cp.pkg, config.profile, "SLOP-K007"@) {
                Some(idx) => {
                    lemma_mismatches(found, idx, vstd::utf8::encode_utf8(exp@), b.len() as int);
                },
                None => {},
            }
        },
        None => {
            if found.len() > 0 {
                assert(found[0].0.start <= found[0].0.end <= b.len());
            }
        },
    }
}

/// Every hit the emphasis and profile-contract families report covers
/// bytes of the text they ran on: findings point into the payload every
/// offset indexes. (Manifest spans are the parser's; they must lie in the
/// text too.)
pub proof fn law_hits_within_text(
    cp: CompiledPolicy,
    format: FormatData,
    doc: Doc,
    config: Config,
    b: Seq<u8>,
)
    requires
        inputs_fit(format, doc, b),
        manifest_within(format, b.len() as int),
        b.len() <= usize::MAX,
    ensures
        hits_within(
            emphasis_hits(cp, config, doc, b) + profile_contract_hits(cp, format, b, doc, config),
            b.len() as int,
        ),
{
    let n = b.len() as int;
    reveal(profile_contract_hits);
    lemma_emphasis(cp, config, doc, b);
    lemma_k001(cp, config, doc, b);
    lemma_k002(cp, config, format, b);
    lemma_k003(cp, config, doc, b);
    lemma_k004(cp, config, b);
    lemma_k005(cp, config, doc, b);
    lemma_k006(cp, config, format, b);
    lemma_k007(cp, config, doc, b);
    let h1 = k001_hits(cp, config, doc, b);
    let h2 = k002_hits(cp, config, format, b);
    let h3 = k003_hits(cp, config, doc);
    let h4 = k004_hits(cp, config, b);
    let h5 = k005_hits(cp, config, doc, b);
    let h6 = k006_hits(cp, config, format);
    let h7 = k007_hits(cp, config, doc, b);
    lemma_concat(h1, h2, n);
    lemma_concat(h1 + h2, h3, n);
    lemma_concat(h1 + h2 + h3, h4, n);
    lemma_concat(h1 + h2 + h3 + h4, h5, n);
    lemma_concat(h1 + h2 + h3 + h4 + h5, h6, n);
    lemma_concat(h1 + h2 + h3 + h4 + h5 + h6, h7, n);
    lemma_concat(emphasis_hits(cp, config, doc, b), h1 + h2 + h3 + h4 + h5 + h6 + h7, n);
}

} // verus!
