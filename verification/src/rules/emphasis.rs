//! emphasis family structural rules: SLOP-E001 emphasis-staged contrast and
//! SLOP-E003 bold-label lists. Both read the extractor's emphasis records,
//! never literal asterisks.

use std::ops::Range;
use vstd::prelude::*;
use vstd::string::StringSliceAdditionalSpecFns;
use vstd::utf8::encode_utf8;
use crate::config::Config;
use crate::engine::{plain_hit, CompiledPolicy, Hit};
use crate::extract::{range_ok, Doc};
use crate::rules::{active, active_rule, package_fits, param_i64, param_int};
use crate::rules::profile_contract::{param_str_list, param_strings};
use crate::text::{
    boundary, bytes_equal_at, find_bytes, find_from, is_boundary, lemma_find_first, lemma_find_from, lower,
    lower_copy, str_views, trim_end_at, trim_end_pos, trim_start_at, trim_start_pos,
};

verus! {

pub const HANDLED: [&'static str; 2] = ["SLOP-E001", "SLOP-E003"];

/// An ASCII letter or digit (`char::is_ascii_alphanumeric` on the byte).
pub open spec fn alnum(c: u8) -> bool {
    (0x30 <= c <= 0x39) || (0x41 <= c <= 0x5a) || (0x61 <= c <= 0x7a)
}

fn is_alnum(c: u8) -> (r: bool)
    ensures
        r == alnum(c),
{
    (0x30u8 <= c && c <= 0x39u8) || (0x41u8 <= c && c <= 0x5au8) || (0x61u8 <= c && c <= 0x7au8)
}

/// `f` occurs in `a` at `s`, with no ASCII letter or digit directly before
/// or after it.
pub open spec fn standalone_at(a: Seq<u8>, f: Seq<u8>, s: int) -> bool {
    &&& 0 <= s
    &&& s + f.len() <= a.len()
    &&& a.subrange(s, s + f.len()) == f
    &&& (s == 0 || !alnum(a[s - 1]))
    &&& (s + f.len() == a.len() || !alnum(a[s + f.len()]))
}

/// `f` occurs in `a` as a standalone phrase.
pub open spec fn follows(a: Seq<u8>, f: Seq<u8>) -> bool {
    exists|s: int| standalone_at(a, f, s)
}

/// The search for an empty phrase, stepping one byte at a time from the
/// start of `a`, stops at `s`: `s` is standalone and every position it
/// stepped onto, `1..=s`, is a character boundary of `a`.
pub open spec fn empty_stop(a: Seq<u8>, s: int) -> bool {
    &&& standalone_at(a, Seq::<u8>::empty(), s)
    &&& forall|q: int| 0 < q <= s ==> boundary(a, q)
}

/// The search for phrase `f` in the window `a` breaks off. It resumes one
/// byte past each occurrence it rejects, and that position has to be a
/// character boundary inside `a`: an empty phrase breaks off unless it
/// stops at a standalone position first, and a phrase that opens with a
/// non-ASCII byte breaks off when its first occurrence is rejected.
pub open spec fn search_breaks(a: Seq<u8>, f: Seq<u8>) -> bool {
    if f.len() == 0 {
        !exists|s: int| #[trigger] empty_stop(a, s)
    } else if f[0] >= 0x80 {
        match find_from(a, f, 0) {
            Some(s) => !standalone_at(a, f, s),
            None => false,
        }
    } else {
        false
    }
}

/// None of the first `k` followers of `fs` stands in `a`.
pub open spec fn none_follow(a: Seq<u8>, fs: Seq<Seq<char>>, k: int) -> bool {
    forall|j: int| 0 <= j < k ==> !follows(a, encode_utf8(#[trigger] fs[j]))
}

/// Trying the followers `fs` in order on the window `a`, until one
/// stands, breaks off on none of them.
pub open spec fn followers_sound(a: Seq<u8>, fs: Seq<Seq<char>>) -> bool {
    forall|k: int|
        0 <= k < fs.len() && #[trigger] none_follow(a, fs, k) ==> !search_breaks(a, encode_utf8(fs[k]))
}

/// Whether a non-empty `f` occurs in `a` as a standalone phrase. Each
/// occurrence is tried in turn.
fn follows_in(a: &[u8], f: &[u8]) -> (r: bool)
    requires
        f@.len() > 0,
    ensures
        r == follows(a@, f@),
{
    let mut at: usize = 0;
    while at <= a.len()
        invariant
            f@.len() > 0,
            forall|s: int| 0 <= s < at ==> !standalone_at(a@, f@, s),
        decreases a@.len() + 1 - at,
    {
        proof {
            lemma_find_from(a@, f@, at as int);
            lemma_find_first(a@, f@, at as int);
        }
        match find_bytes(a, f, at) {
            Some(s) => {
                let e = s + f.len();
                let before_ok = s == 0 || !is_alnum(a[s - 1]);
                let after_ok = e == a.len() || !is_alnum(a[e]);
                if before_ok && after_ok {
                    assert(standalone_at(a@, f@, s as int));
                    return true;
                }
                assert forall|q: int| 0 <= q < s + 1 implies !standalone_at(a@, f@, q) by {
                    if at <= q < s {
                        assert(!(q + f@.len() <= a@.len() && a@.subrange(q, q + f@.len()) == f@));
                    }
                }
                at = s + 1;
            },
            None => {
                assert forall|q: int| 0 <= q implies !standalone_at(a@, f@, q) by {
                    if at <= q <= a@.len() {
                        assert(!(q + f@.len() <= a@.len() && a@.subrange(q, q + f@.len()) == f@));
                    }
                }
                return false;
            },
        }
    }
    assert forall|q: int| 0 <= q implies !standalone_at(a@, f@, q) by {
    }
    false
}

/// The first character boundary of `b` at or after `i`.
pub open spec fn next_boundary(b: Seq<u8>, i: int) -> int
    decreases b.len() - i,
{
    if i >= b.len() || boundary(b, i) {
        i
    } else {
        next_boundary(b, i + 1)
    }
}

/// The window after an emphasis span that ends at `end`: `within` bytes,
/// cut at the end of the text and widened to the next character boundary.
pub open spec fn window_stop(b: Seq<u8>, end: int, within: usize) -> int {
    next_boundary(b, if end + within < b.len() { end + within } else { b.len() as int })
}

/// The emphasized word: the inner text trimmed and ASCII-lowercased.
pub open spec fn emph_word(inner: Seq<u8>) -> Seq<u8> {
    let s = trim_start_at(inner, 0, inner.len() as int);
    lower(inner.subrange(s, trim_end_at(inner, s, inner.len() as int)))
}

/// Some text of `ws` is `w`, byte for byte.
pub open spec fn listed(ws: Seq<Seq<char>>, w: Seq<u8>) -> bool {
    exists|k: int| 0 <= k < ws.len() && encode_utf8(#[trigger] ws[k]) == w
}

/// Some follower of `fs` occurs standalone in `a`.
pub open spec fn followed(a: Seq<u8>, fs: Seq<Seq<char>>) -> bool {
    exists|k: int| 0 <= k < fs.len() && follows(a, encode_utf8(#[trigger] fs[k]))
}

/// An emphasis record stages a contrast: its word is one of `words` and a
/// follower phrase stands in the window after it.
pub open spec fn staged(
    b: Seq<u8>,
    e: (Range<usize>, String),
    words: Seq<Seq<char>>,
    followers: Seq<Seq<char>>,
    within: usize,
) -> bool {
    &&& listed(words, emph_word(encode_utf8(e.1@)))
    &&& followed(lower(b.subrange(e.0.end as int, window_stop(b, e.0.end as int, within))), followers)
}

/// Every emphasis span of `doc` is a slice of the text bytes `b`: in
/// order, in bounds, on character boundaries.
pub open spec fn emphasis_within(doc: Doc, b: Seq<u8>) -> bool {
    forall|i: int| 0 <= i < doc.emphasis@.len() ==> range_ok(b, #[trigger] doc.emphasis@[i].0)
}

/// The SLOP-E001 hits for the emphasis records `em`, in order.
pub open spec fn staged_hits(
    b: Seq<u8>,
    em: Seq<(Range<usize>, String)>,
    idx: usize,
    words: Seq<Seq<char>>,
    followers: Seq<Seq<char>>,
    within: usize,
) -> Seq<Hit>
    decreases em.len(),
{
    if em.len() == 0 {
        seq![]
    } else {
        staged_hits(b, em.drop_last(), idx, words, followers, within) + if staged(
            b,
            em.last(),
            words,
            followers,
            within,
        ) {
            seq![plain_hit(idx, em.last().0.start, em.last().0.end)]
        } else {
            seq![]
        }
    }
}

/// The window length SLOP-E001 reads after an emphasis: `followed_within`,
/// 120 by default.
pub open spec fn e001_window(rule: crate::policy::Rule) -> usize {
    match param_int(rule, "followed_within"@) {
        Some(v) => v as usize,
        None => 120,
    }
}

/// SLOP-E001: an emphasized contrast word followed, within the window, by
/// a follower phrase.
#[verifier::opaque]
pub open spec fn e001_hits(cp: CompiledPolicy, config: Config, doc: Doc, b: Seq<u8>) -> Seq<Hit> {
    match active_rule(cp.pkg, config.profile, "SLOP-E001"@) {
        None => seq![],
        Some(idx) => {
            let rule = cp.pkg.rules@[idx as int];
            staged_hits(
                b,
                doc.emphasis@,
                idx,
                param_strings(rule, "emphasized_words"@),
                param_strings(rule, "followed_by"@),
                e001_window(rule),
            )
        },
    }
}

/// SLOP-E003: at least `list_items_with_leading_bold_label` (3 by
/// default) list items open with a bold label; the hit covers the first.
#[verifier::opaque]
pub open spec fn e003_hits(cp: CompiledPolicy, config: Config, doc: Doc) -> Seq<Hit> {
    match active_rule(cp.pkg, config.profile, "SLOP-E003"@) {
        None => seq![],
        Some(idx) => {
            let min: u64 = match param_int(
                cp.pkg.rules@[idx as int],
                "list_items_with_leading_bold_label"@,
            ) {
                Some(v) => v as u64,
                None => 3,
            };
            if doc.stats.bold_label_items >= min {
                if doc.bold_label_ranges@.len() > 0 {
                    seq![plain_hit(idx, doc.bold_label_ranges@[0].start, doc.bold_label_ranges@[0].end)]
                } else {
                    seq![plain_hit(idx, 0, 0)]
                }
            } else {
                seq![]
            }
        },
    }
}

/// The hits of the emphasis family, E001 before E003.
pub open spec fn emphasis_hits(cp: CompiledPolicy, config: Config, doc: Doc, b: Seq<u8>) -> Seq<Hit> {
    e001_hits(cp, config, doc, b) + e003_hits(cp, config, doc)
}

/// The window text SLOP-E001 searches after an emphasis span that ends at
/// `end`, ASCII-lowercased.
pub open spec fn e001_window_text(b: Seq<u8>, end: int, within: usize) -> Seq<u8> {
    lower(b.subrange(end, window_stop(b, end, within)))
}

/// What SLOP-E001 needs of its inputs when it runs, for each emphasis whose
/// word is listed: the window end, `end + followed_within`, is a `usize`,
/// and the follower search on its window breaks off on no phrase.
pub open spec fn emphasis_fits(cp: CompiledPolicy, config: Config, doc: Doc, b: Seq<u8>) -> bool {
    match active_rule(cp.pkg, config.profile, "SLOP-E001"@) {
        None => true,
        Some(idx) => {
            let rule = cp.pkg.rules@[idx as int];
            forall|i: int|
                0 <= i < doc.emphasis@.len() && listed(
                    param_strings(rule, "emphasized_words"@),
                    emph_word(encode_utf8((#[trigger] doc.emphasis@[i]).1@)),
                ) ==> {
                    &&& doc.emphasis@[i].0.end + e001_window(rule) <= usize::MAX
                    &&& followers_sound(
                        e001_window_text(b, doc.emphasis@[i].0.end as int, e001_window(rule)),
                        param_strings(rule, "followed_by"@),
                    )
                }
        },
    }
}

/// Whether some text of `ws` is `w`.
fn listed_in(ws: &Vec<&str>, w: &[u8]) -> (r: bool)
    ensures
        r == listed(str_views(ws@), w@),
{
    let n = ws.len();
    for k in 0..n
        invariant
            n == ws@.len(),
            forall|q: int| 0 <= q < k ==> encode_utf8(#[trigger] str_views(ws@)[q]) != w@,
    {
        let t = ws[k].as_bytes();
        if bytes_equal_at(t, 0, t.len(), w) {
            assert(t@.subrange(0, t@.len() as int) =~= t@);
            assert(encode_utf8(str_views(ws@)[k as int]) == w@);
            return true;
        }
        assert(t@.subrange(0, t@.len() as int) =~= t@);
    }
    false
}

/// An empty phrase stands in `a` once its search stops.
proof fn lemma_empty_stop_follows(a: Seq<u8>, f: Seq<u8>)
    requires
        f.len() == 0,
        exists|s: int| #[trigger] empty_stop(a, s),
    ensures
        follows(a, f),
{
    let s = choose|s: int| #[trigger] empty_stop(a, s);
    assert(f =~= Seq::<u8>::empty());
    assert(standalone_at(a, f, s));
}

/// Whether some follower of `fs` stands in `a`, trying them in order.
fn followed_in(a: &[u8], fs: &Vec<&str>) -> (r: bool)
    requires
        followers_sound(a@, str_views(fs@)),
    ensures
        r == followed(a@, str_views(fs@)),
{
    let ghost fv = str_views(fs@);
    let n = fs.len();
    for k in 0..n
        invariant
            n == fs@.len(),
            fv == str_views(fs@),
            followers_sound(a@, fv),
            none_follow(a@, fv, k as int),
    {
        let f = fs[k].as_bytes();
        assert(encode_utf8(fv[k as int]) == f@);
        if f.len() == 0 {
            proof {
                assert(none_follow(a@, fv, k as int));
                assert(!search_breaks(a@, f@));
                lemma_empty_stop_follows(a@, f@);
            }
            return true;
        }
        if follows_in(a, f) {
            return true;
        }
        assert forall|j: int| 0 <= j < k + 1 implies !follows(a@, encode_utf8(#[trigger] fv[j])) by {
            if j < k {
                assert(none_follow(a@, fv, k as int));
            }
        }
    }
    false
}

/// Whether the search for an empty phrase in `a` stops at a standalone
/// position before it breaks off.
fn empty_search_stops(a: &[u8]) -> (r: bool)
    ensures
        r == exists|s: int| #[trigger] empty_stop(a@, s),
{
    let mut s: usize = 0;
    loop
        invariant
            s <= a@.len(),
            forall|q: int| 0 <= q < s ==> !standalone_at(a@, Seq::<u8>::empty(), q),
            forall|q: int| 0 < q <= s ==> boundary(a@, q),
        decreases a@.len() - s,
    {
        let before_ok = s == 0 || !is_alnum(a[s - 1]);
        let after_ok = s == a.len() || !is_alnum(a[s]);
        assert(a@.subrange(s as int, s as int) =~= Seq::<u8>::empty());
        if before_ok && after_ok {
            assert(empty_stop(a@, s as int));
            return true;
        }
        if s == a.len() || !is_boundary(a, s + 1) {
            assert forall|t: int| !(#[trigger] empty_stop(a@, t)) by {
                if empty_stop(a@, t) && t > s {
                    assert(boundary(a@, s + 1));
                }
            }
            return false;
        }
        s += 1;
    }
}

/// Whether the search for `f` in `a` breaks off.
fn search_breaks_in(a: &[u8], f: &[u8]) -> (r: bool)
    ensures
        r == search_breaks(a@, f@),
{
    if f.len() == 0 {
        !empty_search_stops(a)
    } else if f[0] >= 0x80u8 {
        let found = find_bytes(a, f, 0);
        match found {
            Some(s) => {
                let alen = a.len();
                assert(s + f@.len() <= alen);
                let e = s + f.len();
                let before_ok = s == 0 || !is_alnum(a[s - 1]);
                let after_ok = e == a.len() || !is_alnum(a[e]);
                proof {
                    lemma_find_from(a@, f@, 0);
                }
                !(before_ok && after_ok)
            },
            None => false,
        }
    } else {
        false
    }
}

/// Whether trying the followers `fs` in order on `a` breaks off on none.
fn followers_sound_in(a: &[u8], fs: &Vec<&str>) -> (r: bool)
    ensures
        r == followers_sound(a@, str_views(fs@)),
{
    let ghost fv = str_views(fs@);
    let n = fs.len();
    for k in 0..n
        invariant
            n == fs@.len(),
            fv == str_views(fs@),
            none_follow(a@, fv, k as int),
            forall|q: int|
                0 <= q < k && #[trigger] none_follow(a@, fv, q) ==> !search_breaks(
                    a@,
                    encode_utf8(fv[q]),
                ),
    {
        let f = fs[k].as_bytes();
        assert(encode_utf8(fv[k as int]) == f@);
        if search_breaks_in(a, f) {
            return false;
        }
        let stands = if f.len() == 0 {
            proof {
                lemma_empty_stop_follows(a@, f@);
            }
            true
        } else {
            follows_in(a, f)
        };
        if stands {
            assert forall|q: int|
                0 <= q < fv.len() && #[trigger] none_follow(a@, fv, q) implies !search_breaks(
                a@,
                encode_utf8(fv[q]),
            ) by {
                if q > k {
                    assert(!follows(a@, encode_utf8(fv[k as int])));
                }
            }
            return true;
        }
        assert forall|j: int| 0 <= j < k + 1 implies !follows(a@, encode_utf8(#[trigger] fv[j])) by {
            if j < k {
                assert(none_follow(a@, fv, k as int));
            }
        }
    }
    true
}

/// The first character boundary of `b` at or after `i`.
fn next_boundary_pos(b: &[u8], i: usize) -> (r: usize)
    requires
        i <= b@.len(),
    ensures
        r == next_boundary(b@, i as int),
        i <= r <= b@.len(),
{
    let mut j = i;
    while j < b.len() && !is_boundary(b, j)
        invariant
            i <= j <= b@.len(),
            next_boundary(b@, j as int) == next_boundary(b@, i as int),
        decreases b@.len() - j,
    {
        j += 1;
    }
    j
}

/// The window text after an emphasis span ending at `end`.
fn window_text(b: &[u8], end: usize, within: usize) -> (r: Vec<u8>)
    requires
        end <= b@.len(),
    ensures
        r@ == e001_window_text(b@, end as int, within),
{
    let target = if within < b.len() - end {
        end + within
    } else {
        b.len()
    };
    let stop = next_boundary_pos(b, target);
    lower_copy(b, end, stop)
}

/// The emphasized word of an emphasis record's inner text.
fn word_of(inner: &str) -> (r: Vec<u8>)
    ensures
        r@ == emph_word(encode_utf8(inner@)),
{
    let t = inner.as_bytes();
    let s = trim_start_pos(t, 0, t.len());
    let e = trim_end_pos(t, s, t.len());
    lower_copy(t, s, e)
}

fn check_e001(cp: &CompiledPolicy, src: &str, doc: &Doc, config: &Config, hits: &mut Vec<Hit>)
    requires
        package_fits(cp.pkg),
        emphasis_within(*doc, src.spec_bytes()),
        emphasis_fits(*cp, *config, *doc, src.spec_bytes()),
    ensures
        final(hits)@ == old(hits)@ + e001_hits(*cp, *config, *doc, src.spec_bytes()),
{
    proof {
        reveal(e001_hits);
    }
    let b = src.as_bytes();
    let idx = match active(cp, config, "SLOP-E001") {
        Some(i) => i,
        None => {
            return;
        },
    };
    let rule = &cp.pkg.rules[idx];
    let words = param_str_list(rule, "emphasized_words");
    let followers = param_str_list(rule, "followed_by");
    let within: usize = match param_i64(rule, "followed_within") {
        Some(v) => {
            #[verifier::truncate]
            (v as usize)
        },
        None => 120,
    };
    assert(within == e001_window(*rule));
    let ghost ws = str_views(words@);
    let ghost fs = str_views(followers@);
    let ghost start = hits@;
    let n = doc.emphasis.len();
    for i in 0..n
        invariant
            n == doc.emphasis@.len(),
            b@ == src.spec_bytes(),
            emphasis_within(*doc, b@),
            ws == str_views(words@),
            fs == str_views(followers@),
            forall|q: int|
                0 <= q < n && listed(ws, emph_word(encode_utf8((#[trigger] doc.emphasis@[q]).1@)))
                    ==> followers_sound(e001_window_text(b@, doc.emphasis@[q].0.end as int, within), fs),
            hits@ == start + staged_hits(b@, doc.emphasis@.take(i as int), idx, ws, fs, within),
    {
        assert(doc.emphasis@.take(i + 1).drop_last() =~= doc.emphasis@.take(i as int));
        assert(range_ok(b@, doc.emphasis@[i as int].0));
        let end = doc.emphasis[i].0.end;
        let w = word_of(doc.emphasis[i].1.as_str());
        let after = window_text(b, end, within);
        if listed_in(&words, w.as_slice()) && followed_in(after.as_slice(), &followers) {
            let r = &doc.emphasis[i].0;
            hits.push(Hit::new(idx, Range { start: r.start, end: r.end }));
        }
    }
    assert(doc.emphasis@.take(n as int) =~= doc.emphasis@);
}

/// Whether the inputs meet what SLOP-E001 needs of them
/// (`emphasis_fits`): for each emphasis whose word is listed, the window
/// end is a `usize` and no follower search on the window breaks off.
pub fn emphasis_inputs_fit(cp: &CompiledPolicy, prepared: &crate::input::Prepared, doc: &Doc, config: &Config) -> (r: bool)
    requires
        package_fits(cp.pkg),
        emphasis_within(*doc, encode_utf8(prepared.text@)),
    ensures
        r == emphasis_fits(*cp, *config, *doc, encode_utf8(prepared.text@)),
{
    let b = prepared.text.as_str().as_bytes();
    let idx = match active(cp, config, "SLOP-E001") {
        Some(i) => i,
        None => {
            return true;
        },
    };
    let rule = &cp.pkg.rules[idx];
    let words = param_str_list(rule, "emphasized_words");
    let followers = param_str_list(rule, "followed_by");
    let within: usize = match param_i64(rule, "followed_within") {
        Some(v) => {
            #[verifier::truncate]
            (v as usize)
        },
        None => 120,
    };
    assert(within == e001_window(*rule));
    let ghost ws = str_views(words@);
    let ghost fs = str_views(followers@);
    let n = doc.emphasis.len();
    for i in 0..n
        invariant
            n == doc.emphasis@.len(),
            b@ == encode_utf8(prepared.text@),
            emphasis_within(*doc, b@),
            active_rule(cp.pkg, config.profile, "SLOP-E001"@) == Some(idx),
            idx < cp.pkg.rules@.len(),
            *rule == cp.pkg.rules@[idx as int],
            within == e001_window(*rule),
            ws == param_strings(*rule, "emphasized_words"@),
            fs == param_strings(*rule, "followed_by"@),
            ws == str_views(words@),
            fs == str_views(followers@),
            forall|q: int|
                0 <= q < i && listed(ws, emph_word(encode_utf8((#[trigger] doc.emphasis@[q]).1@))) ==> {
                    &&& doc.emphasis@[q].0.end + within <= usize::MAX
                    &&& followers_sound(e001_window_text(b@, doc.emphasis@[q].0.end as int, within), fs)
                },
    {
        assert(range_ok(b@, doc.emphasis@[i as int].0));
        let end = doc.emphasis[i].0.end;
        let w = word_of(doc.emphasis[i].1.as_str());
        if listed_in(&words, w.as_slice()) {
            let ghost rl = cp.pkg.rules@[idx as int];
            let ghost e = doc.emphasis@[i as int];
            assert(rl == *rule);
            assert(listed(param_strings(rl, "emphasized_words"@), emph_word(encode_utf8(e.1@))));
            if within > usize::MAX - end {
                assert(!(e.0.end + e001_window(rl) <= usize::MAX));
                return false;
            }
            let after = window_text(b, end, within);
            if !followers_sound_in(after.as_slice(), &followers) {
                assert(!followers_sound(
                    e001_window_text(b@, e.0.end as int, e001_window(rl)),
                    param_strings(rl, "followed_by"@),
                ));
                return false;
            }
        }
    }
    true
}

fn check_e003(cp: &CompiledPolicy, doc: &Doc, config: &Config, hits: &mut Vec<Hit>)
    requires
        package_fits(cp.pkg),
    ensures
        final(hits)@ == old(hits)@ + e003_hits(*cp, *config, *doc),
{
    proof {
        reveal(e003_hits);
    }
    let idx = match active(cp, config, "SLOP-E003") {
        Some(i) => i,
        None => {
            return;
        },
    };
    let rule = &cp.pkg.rules[idx];
    let min: u64 = match param_i64(rule, "list_items_with_leading_bold_label") {
        Some(v) => {
            #[verifier::truncate]
            (v as u64)
        },
        None => 3,
    };
    if doc.stats.bold_label_items >= min {
        let span = if doc.bold_label_ranges.len() > 0 {
            Range { start: doc.bold_label_ranges[0].start, end: doc.bold_label_ranges[0].end }
        } else {
            Range { start: 0, end: 0 }
        };
        hits.push(Hit::new(idx, span));
    }
}

/// Runs SLOP-E001 and SLOP-E003, appending their hits.
pub fn evaluate(
    cp: &CompiledPolicy,
    prepared: &crate::input::Prepared,
    doc: &Doc,
    config: &Config,
    hits: &mut Vec<Hit>,
)
    requires
        package_fits(cp.pkg),
        emphasis_within(*doc, encode_utf8(prepared.text@)),
        emphasis_fits(*cp, *config, *doc, encode_utf8(prepared.text@)),
    ensures
        final(hits)@ == old(hits)@ + emphasis_hits(*cp, *config, *doc, encode_utf8(prepared.text@)),
{
    let src = prepared.text.as_str();
    let ghost h0 = hits@;
    check_e001(cp, src, doc, config, hits);
    let ghost h1 = hits@;
    check_e003(cp, doc, config, hits);
    assert(hits@ =~= h0 + emphasis_hits(*cp, *config, *doc, encode_utf8(prepared.text@)));
}

} // verus!
