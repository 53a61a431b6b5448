//! profile-contract family: per-profile mechanical format rules
//! SLOP-K001 through SLOP-K007. SLOP-K008 is a word-set rule served by the
//! engine.

use std::ops::Range;
use vstd::prelude::*;
use vstd::string::StringSliceAdditionalSpecFns;
use vstd::utf8::encode_utf8;
use crate::config::Config;
use crate::engine::{plain_hit, CompiledPolicy, Hit};
use crate::extract::{doc_fits, range_ok, Doc, Heading};
use crate::input::{lemma_line_split_exists, law_line_split_unique, line_ranges, lines_from};
use crate::policy::Rule;
use crate::rules::{active, active_rule, package_fits, param_i64, param_int};
use crate::input::{is_line_split, FormatData, ManifestInfo, Prepared};
use crate::text::{
    bytes_end_with, bytes_equal_at, bytes_start_with, collapse, collapse_ws, copy_range, starts_with, ends_with, lemma_trim_end_bounds, lemma_trim_start_bounds,
    trim_end_at, trim_end_pos, trim_start_at, trim_start_pos, word_end, word_end_pos,
    char_code_at, char_code_before, char_count, char_from_code, code_at, code_before, count_chars,
    find_bytes, find_from, lemma_find_from, lower, lower_copy, str_views, byte_views,
};
use crate::tomlv::{opt_array, toml_get, TomlValue};

verus! {

pub const HANDLED: [&'static str; 7] = [
    "SLOP-K001",
    "SLOP-K002",
    "SLOP-K003",
    "SLOP-K004",
    "SLOP-K005",
    "SLOP-K006",
    "SLOP-K007",
];

/// The character has the Unicode property XID_Continue.
pub uninterp spec fn xid_continue(c: char) -> bool;

/// `unicode_ident::is_xid_continue`: the contract claims the result is the
/// XID_Continue property of `c`, which depends on `c` alone.
#[verifier::external_body]
fn is_xid_continue(c: char) -> (r: bool)
    ensures
        r == xid_continue(c),
{
    unicode_ident::is_xid_continue(c)
}

/// The code `u` is a character with XID_Continue.
pub open spec fn code_is_ident(u: Option<u32>) -> bool {
    match u {
        Some(u) => vstd::utf8::is_scalar(u) && xid_continue(u as char),
        None => false,
    }
}

fn ident_code(u: Option<u32>) -> (r: bool)
    ensures
        r == code_is_ident(u),
{
    match u {
        Some(u) => match char_from_code(u) {
            Some(c) => is_xid_continue(c),
            None => false,
        },
        None => false,
    }
}

/// The occurrence `[s, e)` of a word in the lowercased title `h` stands
/// alone: no identifier character and no hyphen touches it on either side.
pub open spec fn standalone(h: Seq<u8>, s: int, e: int) -> bool {
    &&& !code_is_ident(code_before(h, 0, s))
    &&& !code_is_ident(code_at(h, e, h.len() as int))
    &&& !(s > 0 && h[s - 1] == 0x2d)
    &&& !(e < h.len() && h[e] == 0x2d)
}

/// The first standalone occurrence of `w` in `h` found by scanning from
/// `at`, each search resuming after the previous occurrence. An empty word
/// is tried at `at` only.
pub open spec fn word_hit_from(h: Seq<u8>, w: Seq<u8>, at: int) -> Option<int>
    decreases h.len() + 1 - at,
{
    match find_from(h, w, at) {
        None => None,
        Some(s) => if standalone(h, s, s + w.len()) {
            Some(s)
        } else if w.len() == 0 || s + w.len() > h.len() || s < at {
            None
        } else {
            word_hit_from(h, w, s + w.len())
        },
    }
}

/// Where `word` occurs as a standalone word in `b[lo, hi)`, compared
/// case-insensitively for ASCII letters in the title, as a span of `b`.
pub open spec fn word_hit_span(b: Seq<u8>, lo: int, hi: int, w: Seq<u8>) -> Option<Range<usize>> {
    match word_hit_from(lower(b.subrange(lo, hi)), w, 0) {
        Some(s) => Some(Range { start: (lo + s) as usize, end: (lo + s + w.len()) as usize }),
        None => None,
    }
}

fn word_hit_in(b: &[u8], lo: usize, hi: usize, word: &[u8]) -> (r: Option<Range<usize>>)
    requires
        lo <= hi <= b@.len(),
    ensures
        r == word_hit_span(b@, lo as int, hi as int, word@),
{
    let h = lower_copy(b, lo, hi);
    let hl = h.len();
    let mut at: usize = 0;
    loop
        invariant
            h@ == lower(b@.subrange(lo as int, hi as int)),
            hl == h@.len(),
            hl == hi - lo,
            lo <= hi <= b@.len(),
            at <= hl,
            word_hit_from(h@, word@, 0) == word_hit_from(h@, word@, at as int),
        decreases hl + 1 - at,
    {
        proof {
            lemma_find_from(h@, word@, at as int);
        }
        let s = match find_bytes(h.as_slice(), word, at) {
            Some(s) => s,
            None => {
                return None;
            },
        };
        let e = s + word.len();
        let before = ident_code(char_code_before(h.as_slice(), 0, s));
        let after = ident_code(char_code_at(h.as_slice(), e, hl));
        let hyphenated = (s > 0 && h[s - 1] == 0x2du8) || (e < hl && h[e] == 0x2du8);
        if !before && !after && !hyphenated {
            return Some((lo + s)..(lo + e));
        }
        if word.len() == 0 {
            return None;
        }
        at = e;
    }
}


/// The strings among the values `a`, in order.
pub open spec fn strings_of(a: Seq<TomlValue>) -> Seq<Seq<char>>
    decreases a.len(),
{
    if a.len() == 0 {
        seq![]
    } else {
        strings_of(a.drop_last()) + match a.last() {
            TomlValue::String(s) => seq![s@],
            _ => seq![],
        }
    }
}

/// The string entries of the array parameter `key` of a rule; empty when
/// the parameter is absent or not an array.
pub open spec fn param_strings(rule: Rule, key: Seq<char>) -> Seq<Seq<char>> {
    match opt_array(toml_get(rule.params, key)) {
        Some(a) => strings_of(a),
        None => seq![],
    }
}

/// The string entries of an array parameter.
pub(crate) fn param_str_list<'a>(rule: &'a Rule, key: &str) -> (r: Vec<&'a str>)
    ensures
        str_views(r@) == param_strings(*rule, key@),
{
    let mut out: Vec<&'a str> = Vec::new();
    match rule.params.get(key) {
        Some(v) => match v.as_array() {
            Some(a) => {
                let n = a.len();
                for i in 0..n
                    invariant
                        n == a@.len(),
                        str_views(out@) == strings_of(a@.take(i as int)),
                {
                    assert(a@.take(i + 1).drop_last() =~= a@.take(i as int));
                    match &a[i] {
                        TomlValue::String(t) => {
                            out.push(t.as_str());
                            assert(str_views(out@) =~= strings_of(a@.take(i as int)) + seq![t@]);
                        },
                        _ => {},
                    }
                }
                assert(a@.take(n as int) =~= a@);
            },
            None => {
                assert(str_views(out@) =~= seq![]);
            },
        },
        None => {
            assert(str_views(out@) =~= seq![]);
        },
    }
    out
}

/// The span and the text of the title a bug report is judged by: the
/// first heading, or the first line when there is no heading.
pub open spec fn title_of(doc: Doc, b: Seq<u8>) -> (Range<usize>, Seq<u8>) {
    if doc.headings@.len() > 0 {
        (doc.headings@[0].text_range, encode_utf8(doc.headings@[0].text@))
    } else {
        let r = lines_from(b, 0, 0)[0];
        (Range { start: r.start, end: r.end }, b.subrange(r.start as int, r.end as int))
    }
}

/// One hit per forbidden word that stands alone in the title `tr`.
pub open spec fn forbidden_word_hits(b: Seq<u8>, tr: Range<usize>, idx: usize, words: Seq<Seq<char>>) -> Seq<Hit>
    decreases words.len(),
{
    if words.len() == 0 {
        seq![]
    } else {
        forbidden_word_hits(b, tr, idx, words.drop_last()) + match word_hit_span(
            b,
            tr.start as int,
            tr.end as int,
            encode_utf8(words.last()),
        ) {
            Some(sp) => seq![plain_hit(idx, sp.start, sp.end)],
            None => seq![],
        }
    }
}

/// The integer parameter, or the default, read as `usize` the way `as`
/// converts it.
pub open spec fn param_usize(rule: Rule, key: Seq<char>, default: i64) -> usize {
    match param_int(rule, key) {
        Some(v) => v as usize,
        None => default as usize,
    }
}

/// SLOP-K001: the title is at most `max_title_chars` characters (80 by
/// default) and holds none of the forbidden title words.
#[verifier::opaque]
pub open spec fn k001_hits(cp: CompiledPolicy, config: Config, doc: Doc, b: Seq<u8>) -> Seq<Hit> {
    match active_rule(cp.pkg, config.profile, "SLOP-K001"@) {
        None => seq![],
        Some(idx) => {
            let rule = cp.pkg.rules@[idx as int];
            let (tr, tb) = title_of(doc, b);
            let max = param_usize(rule, "max_title_chars"@, 80);
            (if char_count(tb) > max {
                seq![plain_hit(idx, tr.start, tr.end)]
            } else {
                seq![]
            }) + forbidden_word_hits(b, tr, idx, param_strings(rule, "forbid_title_words"@))
        },
    }
}

/// The span of the title a bug report is judged by.
fn title_span(src: &str, doc: &Doc) -> (r: Range<usize>)
    requires
        doc_fits(*doc, src.spec_bytes()),
    ensures
        r == title_of(*doc, src.spec_bytes()).0,
        r.start <= r.end <= src.spec_bytes().len(),
{
    let b = src.as_bytes();
    if doc.headings.len() > 0 {
        assert(range_ok(b@, doc.headings@[0].text_range));
        let r = &doc.headings[0].text_range;
        Range { start: r.start, end: r.end }
    } else {
        let lines = line_ranges(src);
        proof {
            lemma_line_split_exists(b@);
            law_line_split_unique(b@, lines@, lines_from(b@, 0, 0));
        }
        assert(lines@[0].end <= b@.len()) by {
            if lines@.len() > 1 {
                assert(crate::input::closed_line(b@, lines@[0], lines@[1].start - 1));
            }
        }
        Range { start: lines[0].start, end: lines[0].end }
    }
}

/// What SLOP-K001 needs of its inputs when it runs: the search for an empty
/// forbidden word never moves past the start of the title, so it ends only
/// where the word stands alone there.
pub open spec fn k001_fits(cp: CompiledPolicy, config: Config, doc: Doc, b: Seq<u8>) -> bool {
    match active_rule(cp.pkg, config.profile, "SLOP-K001"@) {
        None => true,
        Some(idx) => {
            let tr = title_of(doc, b).0;
            let ws = param_strings(cp.pkg.rules@[idx as int], "forbid_title_words"@);
            forall|k: int|
                0 <= k < ws.len() && encode_utf8(#[trigger] ws[k]).len() == 0 ==> standalone(
                    lower(b.subrange(tr.start as int, tr.end as int)),
                    0,
                    0,
                )
        },
    }
}

/// Whether the inputs meet what SLOP-K001 needs of them (`k001_fits`).
pub fn k001_inputs_fit(cp: &CompiledPolicy, prepared: &Prepared, doc: &Doc, config: &Config) -> (r: bool)
    requires
        package_fits(cp.pkg),
        doc_fits(*doc, encode_utf8(prepared.text@)),
    ensures
        r == k001_fits(*cp, *config, *doc, encode_utf8(prepared.text@)),
{
    let src = prepared.text.as_str();
    let b = src.as_bytes();
    let idx = match active(cp, config, "SLOP-K001") {
        Some(i) => i,
        None => {
            return true;
        },
    };
    let words = param_str_list(&cp.pkg.rules[idx], "forbid_title_words");
    let ghost ws = str_views(words@);
    let mut empty_word = false;
    let n = words.len();
    for k in 0..n
        invariant
            n == words@.len(),
            ws == str_views(words@),
            empty_word <==> exists|q: int| 0 <= q < k && encode_utf8(#[trigger] ws[q]).len() == 0,
    {
        assert(encode_utf8(ws[k as int]) == words[k as int].spec_bytes());
        if words[k].as_bytes().len() == 0 {
            empty_word = true;
        }
    }
    if !empty_word {
        return true;
    }
    let tr = title_span(src, doc);
    let h = lower_copy(b, tr.start, tr.end);
    let hl = h.len();
    let first_ident = ident_code(char_code_at(h.as_slice(), 0, hl));
    let r = !first_ident && !(0 < hl && h[0] == 0x2du8);
    assert(code_before(h@, 0, 0) is None);
    r
}

fn check_k001(cp: &CompiledPolicy, src: &str, doc: &Doc, config: &Config, hits: &mut Vec<Hit>)
    requires
        package_fits(cp.pkg),
        doc_fits(*doc, src.spec_bytes()),
    ensures
        final(hits)@ == old(hits)@ + k001_hits(*cp, *config, *doc, src.spec_bytes()),
{
    proof {
        reveal(k001_hits);
    }
    let b = src.as_bytes();
    let idx = match active(cp, config, "SLOP-K001") {
        Some(i) => i,
        None => {
            return;
        },
    };
    let rule = &cp.pkg.rules[idx];
    let tr0 = title_span(src, doc);
    let title_start = tr0.start;
    let title_end = tr0.end;
    let title_chars = if doc.headings.len() > 0 {
        let tb = doc.headings[0].text.as_str().as_bytes();
        assert(tb@.subrange(0, tb@.len() as int) =~= tb@);
        count_chars(tb, 0, tb.len())
    } else {
        count_chars(b, title_start, title_end)
    };
    let max_chars = match param_i64(rule, "max_title_chars") {
        Some(v) => #[verifier::truncate] (v as usize),
        None => 80usize,
    };
    let ghost before = hits@;
    if title_chars > max_chars {
        hits.push(Hit::new(idx, title_start..title_end));
    }
    let ghost after_len = hits@;
    let words = param_str_list(rule, "forbid_title_words");
    let ghost tr = Range { start: title_start, end: title_end };
    let n = words.len();
    for k in 0..n
        invariant
            n == words@.len(),
            title_start <= title_end <= b@.len(),
            tr == (Range { start: title_start, end: title_end }),
            hits@ == after_len + forbidden_word_hits(
                b@,
                tr,
                idx,
                str_views(words@).take(k as int),
            ),
    {
        let w = words[k];
        let ghost ws = str_views(words@);
        assert(ws.take(k + 1).drop_last() =~= ws.take(k as int));
        assert(ws.take(k + 1).last() == w@);
        let ghost prev = hits@;
        let wb = w.as_bytes();
        assert(wb@ == encode_utf8(ws.take(k + 1).last()));
        let ghost wsk = ws.take(k + 1);
        assert(wsk.len() > 0);
        assert(forbidden_word_hits(b@, tr, idx, wsk) == forbidden_word_hits(b@, tr, idx, wsk.drop_last()) + match word_hit_span(
            b@,
            tr.start as int,
            tr.end as int,
            encode_utf8(wsk.last()),
        ) {
            Some(sp) => seq![plain_hit(idx, sp.start, sp.end)],
            None => seq![],
        });
        assert(forbidden_word_hits(b@, tr, idx, ws.take(k + 1)) == forbidden_word_hits(b@, tr, idx, ws.take(k as int)) + match word_hit_span(
            b@,
            title_start as int,
            title_end as int,
            wb@,
        ) {
            Some(sp) => seq![plain_hit(idx, sp.start, sp.end)],
            None => seq![],
        });
        match word_hit_in(b, title_start, title_end, wb) {
            Some(sp) => {
                hits.push(Hit::new(idx, sp));
            },
            None => {},
        }
        assert(hits@ =~= after_len + forbidden_word_hits(b@, tr, idx, ws.take(k + 1)));
    }
    assert(str_views(words@).take(n as int) =~= str_views(words@));
}


/// The character has the Unicode property Uppercase.
pub uninterp spec fn char_uppercase(c: char) -> bool;

/// `char::is_uppercase`: the contract claims the result is the Uppercase
/// property of `c`, which depends on `c` alone.
#[verifier::external_body]
fn is_uppercase(c: char) -> (r: bool)
    ensures
        r == char_uppercase(c),
{
    c.is_uppercase()
}

/// Every byte is an ASCII lowercase letter.
pub open spec fn all_lower_ascii(b: Seq<u8>) -> bool {
    forall|i: int| 0 <= i < b.len() ==> 0x61 <= #[trigger] b[i] <= 0x7a
}

/// The first `t` bytes of `h` are its leading run of ASCII lowercase
/// letters.
pub open spec fn lower_run(h: Seq<u8>, t: int) -> bool {
    &&& 0 <= t <= h.len()
    &&& all_lower_ascii(h.take(t))
    &&& (t == h.len() || !(0x61 <= h[t] <= 0x7a))
}

/// A scope in parentheses, non-empty, optionally followed by `!`:
/// `(scope)` or `(scope)!`.
pub open spec fn scope_part(s: Seq<u8>) -> bool {
    &&& s.len() >= 3
    &&& s[0] == 0x28
    &&& ((s.last() == 0x29) || (s.len() >= 4 && s.last() == 0x21 && s[s.len() - 2] == 0x29))
}

/// What may follow the type in a conventional-commit head: up to two
/// `!`, or a scope with an optional `!` on either side.
pub open spec fn head_rest(r: Seq<u8>) -> bool {
    ||| r.len() == 0
    ||| r == seq![0x21u8]
    ||| r == seq![0x21u8, 0x21u8]
    ||| scope_part(r)
    ||| (r.len() > 0 && r[0] == 0x21 && scope_part(r.drop_first()))
}

/// A conventional-commit head: a non-empty lowercase ASCII type followed
/// by what `head_rest` allows.
pub open spec fn conv_head(h: Seq<u8>) -> bool {
    exists|t: int| #[trigger] lower_run(h, t) && t >= 1 && head_rest(h.skip(t))
}

/// Where the description starts after a conventional-commit prefix, when
/// the subject has one: the text up to the first colon is a
/// conventional-commit head (`type`, `type!`, `type(scope)`,
/// `type(scope)!`, ...), and a space follows the colon.
pub open spec fn conv_prefix(sb: Seq<u8>) -> Option<int> {
    match find_from(sb, seq![0x3au8], 0) {
        None => None,
        Some(colon) => if conv_head(sb.take(colon)) && colon + 1 < sb.len() && sb[colon + 1] == 0x20 {
            Some(colon + 2)
        } else {
            None
        },
    }
}

/// The leading run of lowercase letters is unique.
proof fn lemma_lower_run_unique(h: Seq<u8>, t: int, u: int)
    requires
        lower_run(h, t),
        lower_run(h, u),
    ensures
        t == u,
{
    if t < u {
        assert(h.take(u)[t] == h[t]);
    } else if u < t {
        assert(h.take(t)[u] == h[u]);
    }
}

/// Whether `h[lo..]` is a scope part.
fn scope_part_at(h: &[u8], lo: usize) -> (r: bool)
    requires
        lo <= h@.len(),
    ensures
        r == scope_part(h@.skip(lo as int)),
{
    let n = h.len() - lo;
    let r = n >= 3 && h[lo] == 0x28u8 && (h[h.len() - 1] == 0x29u8 || (n >= 4 && h[h.len() - 1] == 0x21u8
        && h[h.len() - 2] == 0x29u8));
    r
}

fn conventional_prefix(sb: &[u8]) -> (r: Option<usize>)
    ensures
        r is Some <==> conv_prefix(sb@) is Some,
        r matches Some(i) ==> conv_prefix(sb@) == Some(i as int) && i <= sb@.len(),
{
    proof {
        lemma_find_from(sb@, seq![0x3au8], 0);
    }
    let colon_pat: Vec<u8> = vec![0x3au8];
    assert(colon_pat@ =~= seq![0x3au8]);
    let colon = match find_bytes(sb, colon_pat.as_slice(), 0) {
        Some(c) => c,
        None => {
            return None;
        },
    };
    assert(find_from(sb@, seq![0x3au8], 0) == Some(colon as int));
    let head = copy_range(sb, 0, colon);
    assert(head@ =~= sb@.take(colon as int));
    let hl = head.len();
    let mut t: usize = 0;
    while t < hl && 0x61u8 <= head[t] && head[t] <= 0x7au8
        invariant
            t <= hl,
            hl == head@.len(),
            all_lower_ascii(head@.take(t as int)),
        decreases hl - t,
    {
        assert(head@.take(t + 1) =~= head@.take(t as int).push(head@[t as int]));
        t += 1;
    }
    assert(lower_run(head@, t as int));
    let rest_ok = if t == 0 {
        false
    } else {
        let n = hl - t;
        let bangs = n == 0 || (n == 1 && head[t] == 0x21u8) || (n == 2 && head[t] == 0x21u8 && head[t
            + 1] == 0x21u8);
        let scoped = scope_part_at(head.as_slice(), t);
        let bang_scoped = n > 0 && head[t] == 0x21u8 && scope_part_at(head.as_slice(), t + 1);
        let ghost r = head@.skip(t as int);
        if n > 0 {
            assert(r.drop_first() =~= head@.skip(t + 1));
        }
        if n == 1 {
            assert(r =~= seq![head@[t as int]]);
        }
        if n == 2 {
            assert(r =~= seq![head@[t as int], head@[t + 1]]);
        }
        assert(bangs == (r.len() == 0 || r == seq![0x21u8] || r == seq![0x21u8, 0x21u8])) by {
            if r == seq![0x21u8] {
                assert(r[0] == 0x21u8);
            }
            if r == seq![0x21u8, 0x21u8] {
                assert(r[0] == 0x21u8 && r[1] == 0x21u8);
            }
        }
        bangs || scoped || bang_scoped
    };
    assert(rest_ok == conv_head(head@)) by {
        if conv_head(head@) {
            let u = choose|u: int| #[trigger] lower_run(head@, u) && u >= 1 && head_rest(head@.skip(u));
            lemma_lower_run_unique(head@, t as int, u);
        }
    }
    if !rest_ok {
        return None;
    }
    if !(colon < sb.len() - 1 && sb[colon + 1] == 0x20u8) {
        return None;
    }
    Some(colon + 2)
}

/// The byte strings "ed", "ing", "s" and "ss".
pub open spec fn suffix_ed() -> Seq<u8> {
    seq![0x65u8, 0x64u8]
}

pub open spec fn suffix_ing() -> Seq<u8> {
    seq![0x69u8, 0x6eu8, 0x67u8]
}

pub open spec fn suffix_s() -> Seq<u8> {
    seq![0x73u8]
}

pub open spec fn suffix_ss() -> Seq<u8> {
    seq![0x73u8, 0x73u8]
}

/// The first word looks past-tense, progressive, or third-person: it ends
/// in `ed`, in `ing` (longer than four bytes), or in a single `s` (longer
/// than three bytes), compared in ASCII lowercase.
pub open spec fn non_imperative(w: Seq<u8>) -> bool {
    let l = lower(w);
    ||| ends_with(l, suffix_ed())
    ||| (ends_with(l, suffix_ing()) && l.len() > 4)
    ||| (ends_with(l, suffix_s()) && !ends_with(l, suffix_ss()) && l.len() > 3)
}

/// The word starts with an uppercase character.
pub open spec fn starts_upper(w: Seq<u8>) -> bool {
    match code_at(w, 0, w.len() as int) {
        Some(u) => vstd::utf8::is_scalar(u) && char_uppercase(u as char),
        None => false,
    }
}

/// SLOP-K002 on a commit subject `[lo, hi)` of `b`: at most
/// `max_subject_chars` characters (72 by default), no trailing period, a
/// conventional prefix, and an imperative first word after it (a candidate
/// finding otherwise).
pub open spec fn k002_subject_hits(b: Seq<u8>, lo: usize, hi: usize, idx: usize, max: usize) -> Seq<Hit> {
    let sb = b.subrange(lo as int, hi as int);
    let e = trim_end_at(sb, 0, sb.len() as int);
    (if char_count(sb) > max {
        seq![plain_hit(idx, lo, hi)]
    } else {
        seq![]
    }) + (if e > 0 && sb[e - 1] == 0x2e {
        seq![plain_hit(idx, lo, hi)]
    } else {
        seq![]
    }) + match conv_prefix(sb) {
        None => seq![plain_hit(idx, lo, hi)],
        Some(rest_at) => {
            let ws = trim_start_at(sb, rest_at, sb.len() as int);
            let we = word_end(sb, ws, sb.len() as int);
            let w = sb.subrange(ws, we);
            if starts_upper(w) || non_imperative(w) {
                let s = (lo + rest_at) as usize;
                seq![
                    Hit {
                        rule: idx,
                        span: Range { start: s, end: (s + w.len()) as usize },
                        force_candidate: true,
                        force_hint: false,
                    },
                ]
            } else {
                seq![]
            }
        },
    }
}

/// SLOP-K002: the commit subject format, for commit input.
#[verifier::opaque]
pub open spec fn k002_hits(cp: CompiledPolicy, config: Config, format: FormatData, b: Seq<u8>) -> Seq<Hit> {
    match active_rule(cp.pkg, config.profile, "SLOP-K002"@) {
        None => seq![],
        Some(idx) => match format {
            FormatData::Commit(split) => k002_subject_hits(
                b,
                split.subject.start,
                split.subject.end,
                idx,
                param_usize(cp.pkg.rules@[idx as int], "max_subject_chars"@, 72),
            ),
            _ => seq![],
        },
    }
}

#[verifier::spinoff_prover]
#[verifier::rlimit(30)]
fn check_k002(cp: &CompiledPolicy, src: &str, format: &FormatData, config: &Config, hits: &mut Vec<Hit>)
    requires
        package_fits(cp.pkg),
        format matches FormatData::Commit(split) ==> range_ok(src.spec_bytes(), split.subject),
    ensures
        final(hits)@ == old(hits)@ + k002_hits(*cp, *config, *format, src.spec_bytes()),
{
    proof {
        reveal(k002_hits);
    }
    let b = src.as_bytes();
    let idx = match active(cp, config, "SLOP-K002") {
        Some(i) => i,
        None => {
            return;
        },
    };
    let split = match format {
        FormatData::Commit(split) => split,
        _ => {
            return;
        },
    };
    let rule = &cp.pkg.rules[idx];
    let lo = split.subject.start;
    let hi = split.subject.end;
    let sb = copy_range(b, lo, hi);
    let sl = sb.len();
    let max_chars = match param_i64(rule, "max_subject_chars") {
        Some(v) => #[verifier::truncate] (v as usize),
        None => 72usize,
    };
    let ghost start = hits@;
    let n = count_chars(sb.as_slice(), 0, sl);
    assert(sb@.subrange(0, sl as int) =~= sb@);
    if n > max_chars {
        hits.push(Hit::new(idx, lo..hi));
    }
    let e = trim_end_pos(sb.as_slice(), 0, sl);
    if e > 0 && sb[e - 1] == 0x2eu8 {
        hits.push(Hit::new(idx, lo..hi));
    }
    match conventional_prefix(sb.as_slice()) {
        None => {
            hits.push(Hit::new(idx, lo..hi));
        },
        Some(rest_at) => {
            proof {
                lemma_conv_prefix_bound(sb@);
            }
            let ws = trim_start_pos(sb.as_slice(), rest_at, sl);
            let we = word_end_pos(sb.as_slice(), ws, sl);
            let w = copy_range(sb.as_slice(), ws, we);
            let upper = match char_code_at(w.as_slice(), 0, w.len()) {
                Some(u) => match char_from_code(u) {
                    Some(c) => is_uppercase(c),
                    None => false,
                },
                None => false,
            };
            let l = lower_copy(w.as_slice(), 0, w.len());
            assert(w@.subrange(0, w@.len() as int) =~= w@);
            let ed: Vec<u8> = vec![0x65u8, 0x64u8];
            let ing: Vec<u8> = vec![0x69u8, 0x6eu8, 0x67u8];
            let s1: Vec<u8> = vec![0x73u8];
            let ss: Vec<u8> = vec![0x73u8, 0x73u8];
            assert(ed@ =~= suffix_ed());
            assert(ing@ =~= suffix_ing());
            assert(s1@ =~= suffix_s());
            assert(ss@ =~= suffix_ss());
            let non_imp = bytes_end_with(l.as_slice(), ed.as_slice()) || (bytes_end_with(
                l.as_slice(),
                ing.as_slice(),
            ) && l.len() > 4) || (bytes_end_with(l.as_slice(), s1.as_slice()) && !bytes_end_with(
                l.as_slice(),
                ss.as_slice(),
            ) && l.len() > 3);
            if upper || non_imp {
                let s = lo + rest_at;
                hits.push(
                    Hit {
                        rule: idx,
                        span: s..(s + w.len()),
                        force_candidate: true,
                        force_hint: false,
                    },
                );
            }
        },
    }
    assert(hits@ =~= start + k002_hits(*cp, *config, *format, b@));
}

pub(crate) proof fn lemma_conv_prefix_bound(sb: Seq<u8>)
    ensures
        conv_prefix(sb) matches Some(i) ==> i <= sb.len(),
{
    lemma_find_from(sb, seq![0x3au8], 0);
}


pub open spec fn digit(c: u8) -> bool {
    0x30 <= c <= 0x39
}

/// An ISO date `dddd-dd-dd` starts at `i`.
pub open spec fn iso_date_at(s: Seq<u8>, i: int) -> bool {
    &&& 0 <= i
    &&& i + 10 <= s.len()
    &&& digit(s[i]) && digit(s[i + 1]) && digit(s[i + 2]) && digit(s[i + 3])
    &&& s[i + 4] == 0x2d
    &&& digit(s[i + 5]) && digit(s[i + 6])
    &&& s[i + 7] == 0x2d
    &&& digit(s[i + 8]) && digit(s[i + 9])
}

/// Some `dddd-dd-dd` occurs in `s`.
pub open spec fn has_iso_date_spec(s: Seq<u8>) -> bool {
    exists|i: int| #[trigger] iso_date_at(s, i)
}

fn is_digit(c: u8) -> (r: bool)
    ensures
        r == digit(c),
{
    0x30u8 <= c && c <= 0x39u8
}

fn has_iso_date(s: &[u8]) -> (r: bool)
    ensures
        r == has_iso_date_spec(s@),
{
    if s.len() < 10 {
        return false;
    }
    let last = s.len() - 10;
    let mut i: usize = 0;
    while i <= last
        invariant
            last + 10 == s@.len(),
            forall|j: int| 0 <= j < i ==> !#[trigger] iso_date_at(s@, j),
        decreases last + 1 - i,
    {
        if is_digit(s[i]) && is_digit(s[i + 1]) && is_digit(s[i + 2]) && is_digit(s[i + 3]) && s[i
            + 4] == 0x2du8 && is_digit(s[i + 5]) && is_digit(s[i + 6]) && s[i + 7] == 0x2du8
            && is_digit(s[i + 8]) && is_digit(s[i + 9]) {
            assert(iso_date_at(s@, i as int));
            return true;
        }
        i += 1;
    }
    false
}

/// Some byte of `s` is `c`.
pub open spec fn has_byte(s: Seq<u8>, c: u8) -> bool {
    exists|i: int| 0 <= i < s.len() && s[i] == c
}

/// Some byte of `s` is an ASCII digit.
pub open spec fn has_digit(s: Seq<u8>) -> bool {
    exists|i: int| 0 <= i < s.len() && digit(s[i])
}

fn contains_byte(s: &[u8], c: u8) -> (r: bool)
    ensures
        r == has_byte(s@, c),
{
    let mut i: usize = 0;
    while i < s.len()
        invariant
            i <= s@.len(),
            forall|j: int| 0 <= j < i ==> s@[j] != c,
        decreases s@.len() - i,
    {
        if s[i] == c {
            return true;
        }
        i += 1;
    }
    false
}

fn contains_digit(s: &[u8]) -> (r: bool)
    ensures
        r == has_digit(s@),
{
    let mut i: usize = 0;
    while i < s.len()
        invariant
            i <= s@.len(),
            forall|j: int| 0 <= j < i ==> !digit(s@[j]),
        decreases s@.len() - i,
    {
        if is_digit(s[i]) {
            return true;
        }
        i += 1;
    }
    false
}

/// A heading name that names a release: it has a digit and a `.`, `v`
/// or `[`.
pub open spec fn version_like(name: Seq<u8>) -> bool {
    has_digit(name) && (has_byte(name, 0x2e) || has_byte(name, 0x76) || has_byte(name, 0x5b))
}

/// The UTF-8 bytes of one of the strings in `list` are `name`.
pub open spec fn listed(name: Seq<u8>, list: Seq<Seq<char>>) -> bool {
    exists|k: int| 0 <= k < list.len() && encode_utf8(list[k]) == name
}

fn in_list(name: &[u8], list: &Vec<&str>) -> (r: bool)
    ensures
        r == listed(name@, str_views(list@)),
{
    let ghost l = str_views(list@);
    let mut k: usize = 0;
    while k < list.len()
        invariant
            l == str_views(list@),
            k <= list@.len(),
            forall|j: int| 0 <= j < k ==> encode_utf8(l[j]) != name@,
        decreases list@.len() - k,
    {
        let w = list[k].as_bytes();
        if bytes_equal_at(w, 0, w.len(), name) {
            assert(w@.subrange(0, w@.len() as int) =~= w@);
            assert(encode_utf8(l[k as int]) == name@);
            return true;
        }
        assert(w@.subrange(0, w@.len() as int) =~= w@);
        k += 1;
    }
    false
}

/// The SLOP-K003 findings for one changelog heading: below the title
/// level, a heading must be a whitelisted section name, or a release
/// heading that carries an ISO date.
pub open spec fn k003_heading(h: Heading, idx: usize, wl: Seq<Seq<char>>) -> Seq<Hit> {
    let name = lower(encode_utf8(h.text@));
    if h.level < 2 || listed(name, wl) {
        seq![]
    } else if version_like(name) {
        if has_iso_date_spec(name) {
            seq![]
        } else {
            seq![plain_hit(idx, h.text_range.start, h.text_range.end)]
        }
    } else {
        seq![plain_hit(idx, h.text_range.start, h.text_range.end)]
    }
}

pub open spec fn k003_headings(hs: Seq<Heading>, idx: usize, wl: Seq<Seq<char>>) -> Seq<Hit>
    decreases hs.len(),
{
    if hs.len() == 0 {
        seq![]
    } else {
        k003_headings(hs.drop_last(), idx, wl) + k003_heading(hs.last(), idx, wl)
    }
}

/// SLOP-K003: changelog structure.
#[verifier::opaque]
pub open spec fn k003_hits(cp: CompiledPolicy, config: Config, doc: Doc) -> Seq<Hit> {
    match active_rule(cp.pkg, config.profile, "SLOP-K003"@) {
        None => seq![],
        Some(idx) => k003_headings(
            doc.headings@,
            idx,
            param_strings(cp.pkg.rules@[idx as int], "section_whitelist"@),
        ),
    }
}

fn check_k003(cp: &CompiledPolicy, doc: &Doc, config: &Config, hits: &mut Vec<Hit>)
    requires
        package_fits(cp.pkg),
    ensures
        final(hits)@ == old(hits)@ + k003_hits(*cp, *config, *doc),
{
    proof {
        reveal(k003_hits);
    }
    let idx = match active(cp, config, "SLOP-K003") {
        Some(i) => i,
        None => {
            return;
        },
    };
    let rule = &cp.pkg.rules[idx];
    let whitelist = param_str_list(rule, "section_whitelist");
    let ghost wl = str_views(whitelist@);
    let ghost start = hits@;
    let n = doc.headings.len();
    for i in 0..n
        invariant
            n == doc.headings@.len(),
            wl == str_views(whitelist@),
            hits@ == start + k003_headings(doc.headings@.take(i as int), idx, wl),
    {
        let h = &doc.headings[i];
        assert(doc.headings@.take(i + 1).drop_last() =~= doc.headings@.take(i as int));
        assert(doc.headings@.take(i + 1).last() == doc.headings@[i as int]);
        let tb = h.text.as_str().as_bytes();
        let name = lower_copy(tb, 0, tb.len());
        assert(tb@.subrange(0, tb@.len() as int) =~= tb@);
        if h.level >= 2 && !in_list(name.as_slice(), &whitelist) {
            let version = contains_digit(name.as_slice()) && (contains_byte(name.as_slice(), 0x2eu8)
                || contains_byte(name.as_slice(), 0x76u8) || contains_byte(name.as_slice(), 0x5bu8));
            if version {
                if !has_iso_date(name.as_slice()) {
                    hits.push(Hit::new(idx, h.text_range.start..h.text_range.end));
                }
            } else {
                hits.push(Hit::new(idx, h.text_range.start..h.text_range.end));
            }
        }
    }
    assert(doc.headings@.take(n as int) =~= doc.headings@);
}


/// "license".
pub open spec fn license_word() -> Seq<u8> {
    seq![0x6cu8, 0x69u8, 0x63u8, 0x65u8, 0x6eu8, 0x73u8, 0x65u8]
}

/// The heading reads "License" in any ASCII case.
pub open spec fn is_license_heading(h: Heading) -> bool {
    lower(encode_utf8(h.text@)) == license_word()
}

/// The first license heading at or after `i`.
pub open spec fn first_license(hs: Seq<Heading>, i: int) -> Option<int>
    decreases hs.len() - i,
{
    if i < 0 || i >= hs.len() {
        None
    } else if is_license_heading(hs[i]) {
        Some(i)
    } else {
        first_license(hs, i + 1)
    }
}

/// SLOP-K005: a readme has a License section, and that section carries the
/// configured license wording (compared with whitespace collapsed); without
/// configured wording the check is a coverage hint.
#[verifier::opaque]
pub open spec fn k005_hits(cp: CompiledPolicy, config: Config, doc: Doc, b: Seq<u8>) -> Seq<Hit> {
    match active_rule(cp.pkg, config.profile, "SLOP-K005"@) {
        None => seq![],
        Some(idx) => match first_license(doc.headings@, 0) {
            None => seq![plain_hit(idx, 0, 0)],
            Some(i) => {
                let h = doc.headings@[i];
                match config.deployment.expected_license_wording {
                    Some(exp) => {
                        let sec = if i < doc.sections@.len() {
                            doc.sections@[i].range
                        } else {
                            Range { start: h.range.start, end: b.len() as usize }
                        };
                        let ew = encode_utf8(exp@);
                        if find_from(
                            collapse(b, sec.start as int, sec.end as int),
                            collapse(ew, 0, ew.len() as int),
                            0,
                        ) is None {
                            seq![plain_hit(idx, h.range.start, h.range.end)]
                        } else {
                            seq![]
                        }
                    },
                    None => seq![
                        Hit {
                            rule: idx,
                            span: Range { start: h.range.start, end: h.range.end },
                            force_candidate: false,
                            force_hint: true,
                        },
                    ],
                }
            },
        },
    }
}

fn check_k005(cp: &CompiledPolicy, src: &str, doc: &Doc, config: &Config, hits: &mut Vec<Hit>)
    requires
        package_fits(cp.pkg),
        doc_fits(*doc, src.spec_bytes()),
    ensures
        final(hits)@ == old(hits)@ + k005_hits(*cp, *config, *doc, src.spec_bytes()),
{
    proof {
        reveal(k005_hits);
    }
    let b = src.as_bytes();
    let idx = match active(cp, config, "SLOP-K005") {
        Some(i) => i,
        None => {
            return;
        },
    };
    let lic: Vec<u8> = vec![0x6cu8, 0x69u8, 0x63u8, 0x65u8, 0x6eu8, 0x73u8, 0x65u8];
    assert(lic@ =~= license_word());
    let n = doc.headings.len();
    let mut i: usize = 0;
    while i < n
        invariant
            n == doc.headings@.len(),
            i <= n,
            lic@ == license_word(),
            first_license(doc.headings@, 0) == first_license(doc.headings@, i as int),
        ensures
            i <= n,
            first_license(doc.headings@, 0) == first_license(doc.headings@, i as int),
            i < n ==> is_license_heading(doc.headings@[i as int]),
        decreases n - i,
    {
        let tb = doc.headings[i].text.as_str().as_bytes();
        let name = lower_copy(tb, 0, tb.len());
        assert(tb@.subrange(0, tb@.len() as int) =~= tb@);
        if bytes_equal_at(name.as_slice(), 0, name.len(), lic.as_slice()) {
            assert(name@.subrange(0, name@.len() as int) =~= name@);
            break;
        }
        assert(name@.subrange(0, name@.len() as int) =~= name@);
        i += 1;
    }
    if i == n {
        hits.push(Hit::new(idx, 0..0));
        return;
    }
    assert(first_license(doc.headings@, 0) == Some(i as int));
    let h = &doc.headings[i];
    assert(range_ok(b@, doc.headings@[i as int].range));
    match &config.deployment.expected_license_wording {
        Some(expected) => {
            let (ss, se) = if i < doc.sections.len() {
                assert(range_ok(b@, doc.sections@[i as int].range));
                (doc.sections[i].range.start, doc.sections[i].range.end)
            } else {
                (h.range.start, b.len())
            };
            let body = collapse_ws(b, ss, se);
            let eb = expected.as_str().as_bytes();
            let want = collapse_ws(eb, 0, eb.len());
            if find_bytes(body.as_slice(), want.as_slice(), 0).is_none() {
                hits.push(Hit::new(idx, h.range.start..h.range.end));
            }
        },
        None => {
            hits.push(
                Hit {
                    rule: idx,
                    span: h.range.start..h.range.end,
                    force_candidate: false,
                    force_hint: true,
                },
            );
        },
    }
}

/// SLOP-K006 on manifest fields: a description of at most
/// `max_description_chars` characters (160 by default) that does not open
/// with the crate name, exactly `keywords_exact` keywords (5), and between
/// `categories_min` (2) and `categories_max` (3) categories. A missing field
/// is a finding with an empty span.
pub open spec fn k006_fields(info: ManifestInfo, idx: usize, rule: Rule) -> Seq<Hit> {
    let max_desc = param_usize(rule, "max_description_chars"@, 160);
    let kw_exact = param_usize(rule, "keywords_exact"@, 5);
    let cat_min = param_usize(rule, "categories_min"@, 2);
    let cat_max = param_usize(rule, "categories_max"@, 3);
    (match (info.description, info.description_span) {
        (Some(d), Some(span)) => (if char_count(encode_utf8(d@)) > max_desc {
            seq![plain_hit(idx, span.start, span.end)]
        } else {
            seq![]
        }) + match info.name {
            Some(nm) => if starts_with(lower(encode_utf8(d@)), lower(encode_utf8(nm@))) {
                seq![plain_hit(idx, span.start, span.end)]
            } else {
                seq![]
            },
            None => seq![],
        },
        _ => seq![plain_hit(idx, 0, 0)],
    }) + (match info.keywords {
        Some((n, span)) => if n != kw_exact {
            seq![plain_hit(idx, span.start, span.end)]
        } else {
            seq![]
        },
        None => seq![plain_hit(idx, 0, 0)],
    }) + match info.categories {
        Some((n, span)) => if n < cat_min || n > cat_max {
            seq![plain_hit(idx, span.start, span.end)]
        } else {
            seq![]
        },
        None => seq![plain_hit(idx, 0, 0)],
    }
}

/// SLOP-K006: cargo-metadata fields, for manifest input.
#[verifier::opaque]
pub open spec fn k006_hits(cp: CompiledPolicy, config: Config, format: FormatData) -> Seq<Hit> {
    match active_rule(cp.pkg, config.profile, "SLOP-K006"@) {
        None => seq![],
        Some(idx) => match format {
            FormatData::Manifest(info) => k006_fields(info, idx, cp.pkg.rules@[idx as int]),
            _ => seq![],
        },
    }
}

fn param_or(rule: &Rule, key: &str, default: usize) -> (r: usize)
    ensures
        r == (match param_int(*rule, key@) {
            Some(v) => v as usize,
            None => default,
        }),
{
    match param_i64(rule, key) {
        Some(v) => #[verifier::truncate] (v as usize),
        None => default,
    }
}

fn check_k006(cp: &CompiledPolicy, format: &FormatData, config: &Config, hits: &mut Vec<Hit>)
    requires
        package_fits(cp.pkg),
    ensures
        final(hits)@ == old(hits)@ + k006_hits(*cp, *config, *format),
{
    proof {
        reveal(k006_hits);
    }
    let idx = match active(cp, config, "SLOP-K006") {
        Some(i) => i,
        None => {
            return;
        },
    };
    let info = match format {
        FormatData::Manifest(info) => info,
        _ => {
            return;
        },
    };
    let rule = &cp.pkg.rules[idx];
    let max_desc = param_or(rule, "max_description_chars", 160);
    let kw_exact = param_or(rule, "keywords_exact", 5);
    let cat_min = param_or(rule, "categories_min", 2);
    let cat_max = param_or(rule, "categories_max", 3);
    let ghost start = hits@;
    match (&info.description, &info.description_span) {
        (Some(d), Some(span)) => {
            let db = d.as_str().as_bytes();
            let n = count_chars(db, 0, db.len());
            assert(db@.subrange(0, db@.len() as int) =~= db@);
            if n > max_desc {
                hits.push(Hit::new(idx, span.start..span.end));
            }
            match &info.name {
                Some(name) => {
                    let ld = lower_copy(db, 0, db.len());
                    let nb = name.as_str().as_bytes();
                    let ln = lower_copy(nb, 0, nb.len());
                    assert(nb@.subrange(0, nb@.len() as int) =~= nb@);
                    if bytes_start_with(ld.as_slice(), ln.as_slice()) {
                        hits.push(Hit::new(idx, span.start..span.end));
                    }
                },
                None => {},
            }
        },
        _ => {
            hits.push(Hit::new(idx, 0..0));
        },
    }
    match &info.keywords {
        Some((n, span)) => {
            if *n != kw_exact {
                hits.push(Hit::new(idx, span.start..span.end));
            }
        },
        None => {
            hits.push(Hit::new(idx, 0..0));
        },
    }
    match &info.categories {
        Some((n, span)) => {
            if *n < cat_min || *n > cat_max {
                hits.push(Hit::new(idx, span.start..span.end));
            }
        },
        None => {
            hits.push(Hit::new(idx, 0..0));
        },
    }
    assert(hits@ =~= start + k006_hits(*cp, *config, *format));
}


/// The non-blank lines `ls` of `b`, each trimmed (`lines()`, `trim()`,
/// blank lines dropped).
pub open spec fn trimmed_lines(b: Seq<u8>, ls: Seq<Range<usize>>) -> Seq<Seq<u8>>
    decreases ls.len(),
{
    if ls.len() == 0 {
        seq![]
    } else {
        let r = ls.last();
        let s = trim_start_at(b, r.start as int, r.end as int);
        let e = trim_end_at(b, s, r.end as int);
        trimmed_lines(b, ls.drop_last()) + if s < e {
            seq![b.subrange(s, e)]
        } else {
            seq![]
        }
    }
}

/// The trimmed non-blank lines of `b`.
pub open spec fn content_lines(b: Seq<u8>) -> Seq<Seq<u8>> {
    trimmed_lines(b, lines_from(b, 0, 0))
}

#[verifier::spinoff_prover]
#[verifier::rlimit(40)]
fn nonblank_lines(text: &str) -> (r: Vec<Vec<u8>>)
    ensures
        byte_views(r@) == content_lines(text.spec_bytes()),
{
    let b = text.as_bytes();
    let ls = line_ranges(text);
    proof {
        lemma_line_split_exists(b@);
        law_line_split_unique(b@, ls@, lines_from(b@, 0, 0));
    }
    let mut out: Vec<Vec<u8>> = Vec::new();
    let n = ls.len();
    for k in 0..n
        invariant
            n == ls@.len(),
            is_line_split(b@, ls@),
            byte_views(out@) == trimmed_lines(b@, ls@.take(k as int)),
    {
        assert(ls@[k as int].start <= ls@[k as int].end <= b@.len()) by {
            if k + 1 < n {
                assert(crate::input::closed_line(b@, ls@[k as int], ls@[k + 1].start - 1));
            }
        }
        assert(ls@.take(k + 1).drop_last() =~= ls@.take(k as int));
        assert(ls@.take(k + 1).last() == ls@[k as int]);
        let lo = ls[k].start;
        let hi = ls[k].end;
        let s = trim_start_pos(b, lo, hi);
        let e = trim_end_pos(b, s, hi);
        if s < e {
            let l = copy_range(b, s, e);
            out.push(l);
        }
        assert(byte_views(out@) =~= trimmed_lines(b@, ls@.take(k + 1)));
    }
    assert(ls@.take(n as int) =~= ls@);
    out
}

/// Some line of `ls` is `l`.
pub open spec fn has_line(ls: Seq<Seq<u8>>, l: Seq<u8>) -> bool {
    exists|j: int| 0 <= j < ls.len() && ls[j] == l
}

/// The release body is acceptable: the same lines as the configured entry,
/// or every configured line present with at most `max_extra` extra lines.
pub open spec fn release_body_ok(got: Seq<Seq<u8>>, want: Seq<Seq<u8>>, max_extra: usize) -> bool {
    got == want || (got.len() <= want.len() + max_extra && forall|j: int|
        0 <= j < want.len() ==> has_line(got, #[trigger] want[j]))
}

/// SLOP-K004: release notes carry the configured changelog entry; without
/// one configured the check is a coverage hint.
#[verifier::opaque]
pub open spec fn k004_hits(cp: CompiledPolicy, config: Config, b: Seq<u8>) -> Seq<Hit> {
    match active_rule(cp.pkg, config.profile, "SLOP-K004"@) {
        None => seq![],
        Some(idx) => match config.deployment.expected_release_body {
            Some(exp) => if release_body_ok(
                content_lines(b),
                content_lines(encode_utf8(exp@)),
                param_usize(cp.pkg.rules@[idx as int], "max_extra_pointer_lines"@, 1),
            ) {
                seq![]
            } else {
                seq![plain_hit(idx, 0, if b.len() < 1 { b.len() as usize } else { 1 })]
            },
            None => seq![
                Hit {
                    rule: idx,
                    span: Range { start: 0, end: 0 },
                    force_candidate: false,
                    force_hint: true,
                },
            ],
        },
    }
}

/// What SLOP-K004 needs of its inputs when it compares a release body with
/// a configured entry that differs from it: the entry's line count plus
/// `max_extra_pointer_lines` is a `usize`.
pub open spec fn k004_fits(cp: CompiledPolicy, config: Config, b: Seq<u8>) -> bool {
    match active_rule(cp.pkg, config.profile, "SLOP-K004"@) {
        None => true,
        Some(idx) => match config.deployment.expected_release_body {
            Some(exp) => content_lines(b) == content_lines(encode_utf8(exp@)) || content_lines(
                encode_utf8(exp@),
            ).len() + param_usize(cp.pkg.rules@[idx as int], "max_extra_pointer_lines"@, 1)
                <= usize::MAX,
            None => true,
        },
    }
}

fn same_bytes(a: &Vec<u8>, b: &Vec<u8>) -> (r: bool)
    ensures
        r == (a@ == b@),
{
    let r = a.len() == b.len() && bytes_equal_at(a.as_slice(), 0, a.len(), b.as_slice());
    assert(a@.subrange(0, a@.len() as int) =~= a@);
    r
}

fn line_in(ls: &Vec<Vec<u8>>, l: &Vec<u8>) -> (r: bool)
    ensures
        r == has_line(byte_views(ls@), l@),
{
    let ghost m = byte_views(ls@);
    let mut j: usize = 0;
    while j < ls.len()
        invariant
            m == byte_views(ls@),
            j <= ls@.len(),
            forall|k: int| 0 <= k < j ==> m[k] != l@,
        decreases ls@.len() - j,
    {
        if same_bytes(&ls[j], l) {
            assert(m[j as int] == l@);
            return true;
        }
        j += 1;
    }
    false
}

/// Whether the two line lists are the same.
fn same_lines(got: &Vec<Vec<u8>>, want: &Vec<Vec<u8>>) -> (r: bool)
    ensures
        r == (byte_views(got@) == byte_views(want@)),
{
    let ghost g = byte_views(got@);
    let ghost w = byte_views(want@);
    if got.len() != want.len() {
        assert(g.len() != w.len());
        return false;
    }
    let mut j: usize = 0;
    while j < got.len()
        invariant
            g == byte_views(got@),
            w == byte_views(want@),
            got@.len() == want@.len(),
            j <= got@.len(),
            forall|k: int| 0 <= k < j ==> g[k] == w[k],
        decreases got@.len() - j,
    {
        if !same_bytes(&got[j], &want[j]) {
            assert(g[j as int] != w[j as int]);
            return false;
        }
        j += 1;
    }
    assert(g =~= w);
    true
}

fn release_ok(got: &Vec<Vec<u8>>, want: &Vec<Vec<u8>>, max_extra: usize) -> (r: bool)
    requires
        byte_views(got@) == byte_views(want@) || want@.len() + max_extra <= usize::MAX,
    ensures
        r == release_body_ok(
            byte_views(got@),
            byte_views(want@),
            max_extra,
        ),
{
    let ghost g = byte_views(got@);
    let ghost w = byte_views(want@);
    if same_lines(got, want) {
        return true;
    }
    if !(got.len() <= want.len() + max_extra) {
        return false;
    }
    let mut k: usize = 0;
    while k < want.len()
        invariant
            g == byte_views(got@),
            w == byte_views(want@),
            k <= want@.len(),
            g != w,
            forall|i: int| 0 <= i < k ==> has_line(g, #[trigger] w[i]),
        decreases want@.len() - k,
    {
        if !line_in(got, &want[k]) {
            assert(w[k as int] == want@[k as int]@);
            return false;
        }
        k += 1;
    }
    true
}

/// Whether the inputs meet what SLOP-K004 needs of them (`k004_fits`).
pub fn k004_inputs_fit(cp: &CompiledPolicy, prepared: &Prepared, config: &Config) -> (r: bool)
    requires
        package_fits(cp.pkg),
    ensures
        r == k004_fits(*cp, *config, encode_utf8(prepared.text@)),
{
    let idx = match active(cp, config, "SLOP-K004") {
        Some(i) => i,
        None => {
            return true;
        },
    };
    match &config.deployment.expected_release_body {
        Some(expected) => {
            let got = nonblank_lines(prepared.text.as_str());
            let want = nonblank_lines(expected.as_str());
            let max_extra = param_or(&cp.pkg.rules[idx], "max_extra_pointer_lines", 1);
            same_lines(&got, &want) || want.len() <= usize::MAX - max_extra
        },
        None => true,
    }
}

fn check_k004(cp: &CompiledPolicy, src: &str, config: &Config, hits: &mut Vec<Hit>)
    requires
        package_fits(cp.pkg),
        k004_fits(*cp, *config, src.spec_bytes()),
    ensures
        final(hits)@ == old(hits)@ + k004_hits(*cp, *config, src.spec_bytes()),
{
    proof {
        reveal(k004_hits);
    }
    let idx = match active(cp, config, "SLOP-K004") {
        Some(i) => i,
        None => {
            return;
        },
    };
    match &config.deployment.expected_release_body {
        Some(expected) => {
            let got = nonblank_lines(src);
            let want = nonblank_lines(expected.as_str());
            let max_extra = param_or(&cp.pkg.rules[idx], "max_extra_pointer_lines", 1);
            if !release_ok(&got, &want, max_extra) {
                let len = src.as_bytes().len();
                hits.push(Hit::new(idx, 0..(if len < 1 { len } else { 1 })));
            }
        },
        None => {
            hits.push(
                Hit { rule: idx, span: 0..0, force_candidate: false, force_hint: true },
            );
        },
    }
}

/// The spans and contents of found version literals.
pub open spec fn span_views(v: Seq<(Range<usize>, Vec<u8>)>) -> Seq<(Range<usize>, Seq<u8>)> {
    v.map_values(|p: (Range<usize>, Vec<u8>)| (p.0, p.1@))
}

/// A version literal: non-empty, only digits and dots, with a dot.
pub open spec fn version_value(v: Seq<u8>) -> bool {
    &&& v.len() > 0
    &&& forall|i: int| 0 <= i < v.len() ==> digit(#[trigger] v[i]) || v[i] == 0x2e
    &&& has_byte(v, 0x2e)
}

/// `= "`.
pub open spec fn assign_quote() -> Seq<u8> {
    seq![0x3du8, 0x20u8, 0x22u8]
}

/// `"`.
pub open spec fn quote() -> Seq<u8> {
    seq![0x22u8]
}

/// The version literals `= "x.y.z"` in `body` from `at` on: each with its
/// span offset by `base`.
pub open spec fn versions_in(body: Seq<u8>, at: int, base: int) -> Seq<(Range<usize>, Seq<u8>)>
    decreases body.len() - at,
{
    match find_from(body, assign_quote(), at) {
        None => seq![],
        Some(pos) => {
            let vstart = pos + 3;
            match find_from(body, quote(), vstart) {
                None => seq![],
                Some(q) => if q + 1 <= at || q + 1 > body.len() {
                    seq![]
                } else {
                    let v = body.subrange(vstart, q);
                    (if version_value(v) {
                        seq![(Range { start: (base + vstart) as usize, end: (base + q) as usize }, v)]
                    } else {
                        seq![]
                    }) + versions_in(body, q + 1, base)
                },
            }
        },
    }
}

/// The version literals of the code regions `regions` of `b`, in order.
pub open spec fn versions_of(b: Seq<u8>, regions: Seq<crate::extract::CodeRegion>) -> Seq<(Range<usize>, Seq<u8>)>
    decreases regions.len(),
{
    if regions.len() == 0 {
        seq![]
    } else {
        let r = regions.last().range;
        versions_of(b, regions.drop_last()) + versions_in(
            b.subrange(r.start as int, r.end as int),
            0,
            r.start as int,
        )
    }
}

/// Findings for version literals that disagree with the expected version
/// (neither equal to it nor starting with it).
pub open spec fn version_mismatches(found: Seq<(Range<usize>, Seq<u8>)>, idx: usize, exp: Seq<u8>) -> Seq<Hit>
    decreases found.len(),
{
    if found.len() == 0 {
        seq![]
    } else {
        let (span, v) = found.last();
        version_mismatches(found.drop_last(), idx, exp) + if v != exp && !starts_with(v, exp) {
            seq![plain_hit(idx, span.start, span.end)]
        } else {
            seq![]
        }
    }
}

/// SLOP-K007: the versions quoted in a readme's code agree with the
/// expected version; without one configured, the first quoted version is a
/// coverage hint.
#[verifier::opaque]
pub open spec fn k007_hits(cp: CompiledPolicy, config: Config, doc: Doc, b: Seq<u8>) -> Seq<Hit> {
    match active_rule(cp.pkg, config.profile, "SLOP-K007"@) {
        None => seq![],
        Some(idx) => {
            let found = versions_of(b, doc.code_regions@);
            match config.deployment.expected_version {
                Some(exp) => version_mismatches(found, idx, encode_utf8(exp@)),
                None => if found.len() > 0 {
                    seq![
                        Hit {
                            rule: idx,
                            span: found[0].0,
                            force_candidate: false,
                            force_hint: true,
                        },
                    ]
                } else {
                    seq![]
                },
            }
        },
    }
}

fn is_version_value(v: &[u8]) -> (r: bool)
    ensures
        r == version_value(v@),
{
    if v.len() == 0 {
        return false;
    }
    let mut i: usize = 0;
    while i < v.len()
        invariant
            i <= v@.len(),
            forall|j: int| 0 <= j < i ==> digit(#[trigger] v@[j]) || v@[j] == 0x2e,
        decreases v@.len() - i,
    {
        if !(is_digit(v[i]) || v[i] == 0x2eu8) {
            return false;
        }
        i += 1;
    }
    contains_byte(v, 0x2eu8)
}

fn scan_versions(body: &[u8], base: usize, out: &mut Vec<(Range<usize>, Vec<u8>)>)
    requires
        base + body@.len() <= usize::MAX,
    ensures
        span_views(final(out)@) == span_views(old(out)@) + versions_in(body@, 0, base as int),
{
    let aq: Vec<u8> = vec![0x3du8, 0x20u8, 0x22u8];
    let qt: Vec<u8> = vec![0x22u8];
    assert(aq@ =~= assign_quote());
    assert(qt@ =~= quote());
    let ghost orig = span_views(old(out)@);
    let mut at: usize = 0;
    loop
        invariant
            aq@ == assign_quote(),
            qt@ == quote(),
            orig == span_views(old(out)@),
            base + body@.len() <= usize::MAX,
            at <= body@.len(),
            span_views(out@) + versions_in(
                body@,
                at as int,
                base as int,
            ) == orig + versions_in(body@, 0, base as int),
        decreases body@.len() - at,
    {
        let ghost cur = span_views(out@);
        let pos = match find_bytes(body, aq.as_slice(), at) {
            Some(p) => p,
            None => {
                assert(cur + versions_in(body@, at as int, base as int) =~= cur);
                return;
            },
        };
        let vstart = pos + 3;
        let q = match find_bytes(body, qt.as_slice(), vstart) {
            Some(q) => q,
            None => {
                assert(cur + versions_in(body@, at as int, base as int) =~= cur);
                return;
            },
        };
        let v = copy_range(body, vstart, q);
        let ghost rest = versions_in(body@, q + 1, base as int);
        if is_version_value(v.as_slice()) {
            out.push(((base + vstart)..(base + q), v));
            assert(span_views(out@) =~= cur.push(
                (Range { start: (base + vstart) as usize, end: (base + q) as usize }, body@.subrange(vstart as int, q as int)),
            ));
        } else {
            assert(span_views(out@) =~= cur);
        }
        assert(span_views(out@) + rest =~= cur
            + versions_in(body@, at as int, base as int));
        at = q + 1;
    }
}


fn check_k007(cp: &CompiledPolicy, src: &str, doc: &Doc, config: &Config, hits: &mut Vec<Hit>)
    requires
        package_fits(cp.pkg),
        doc_fits(*doc, src.spec_bytes()),
    ensures
        final(hits)@ == old(hits)@ + k007_hits(*cp, *config, *doc, src.spec_bytes()),
{
    proof {
        reveal(k007_hits);
    }
    let b = src.as_bytes();
    let idx = match active(cp, config, "SLOP-K007") {
        Some(i) => i,
        None => {
            return;
        },
    };
    let mut found: Vec<(Range<usize>, Vec<u8>)> = Vec::new();
    let n = doc.code_regions.len();
    for i in 0..n
        invariant
            n == doc.code_regions@.len(),
            b@ == src.spec_bytes(),
            doc_fits(*doc, b@),
            span_views(found@) == versions_of(b@, doc.code_regions@.take(i as int)),
    {
        assert(doc.code_regions@.take(i + 1).drop_last() =~= doc.code_regions@.take(i as int));
        assert(doc.code_regions@.take(i + 1).last() == doc.code_regions@[i as int]);
        assert(range_ok(b@, doc.code_regions@[i as int].range));
        let lo = doc.code_regions[i].range.start;
        let hi = doc.code_regions[i].range.end;
        let body = copy_range(b, lo, hi);
        scan_versions(body.as_slice(), lo, &mut found);
    }
    assert(doc.code_regions@.take(n as int) =~= doc.code_regions@);
    let ghost fv = span_views(found@);
    match &config.deployment.expected_version {
        Some(expected) => {
            let eb = expected.as_str().as_bytes();
            let ghost start = hits@;
            let m = found.len();
            for k in 0..m
                invariant
                    m == found@.len(),
                    fv == span_views(found@),
                    hits@ == start + version_mismatches(fv.take(k as int), idx, eb@),
            {
                assert(fv.take(k + 1).drop_last() =~= fv.take(k as int));
                assert(fv.take(k + 1).last() == fv[k as int]);
                let v = &found[k].1;
                let differs = !(v.len() == eb.len() && bytes_equal_at(v.as_slice(), 0, v.len(), eb));
                assert(v@.subrange(0, v@.len() as int) =~= v@);
                if differs && !bytes_start_with(v.as_slice(), eb) {
                    hits.push(Hit::new(idx, found[k].0.start..found[k].0.end));
                }
            }
            assert(fv.take(m as int) =~= fv);
        },
        None => {
            if found.len() > 0 {
                hits.push(
                    Hit {
                        rule: idx,
                        span: found[0].0.start..found[0].0.end,
                        force_candidate: false,
                        force_hint: true,
                    },
                );
            }
        },
    }
}

/// The prepared input fits the profile-contract checks: the document's
/// spans and the commit subject are slices of the text.
pub open spec fn inputs_fit(format: FormatData, doc: Doc, b: Seq<u8>) -> bool {
    &&& doc_fits(doc, b)
    &&& format matches FormatData::Commit(split) ==> range_ok(b, split.subject)
}

/// Every hit the profile-contract family reports for one input, in report
/// order: K001 through K007.
#[verifier::opaque]
pub open spec fn profile_contract_hits(
    cp: CompiledPolicy,
    format: FormatData,
    text: Seq<u8>,
    doc: Doc,
    config: Config,
) -> Seq<Hit> {
    k001_hits(cp, config, doc, text) + k002_hits(cp, config, format, text) + k003_hits(
        cp,
        config,
        doc,
    ) + k004_hits(cp, config, text) + k005_hits(cp, config, doc, text) + k006_hits(
        cp,
        config,
        format,
    ) + k007_hits(cp, config, doc, text)
}

/// Runs SLOP-K001 through SLOP-K007, appending their hits.
#[verifier::spinoff_prover]
pub fn evaluate(
    cp: &CompiledPolicy,
    prepared: &crate::input::Prepared,
    doc: &Doc,
    config: &Config,
    hits: &mut Vec<Hit>,
)
    requires
        package_fits(cp.pkg),
        inputs_fit(prepared.format, *doc, encode_utf8(prepared.text@)),
        k001_fits(*cp, *config, *doc, encode_utf8(prepared.text@)),
        k004_fits(*cp, *config, encode_utf8(prepared.text@)),
    ensures
        final(hits)@ == old(hits)@ + profile_contract_hits(
            *cp,
            prepared.format,
            encode_utf8(prepared.text@),
            *doc,
            *config,
        ),
{
    let src = prepared.text.as_str();
    let ghost b = encode_utf8(prepared.text@);
    let ghost h0 = hits@;
    check_k001(cp, src, doc, config, hits);
    let ghost h1 = hits@;
    check_k002(cp, src, &prepared.format, config, hits);
    let ghost h2 = hits@;
    check_k003(cp, doc, config, hits);
    let ghost h3 = hits@;
    check_k004(cp, src, config, hits);
    let ghost h4 = hits@;
    check_k005(cp, src, doc, config, hits);
    let ghost h5 = hits@;
    check_k006(cp, &prepared.format, config, hits);
    let ghost h6 = hits@;
    check_k007(cp, src, doc, config, hits);
    proof {
        reveal(profile_contract_hits);
        let p1 = k001_hits(*cp, *config, *doc, b);
        let p2 = k002_hits(*cp, *config, prepared.format, b);
        let p3 = k003_hits(*cp, *config, *doc);
        let p4 = k004_hits(*cp, *config, b);
        let p5 = k005_hits(*cp, *config, *doc, b);
        let p6 = k006_hits(*cp, *config, prepared.format);
        let p7 = k007_hits(*cp, *config, *doc, b);
        assert(hits@ =~= h0 + (p1 + p2 + p3 + p4 + p5 + p6 + p7));
    }
}

} // verus!
