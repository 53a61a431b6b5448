//! Policy package model: rule metadata, per-profile stances, validation of
//! the parsed package, and the package digest over a canonical
//! serialization.

use vstd::prelude::*;
use vstd::string::StringSliceAdditionalSpecFns;
use vstd::utf8::encode_utf8;
use crate::config::{profile_at, profile_index, profile_name, Field, Profile, Stance};
use crate::tomlv::{copy_value, entries_get, entry, opt_array, opt_str, opt_table, toml_same, TomlValue};
use crate::input::{lemma_hex_len, hex_lower, push_char, push_hex_lower, sha256, sha256_digest};
use crate::text::{lemma_encode_injective, lemma_trim_start_bounds, lemma_find_first, lemma_find_nl, lemma_find_shift, lemma_trim_start_local, ws_at, chars_of, str_eq, string_views, bytes_at, bytes_equal_at, find_bytes, find_from, lemma_find_from, trim_start_at, trim_start_pos};

verus! {

/// How a finding from a rule is reported.
#[derive(Clone, Copy, PartialEq, Eq, Debug, Structural)]
pub enum Tier {
    Violation,
    Candidate,
    CoverageHint,
}

/// The name of a tier in the package and in reports.
pub open spec fn tier_name(t: Tier) -> Seq<char> {
    match t {
        Tier::Violation => "violation"@,
        Tier::Candidate => "candidate"@,
        Tier::CoverageHint => "coverage_hint"@,
    }
}

impl Tier {
    pub fn as_str(self) -> (s: &'static str)
        ensures
            s@ == tier_name(self),
    {
        match self {
            Tier::Violation => "violation",
            Tier::Candidate => "candidate",
            Tier::CoverageHint => "coverage_hint",
        }
    }
}

/// Whether a rule's findings gate a run.
#[derive(Clone, Copy, PartialEq, Eq, Debug, Structural)]
pub enum Lifecycle {
    Blocking,
    Advisory,
    Experimental,
    Deprecated,
}

/// The name of a lifecycle in the package and in reports.
pub open spec fn lifecycle_name(l: Lifecycle) -> Seq<char> {
    match l {
        Lifecycle::Blocking => "blocking"@,
        Lifecycle::Advisory => "advisory"@,
        Lifecycle::Experimental => "experimental"@,
        Lifecycle::Deprecated => "deprecated"@,
    }
}

impl Lifecycle {
    pub fn as_str(self) -> (s: &'static str)
        ensures
            s@ == lifecycle_name(self),
    {
        match self {
            Lifecycle::Blocking => "blocking",
            Lifecycle::Advisory => "advisory",
            Lifecycle::Experimental => "experimental",
            Lifecycle::Deprecated => "deprecated",
        }
    }
}

/// The rendering of the text a rule matches against.
#[derive(Clone, Copy, PartialEq, Eq, Debug, Structural)]
pub enum ViewKind {
    Raw,
    Prose,
    Norm,
    Rendered,
}

/// The name of a view in the package and in reports.
pub open spec fn view_name(v: ViewKind) -> Seq<char> {
    match v {
        ViewKind::Raw => "raw"@,
        ViewKind::Prose => "prose"@,
        ViewKind::Norm => "norm"@,
        ViewKind::Rendered => "rendered"@,
    }
}

impl ViewKind {
    pub fn as_str(self) -> (s: &'static str)
        ensures
            s@ == view_name(self),
    {
        match self {
            ViewKind::Raw => "raw",
            ViewKind::Prose => "prose",
            ViewKind::Norm => "norm",
            ViewKind::Rendered => "rendered",
        }
    }
}

/// The matching engine a rule uses.
#[derive(Clone, Copy, PartialEq, Eq, Debug, Structural)]
pub enum MatchKindSpec {
    WordSet,
    RegexSet,
    Structure,
    Ratio,
}

/// The region a scoped rule is restricted to.
#[derive(Clone, Copy, PartialEq, Eq, Debug, Structural)]
pub enum Scope {
    Unscoped,
    LinkUrl,
    Code,
    Heading,
    Comment,
}

/// Per-profile stance with commit-message field splits. For non-commit
/// profiles the three fields are identical.
#[derive(Clone, Copy, PartialEq, Eq, Debug, Structural)]
pub struct FieldStance {
    pub subject: Stance,
    pub body: Stance,
    pub trailers: Stance,
}

/// The stance a field stance gives `field`; `Whole` reads the subject.
pub open spec fn stance_for(fs: FieldStance, field: Field) -> Stance {
    match field {
        Field::Whole | Field::Subject => fs.subject,
        Field::Body => fs.body,
        Field::Trailers => fs.trailers,
    }
}

/// Some field is not off.
pub open spec fn stance_active(fs: FieldStance) -> bool {
    fs.subject != Stance::Off || fs.body != Stance::Off || fs.trailers != Stance::Off
}

impl FieldStance {
    pub fn uniform(s: Stance) -> (fs: FieldStance)
        ensures
            fs == (FieldStance { subject: s, body: s, trailers: s }),
    {
        FieldStance { subject: s, body: s, trailers: s }
    }

    pub fn for_field(&self, field: Field) -> (s: Stance)
        ensures
            s == stance_for(*self, field),
    {
        match field {
            Field::Whole | Field::Subject => self.subject,
            Field::Body => self.body,
            Field::Trailers => self.trailers,
        }
    }

    pub fn any_active(&self) -> (r: bool)
        ensures
            r == stance_active(*self),
    {
        self.subject != Stance::Off || self.body != Stance::Off || self.trailers != Stance::Off
    }
}

/// A uniform stance gives every field the same stance, and is active
/// exactly when that stance is not off.
pub proof fn law_uniform_stance(s: Stance, field: Field)
    ensures
        stance_for(FieldStance { subject: s, body: s, trailers: s }, field) == s,
        stance_active(FieldStance { subject: s, body: s, trailers: s }) <==> s != Stance::Off,
{
}

/// One rule of the policy package.
#[derive(Debug)]
pub struct Rule {
    pub id: String,
    pub name: String,
    pub family: String,
    pub tier: Tier,
    pub lifecycle: Lifecycle,
    pub origin: String,
    pub human_only_waiver: bool,
    pub view: ViewKind,
    pub kind: MatchKindSpec,
    pub lexicon: Option<String>,
    /// Resolved literal terms (lexicon entries plus inline words).
    pub terms: Vec<String>,
    pub case_sensitive: bool,
    pub boundary_word: bool,
    pub block_start: bool,
    pub scope: Scope,
    pub params: TomlValue,
    pub patterns: Vec<String>,
    pub guard: String,
    pub judge: Option<String>,
    /// Indexed by profile order in `[semantics].profile_names`.
    pub stances: Vec<FieldStance>,
    /// Exemption collocations. Any phrase covering a match suppresses it.
    pub exemptions: Vec<String>,
}

/// The stance rule `r` takes for `profile` and `field`.
pub open spec fn rule_stance(r: Rule, profile: Profile, field: Field) -> Stance {
    stance_for(r.stances@[profile_index(profile) as int], field)
}

/// Bit `i` of `mask` is set.
pub open spec fn bit_set(mask: u8, i: int) -> bool {
    0 <= i < 8 && (mask >> (i as u8)) & 1u8 == 1u8
}

proof fn lemma_set_bit(m: u8, a: u8, j: u8)
    by (bit_vector)
    requires
        a < 8,
        j < 8,
    ensures
        (((m | (1u8 << a)) >> j) & 1u8 == 1u8) == (j == a || (m >> j) & 1u8 == 1u8),
{
}

proof fn lemma_zero_bits(j: u8)
    by (bit_vector)
    ensures
        (0u8 >> j) & 1u8 == 0u8,
{
}

impl Rule {
    pub fn stance(&self, profile: Profile, field: Field) -> (s: Stance)
        requires
            profile_index(profile) < self.stances@.len(),
        ensures
            s == rule_stance(*self, profile, field),
    {
        self.stances[profile.index()].for_field(field)
    }

    /// Active-profile bitmask, one bit per profile in package order.
    pub fn profile_mask(&self) -> (mask: u8)
        requires
            self.stances@.len() <= 8,
        ensures
            forall|i: int|
                0 <= i < 8 ==> (bit_set(mask, i) <==> (i < self.stances@.len() && stance_active(
                    self.stances@[i],
                ))),
    {
        let mut mask = 0u8;
        let n = self.stances.len();
        proof {
            assert forall|j: int| 0 <= j < 8 implies !bit_set(0u8, j) by {
                lemma_zero_bits(j as u8);
            }
        }
        for i in 0..n
            invariant
                n == self.stances@.len(),
                n <= 8,
                forall|j: int|
                    0 <= j < 8 ==> (bit_set(mask, j) <==> (j < i && stance_active(
                        self.stances@[j],
                    ))),
        {
            let ib = i as u8;
            if self.stances[i].any_active() {
                let ghost old_mask = mask;
                mask = mask | (1u8 << ib);
                proof {
                    assert forall|j: int| 0 <= j < 8 implies (bit_set(mask, j) <==> (j < i + 1
                        && stance_active(self.stances@[j]))) by {
                        lemma_set_bit(old_mask, ib, j as u8);
                        assert(bit_set(old_mask, j) <==> (j < i && stance_active(self.stances@[j])));
                        assert((j as u8 == ib) <==> (j == i));
                        assert(bit_set(mask, j) == ((j as u8 == ib) || bit_set(old_mask, j)));
                    }
                }
            }
        }
        mask
    }
}

/// A profile definition from the package.
#[derive(Debug)]
pub struct ProfileDef {
    pub name: String,
    pub format: String,
    /// Core rule stances, one per entry of the parsed `core_rules` table,
    /// in the order the parser hands the entries over.
    pub core_rules: Vec<(String, String)>,
    pub notes: String,
}

/// The validated policy package.
#[derive(Debug)]
pub struct PolicyPackage {
    pub version: String,
    pub digest: String,
    pub quotation_downgrade: Vec<String>,
    pub profile_names: Vec<String>,
    pub profiles: Vec<ProfileDef>,
    pub rules: Vec<Rule>,
}

/// The index of the first rule of `rules` with id `id`, if any.
pub open spec fn first_rule_with_id(rules: Seq<Rule>, id: Seq<char>, from: int) -> Option<int>
    decreases rules.len() - from,
{
    if from < 0 || from >= rules.len() {
        None
    } else if rules[from].id@ == id {
        Some(from)
    } else {
        first_rule_with_id(rules, id, from + 1)
    }
}

impl PolicyPackage {
    pub fn rule_by_id(&self, id: &str) -> (r: Option<&Rule>)
        ensures
            match first_rule_with_id(self.rules@, id@, 0) {
                Some(i) => r == Some(&self.rules@[i]),
                None => r is None,
            },
    {
        let mut i: usize = 0;
        while i < self.rules.len()
            invariant
                0 <= i <= self.rules@.len(),
                first_rule_with_id(self.rules@, id@, 0) == first_rule_with_id(
                    self.rules@,
                    id@,
                    i as int,
                ),
            decreases self.rules@.len() - i,
        {
            if crate::text::str_eq(self.rules[i].id.as_str(), id) {
                return Some(&self.rules[i]);
            }
            i += 1;
        }
        None
    }
}


/// `b` with every CR LF pair replaced by LF, pairs read left to right
/// (`str::replace("\r\n", "\n")`).
pub open spec fn fold_crlf(b: Seq<u8>) -> Seq<u8>
    decreases b.len(),
{
    if b.len() == 0 {
        seq![]
    } else if b.len() >= 2 && b[0] == 0x0du8 && b[1] == 0x0au8 {
        seq![0x0au8] + fold_crlf(b.skip(2))
    } else {
        seq![b[0]] + fold_crlf(b.skip(1))
    }
}

/// Appends `b` with CR LF folded to LF.
fn append_folded(out: &mut Vec<u8>, b: &[u8])
    ensures
        final(out)@ == old(out)@ + fold_crlf(b@),
{
    let n = b.len();
    let mut i: usize = 0;
    assert(b@.skip(0) =~= b@);
    while i < n
        invariant
            n == b@.len(),
            0 <= i <= n,
            out@ + fold_crlf(b@.skip(i as int)) == old(out)@ + fold_crlf(b@),
        decreases n - i,
    {
        let rest = Ghost(b@.skip(i as int));
        if b[i] == 0x0du8 && i + 1 < n && b[i + 1] == 0x0au8 {
            assert(rest@.skip(2) =~= b@.skip(i + 2));
            out.push(0x0au8);
            i = i + 2;
        } else {
            assert(rest@.skip(1) =~= b@.skip(i + 1));
            out.push(b[i]);
            i = i + 1;
        }
    }
    assert(b@.skip(n as int) =~= Seq::<u8>::empty());
}

/// End of the line that starts at `i`: just past its line feed, or the
/// end of `t` (`split_inclusive('\n')`).
pub open spec fn line_stop(t: Seq<u8>, i: int) -> int {
    match find_from(t, seq![0x0au8], i) {
        Some(k) => k + 1,
        None => t.len() as int,
    }
}

/// The bytes `digest = `.
pub open spec fn digest_key() -> Seq<u8> {
    seq![0x64u8, 0x69u8, 0x67u8, 0x65u8, 0x73u8, 0x74u8, 0x20u8, 0x3du8, 0x20u8]
}

/// The line `digest = ""` with its line feed.
pub open spec fn blank_digest() -> Seq<u8> {
    digest_key() + seq![0x22u8, 0x22u8, 0x0au8]
}

/// The line `[i, e)` starts with `digest = ` once leading whitespace is
/// trimmed.
pub open spec fn digest_line(t: Seq<u8>, i: int, e: int) -> bool {
    let s = trim_start_at(t, i, e);
    s + 9 <= e && bytes_at(t, s, s + 9, digest_key())
}

/// The lines of `t` from `i` on, each digest line replaced by
/// `digest = ""`.
pub open spec fn blanked_from(t: Seq<u8>, i: int) -> Seq<u8>
    decreases t.len() - i,
{
    if i < 0 || i >= t.len() {
        seq![]
    } else {
        let e = line_stop(t, i);
        if e <= i || e > t.len() {
            seq![]
        } else {
            (if digest_line(t, i, e) {
                blank_digest()
            } else {
                t.subrange(i, e)
            }) + blanked_from(t, e)
        }
    }
}

/// Appends `b[lo, hi)`.
fn push_range(out: &mut Vec<u8>, b: &[u8], lo: usize, hi: usize)
    requires
        lo <= hi <= b@.len(),
    ensures
        final(out)@ == old(out)@ + b@.subrange(lo as int, hi as int),
{
    let mut j = lo;
    while j < hi
        invariant
            lo <= j <= hi <= b@.len(),
            out@ == old(out)@ + b@.subrange(lo as int, j as int),
        decreases hi - j,
    {
        out.push(b[j]);
        j = j + 1;
        assert(out@ =~= old(out)@ + b@.subrange(lo as int, j as int));
    }
}

/// Appends all of `b`.
fn push_all(out: &mut Vec<u8>, b: &[u8])
    ensures
        final(out)@ == old(out)@ + b@,
{
    push_range(out, b, 0, b.len());
    assert(b@.subrange(0, b@.len() as int) =~= b@);
}

/// Appends the lines of `t`, each digest line replaced by `digest = ""`.
fn append_blanked(out: &mut Vec<u8>, t: &[u8])
    ensures
        final(out)@ == old(out)@ + blanked_from(t@, 0),
{
    let nl: Vec<u8> = vec![0x0au8];
    let key: Vec<u8> = vec![0x64u8, 0x69u8, 0x67u8, 0x65u8, 0x73u8, 0x74u8, 0x20u8, 0x3du8, 0x20u8];
    let blank: Vec<u8> = vec![
        0x64u8, 0x69u8, 0x67u8, 0x65u8, 0x73u8, 0x74u8, 0x20u8, 0x3du8, 0x20u8, 0x22u8, 0x22u8,
        0x0au8,
    ];
    assert(nl@ =~= seq![0x0au8]);
    assert(key@ =~= digest_key());
    assert(blank@ =~= blank_digest());
    let n = t.len();
    let mut i: usize = 0;
    while i < n
        invariant
            n == t@.len(),
            0 <= i <= n,
            nl@ == seq![0x0au8],
            key@ == digest_key(),
            blank@ == blank_digest(),
            out@ + blanked_from(t@, i as int) == old(out)@ + blanked_from(t@, 0),
        decreases n - i,
    {
        let ghost before = out@;
        proof {
            lemma_find_from(t@, nl@, i as int);
        }
        let e = match find_bytes(t, nl.as_slice(), i) {
            Some(k) => k + 1,
            None => n,
        };
        assert(e == line_stop(t@, i as int));
        let s = trim_start_pos(t, i, e);
        if e - s >= 9 && bytes_equal_at(t, s, s + 9, key.as_slice()) {
            push_all(out, blank.as_slice());
        } else {
            push_range(out, t, i, e);
        }
        assert(out@ + blanked_from(t@, e as int) == before + blanked_from(t@, i as int));
        i = e;
    }
}

/// The bytes of a lexicon's package-relative path.
pub open spec fn path_of(e: (String, String)) -> Seq<u8> {
    encode_utf8(e.0@)
}

/// `a` sorts strictly before `b`, byte by byte, as `str` orders.
pub open spec fn bytes_lt(a: Seq<u8>, b: Seq<u8>) -> bool
    decreases a.len(),
{
    if b.len() == 0 {
        false
    } else if a.len() == 0 {
        true
    } else if a[0] != b[0] {
        a[0] < b[0]
    } else {
        bytes_lt(a.skip(1), b.skip(1))
    }
}

/// Whether `a` sorts strictly before `b`.
fn bytes_less(a: &[u8], b: &[u8]) -> (r: bool)
    ensures
        r == bytes_lt(a@, b@),
{
    let mut i: usize = 0;
    assert(a@.skip(0) =~= a@);
    assert(b@.skip(0) =~= b@);
    while i < a.len() && i < b.len()
        invariant
            0 <= i <= a@.len(),
            i <= b@.len(),
            bytes_lt(a@.skip(i as int), b@.skip(i as int)) == bytes_lt(a@, b@),
        decreases a@.len() - i,
    {
        assert(a@.skip(i as int)[0] == a@[i as int]);
        assert(b@.skip(i as int)[0] == b@[i as int]);
        if a[i] != b[i] {
            return a[i] < b[i];
        }
        assert(a@.skip(i as int).skip(1) =~= a@.skip(i + 1));
        assert(b@.skip(i as int).skip(1) =~= b@.skip(i + 1));
        i += 1;
    }
    i < b.len()
}

/// Index of the first entry of `s[0, n)` whose path no entry there sorts
/// strictly before.
pub open spec fn first_least(s: Seq<(String, String)>, n: int) -> int
    decreases n,
{
    if n <= 1 {
        0
    } else {
        let b = first_least(s, n - 1);
        if bytes_lt(path_of(s[n - 1]), path_of(s[b])) {
            n - 1
        } else {
            b
        }
    }
}

proof fn lemma_first_least_bounds(s: Seq<(String, String)>, n: int)
    requires
        n >= 1,
    ensures
        0 <= first_least(s, n) < n,
    decreases n,
{
    if n > 1 {
        lemma_first_least_bounds(s, n - 1);
    }
}

/// `s` sorted by path, entries with equal paths in their given order: the
/// first least entry, then the rest sorted the same way (a stable sort by
/// path).
pub open spec fn path_order(s: Seq<(String, String)>) -> Seq<(String, String)>
    decreases s.len(),
{
    if s.len() == 0 {
        seq![]
    } else {
        let i = first_least(s, s.len() as int);
        if 0 <= i < s.len() {
            seq![s[i]] + path_order(s.remove(i))
        } else {
            seq![]
        }
    }
}

/// Each lexicon as a NUL, its path, a NUL, and its content with CR LF
/// folded to LF.
pub open spec fn lexicon_frames(s: Seq<(String, String)>) -> Seq<u8>
    decreases s.len(),
{
    if s.len() == 0 {
        seq![]
    } else {
        seq![0u8] + path_of(s[0]) + seq![0u8] + fold_crlf(encode_utf8(s[0].1@)) + lexicon_frames(
            s.skip(1),
        )
    }
}

/// The bytes `policy.toml` and a NUL.
pub open spec fn policy_header() -> Seq<u8> {
    seq![0x70u8, 0x6fu8, 0x6cu8, 0x69u8, 0x63u8, 0x79u8, 0x2eu8, 0x74u8, 0x6fu8, 0x6du8, 0x6cu8, 0u8]
}

/// The canonical serialization the package digest is taken over: a header,
/// the policy text with CR LF folded and every digest line emptied, then
/// each lexicon in path order.
pub open spec fn canonical(toml: Seq<u8>, lexicons: Seq<(String, String)>) -> Seq<u8> {
    policy_header() + blanked_from(fold_crlf(toml), 0) + lexicon_frames(path_order(lexicons))
}

/// The entries of `lexicons` at the positions `idx`.
pub open spec fn pick(lexicons: Seq<(String, String)>, idx: Seq<usize>) -> Seq<(String, String)> {
    Seq::new(idx.len(), |j: int| lexicons[idx[j] as int])
}

/// Canonical serialization for the digest: the policy text with the
/// digest value emptied and CR LF folded to LF, followed by each lexicon
/// (path-sorted), each preceded by a NUL-delimited path header.
pub fn canonical_bytes(policy_toml: &str, lexicons: &[(String, String)]) -> (out: Vec<u8>)
    ensures
        out@ == canonical(policy_toml.spec_bytes(), lexicons@),
{
    let mut out: Vec<u8> = vec![
        0x70u8, 0x6fu8, 0x6cu8, 0x69u8, 0x63u8, 0x79u8, 0x2eu8, 0x74u8, 0x6fu8, 0x6du8, 0x6cu8, 0u8,
    ];
    assert(out@ =~= policy_header());
    let mut folded: Vec<u8> = Vec::new();
    append_folded(&mut folded, policy_toml.as_bytes());
    assert(folded@ =~= fold_crlf(policy_toml.spec_bytes()));
    append_blanked(&mut out, folded.as_slice());
    let n = lexicons.len();
    let mut rest: Vec<usize> = Vec::new();
    for k in 0..n
        invariant
            n == lexicons@.len(),
            rest@.len() == k,
            forall|j: int| 0 <= j < k ==> rest@[j] == j,
    {
        rest.push(k);
    }
    assert(pick(lexicons@, rest@) =~= lexicons@);
    while rest.len() > 0
        invariant
            n == lexicons@.len(),
            forall|j: int| 0 <= j < rest@.len() ==> rest@[j] < n,
            out@ + lexicon_frames(path_order(pick(lexicons@, rest@))) == canonical(
                policy_toml.spec_bytes(),
                lexicons@,
            ),
        decreases rest@.len(),
    {
        let ghost s = pick(lexicons@, rest@);
        let mut b: usize = 0;
        for j in 1..rest.len()
            invariant
                rest@.len() > 0,
                s == pick(lexicons@, rest@),
                n == lexicons@.len(),
                forall|q: int| 0 <= q < rest@.len() ==> rest@[q] < n,
                b == first_least(s, j as int),
                0 <= b < j,
        {
            if bytes_less(lexicons[rest[j]].0.as_str().as_bytes(), lexicons[rest[b]].0.as_str().as_bytes()) {
                b = j;
            }
        }
        proof {
            lemma_first_least_bounds(s, s.len() as int);
        }
        let k = rest.remove(b);
        assert(pick(lexicons@, rest@) =~= s.remove(b as int));
        let ghost before = out@;
        out.push(0u8);
        push_all(&mut out, lexicons[k].0.as_str().as_bytes());
        out.push(0u8);
        append_folded(&mut out, lexicons[k].1.as_str().as_bytes());
        proof {
            let t = path_order(s);
            assert(t[0] == lexicons@[k as int]);
            assert(t.skip(1) =~= path_order(s.remove(b as int)));
            assert(out@ =~= before + seq![0u8] + path_of(t[0]) + seq![0u8] + fold_crlf(
                encode_utf8(t[0].1@),
            ));
        }
    }
    assert(pick(lexicons@, rest@) =~= Seq::<(String, String)>::empty());
    out
}

/// The characters `sha256:`.
pub open spec fn digest_prefix() -> Seq<char> {
    seq!['s', 'h', 'a', '2', '5', '6', ':']
}

/// The package digest: `sha256:` and the lower-case hexadecimal SHA-256 of
/// the canonical serialization.
pub fn compute_digest(policy_toml: &str, lexicons: &[(String, String)]) -> (d: String)
    ensures
        d@ == digest_prefix() + hex_lower(sha256_digest(canonical(policy_toml.spec_bytes(), lexicons@))),
        d@.len() == 71,
{
    let bytes = canonical_bytes(policy_toml, lexicons);
    let sum = sha256(bytes.as_slice());
    let mut d = String::new();
    push_char(&mut d, 's');
    push_char(&mut d, 'h');
    push_char(&mut d, 'a');
    push_char(&mut d, '2');
    push_char(&mut d, '5');
    push_char(&mut d, '6');
    push_char(&mut d, ':');
    assert(d@ =~= digest_prefix());
    push_hex_lower(&mut d, sum.as_slice());
    proof {
        lemma_hex_len(sum@);
    }
    d
}

/// A required table or key of the package.
#[derive(Clone, Copy, PartialEq, Eq, Debug, Structural)]
pub enum PolicyItem {
    Policy,
    PolicyVersion,
    Semantics,
    QuotationDowngrade,
    ProfileNames,
    ProfileTables,
    Rules,
}

/// A list whose entries must be strings.
#[derive(Clone, Copy, PartialEq, Eq, Debug, Structural)]
pub enum StringEntry {
    QuotationDowngrade,
    ProfileName,
    CoreRuleStance,
    MatchWord,
    Pattern,
    ExemptionPhrase,
}

/// A key a rule must have.
#[derive(Clone, Copy, PartialEq, Eq, Debug, Structural)]
pub enum RuleKey {
    Name,
    Family,
    Tier,
    Lifecycle,
    Origin,
    View,
    Match,
    Guard,
    Profiles,
}

/// A rule setting that takes one of a fixed set of words.
#[derive(Clone, Copy, PartialEq, Eq, Debug, Structural)]
pub enum RuleSetting {
    Tier,
    Lifecycle,
    View,
    Case,
    Boundary,
    Position,
    Scope,
}

/// A field of a commit-message stance table.
#[derive(Clone, Copy, PartialEq, Eq, Debug, Structural)]
pub enum StanceField {
    Subject,
    Body,
    Trailers,
}

/// Why the policy package was refused.
#[derive(Debug)]
pub enum PolicyError {
    /// The policy text is not TOML; the parser's message.
    Parse(String),
    RootNotTable,
    Missing(PolicyItem),
    NotAString(StringEntry),
    /// The number of profile names found.
    ProfileCount(usize),
    /// The position and the name the package gives there.
    ProfileOrder(usize, String),
    /// `[profile.<name>]` is missing.
    ProfileMissing(String),
    /// `[profile.<name>].format` is missing.
    ProfileFormatMissing(String),
    RuleNotTable,
    RuleMissingId,
    /// Rule id and the missing key.
    RuleMissing(String, RuleKey),
    /// Rule id, the setting, and the word found.
    UnknownSetting(String, RuleSetting, String),
    /// Rule id and the match kind found, if it was a string.
    BadMatchKind(String, Option<String>),
    /// A lexicon path that is not among the lexicons.
    LexiconNotEmbedded(String),
    /// A lexicon path whose file holds no terms.
    LexiconEmpty(String),
    /// A word-set rule without terms.
    NoTerms(String),
    /// A regex-set rule without patterns.
    NoPatterns(String),
    /// A candidate rule without a judge question.
    NoJudge(String),
    /// Rule id, profile key, and the stance word found.
    UnknownStance(String, String, String),
    /// Rule id, profile key, and the field that is not a string.
    StanceNotString(String, String, StanceField),
    /// Rule id and a profile key whose value is neither a string nor a table.
    StanceShape(String, String),
    /// Rule id and a profile key that names no profile.
    UnknownProfile(String, String),
    /// A lexicon path and how many rules reference it, when that is not one.
    LexiconUses(String, usize),
    /// A rule id used twice.
    DuplicateRule(String),
}

/// `PolicyError` with its texts as character sequences.
pub enum PolicyFault {
    Parse(Seq<char>),
    RootNotTable,
    Missing(PolicyItem),
    NotAString(StringEntry),
    ProfileCount(nat),
    ProfileOrder(nat, Seq<char>),
    ProfileMissing(Seq<char>),
    ProfileFormatMissing(Seq<char>),
    RuleNotTable,
    RuleMissingId,
    RuleMissing(Seq<char>, RuleKey),
    UnknownSetting(Seq<char>, RuleSetting, Seq<char>),
    BadMatchKind(Seq<char>, Option<Seq<char>>),
    LexiconNotEmbedded(Seq<char>),
    LexiconEmpty(Seq<char>),
    NoTerms(Seq<char>),
    NoPatterns(Seq<char>),
    NoJudge(Seq<char>),
    UnknownStance(Seq<char>, Seq<char>, Seq<char>),
    StanceNotString(Seq<char>, Seq<char>, StanceField),
    StanceShape(Seq<char>, Seq<char>),
    UnknownProfile(Seq<char>, Seq<char>),
    LexiconUses(Seq<char>, nat),
    DuplicateRule(Seq<char>),
}

impl View for PolicyError {
    type V = PolicyFault;

    open spec fn view(&self) -> PolicyFault {
        match self {
            PolicyError::Parse(m) => PolicyFault::Parse(m@),
            PolicyError::RootNotTable => PolicyFault::RootNotTable,
            PolicyError::Missing(i) => PolicyFault::Missing(*i),
            PolicyError::NotAString(e) => PolicyFault::NotAString(*e),
            PolicyError::ProfileCount(n) => PolicyFault::ProfileCount(*n as nat),
            PolicyError::ProfileOrder(i, f) => PolicyFault::ProfileOrder(*i as nat, f@),
            PolicyError::ProfileMissing(n) => PolicyFault::ProfileMissing(n@),
            PolicyError::ProfileFormatMissing(n) => PolicyFault::ProfileFormatMissing(n@),
            PolicyError::RuleNotTable => PolicyFault::RuleNotTable,
            PolicyError::RuleMissingId => PolicyFault::RuleMissingId,
            PolicyError::RuleMissing(id, k) => PolicyFault::RuleMissing(id@, *k),
            PolicyError::UnknownSetting(id, k, v) => PolicyFault::UnknownSetting(id@, *k, v@),
            PolicyError::BadMatchKind(id, v) => PolicyFault::BadMatchKind(
                id@,
                match v {
                    Some(t) => Some(t@),
                    None => None,
                },
            ),
            PolicyError::LexiconNotEmbedded(p) => PolicyFault::LexiconNotEmbedded(p@),
            PolicyError::LexiconEmpty(p) => PolicyFault::LexiconEmpty(p@),
            PolicyError::NoTerms(id) => PolicyFault::NoTerms(id@),
            PolicyError::NoPatterns(id) => PolicyFault::NoPatterns(id@),
            PolicyError::NoJudge(id) => PolicyFault::NoJudge(id@),
            PolicyError::UnknownStance(id, k, v) => PolicyFault::UnknownStance(id@, k@, v@),
            PolicyError::StanceNotString(id, k, f) => PolicyFault::StanceNotString(id@, k@, *f),
            PolicyError::StanceShape(id, k) => PolicyFault::StanceShape(id@, k@),
            PolicyError::UnknownProfile(id, k) => PolicyFault::UnknownProfile(id@, k@),
            PolicyError::LexiconUses(p, n) => PolicyFault::LexiconUses(p@, *n as nat),
            PolicyError::DuplicateRule(id) => PolicyFault::DuplicateRule(id@),
        }
    }
}

/// An owned copy of `s`.
pub fn owned(s: &str) -> (r: String)
    ensures
        r@ == s@,
{
    let r = s.to_string();
    proof {
        vstd::string::to_string_from_display_ensures_for_str(s, r);
    }
    r
}

/// White_Space as `char::is_whitespace` reads it.
pub open spec fn white_space(c: char) -> bool {
    let u = c as u32;
    (0x09 <= u <= 0x0d) || u == 0x20 || u == 0x85 || u == 0xa0 || u == 0x1680 || (0x2000 <= u
        <= 0x200a) || u == 0x2028 || u == 0x2029 || u == 0x202f || u == 0x205f || u == 0x3000
}

fn is_white_space(c: char) -> (r: bool)
    ensures
        r == white_space(c),
{
    let u = c as u32;
    (0x09 <= u && u <= 0x0d) || u == 0x20 || u == 0x85 || u == 0xa0 || u == 0x1680 || (0x2000 <= u
        && u <= 0x200a) || u == 0x2028 || u == 0x2029 || u == 0x202f || u == 0x205f || u == 0x3000
}

/// Where `[i, e)` starts once leading whitespace is trimmed.
pub open spec fn skip_ws(c: Seq<char>, i: int, e: int) -> int
    decreases e - i,
{
    if i < e && white_space(c[i]) {
        skip_ws(c, i + 1, e)
    } else {
        i
    }
}

/// Where `[s, e)` ends once trailing whitespace is trimmed.
pub open spec fn back_ws(c: Seq<char>, s: int, e: int) -> int
    decreases e - s,
{
    if s < e && white_space(c[e - 1]) {
        back_ws(c, s, e - 1)
    } else {
        e
    }
}

/// Position of the first line feed at or after `i`, or the end of `c`.
pub open spec fn next_nl(c: Seq<char>, i: int) -> int
    decreases c.len() - i,
{
    if i < 0 || i >= c.len() {
        c.len() as int
    } else if c[i] == '\n' {
        i
    } else {
        next_nl(c, i + 1)
    }
}

/// The terms of a lexicon file from position `i` on: each line trimmed,
/// blank lines and lines that start with `#` left out.
pub open spec fn entries_from(c: Seq<char>, i: int) -> Seq<Seq<char>>
    decreases c.len() + 1 - i,
{
    if i < 0 || i > c.len() {
        seq![]
    } else {
        let e = next_nl(c, i);
        if e < i || e > c.len() {
            seq![]
        } else {
            let s = skip_ws(c, i, e);
            let t = back_ws(c, s, e);
            (if s < t && c[s] != '#' {
                seq![c.subrange(s, t)]
            } else {
                seq![]
            }) + entries_from(c, e + 1)
        }
    }
}

/// The content of the first lexicon whose path is `path`.
pub open spec fn lexicon_content(lexicons: Seq<(String, String)>, path: Seq<char>) -> Option<
    Seq<char>,
>
    decreases lexicons.len(),
{
    if lexicons.len() == 0 {
        None
    } else if lexicons[0].0@ == path {
        Some(lexicons[0].1@)
    } else {
        lexicon_content(lexicons.skip(1), path)
    }
}

/// The terms of the lexicon at `path`, or why there are none.
pub open spec fn lexicon_outcome(lexicons: Seq<(String, String)>, path: Seq<char>) -> Result<
    Seq<Seq<char>>,
    PolicyFault,
> {
    match lexicon_content(lexicons, path) {
        None => Err(PolicyFault::LexiconNotEmbedded(path)),
        Some(c) => if entries_from(c, 0).len() == 0 {
            Err(PolicyFault::LexiconEmpty(path))
        } else {
            Ok(entries_from(c, 0))
        },
    }
}

/// A list of strings by their texts, or the fault.
pub open spec fn texts_outcome(r: Result<Vec<String>, PolicyError>) -> Result<Seq<Seq<char>>, PolicyFault> {
    match r {
        Ok(v) => Ok(string_views(v@)),
        Err(e) => Err(e@),
    }
}

/// The characters `[lo, hi)` of `c` as a string.
fn string_of(c: &Vec<char>, lo: usize, hi: usize) -> (r: String)
    requires
        lo <= hi <= c@.len(),
    ensures
        r@ == c@.subrange(lo as int, hi as int),
{
    let mut r = String::new();
    let mut j = lo;
    while j < hi
        invariant
            lo <= j <= hi <= c@.len(),
            r@ == c@.subrange(lo as int, j as int),
        decreases hi - j,
    {
        push_char(&mut r, c[j]);
        j = j + 1;
        assert(r@ =~= c@.subrange(lo as int, j as int));
    }
    r
}

/// The terms of the lexicon at `path`: its non-blank lines, trimmed, that
/// do not start with `#`.
fn lexicon_terms(path: &str, lexicons: &[(String, String)]) -> (r: Result<Vec<String>, PolicyError>)
    ensures
        texts_outcome(r) == lexicon_outcome(lexicons@, path@),
{
    let mut k: usize = 0;
    assert(lexicons@.skip(0) =~= lexicons@);
    while k < lexicons.len() && !str_eq(lexicons[k].0.as_str(), path)
        invariant
            0 <= k <= lexicons@.len(),
            lexicon_content(lexicons@.skip(k as int), path@) == lexicon_content(lexicons@, path@),
        decreases lexicons@.len() - k,
    {
        assert(lexicons@.skip(k as int).skip(1) =~= lexicons@.skip(k + 1));
        k += 1;
    }
    if k == lexicons.len() {
        return Err(PolicyError::LexiconNotEmbedded(owned(path)));
    }
    assert(lexicons@.skip(k as int)[0] == lexicons@[k as int]);
    let c = chars_of(lexicons[k].1.as_str());
    let ghost cs = c@;
    let n = c.len();
    let mut terms: Vec<String> = Vec::new();
    let mut i: usize = 0;
    let mut done = false;
    while !done
        invariant
            n == cs.len(),
            c@ == cs,
            0 <= i <= n,
            string_views(terms@) + (if done {
                seq![]
            } else {
                entries_from(cs, i as int)
            }) == entries_from(cs, 0),
        decreases (n - i) * 2 + (if done {
            0int
        } else {
            1int
        }),
    {
        let ghost before = terms@;
        let mut e = i;
        while e < n && c[e] != '\n'
            invariant
                i <= e <= n,
                n == cs.len(),
                c@ == cs,
                next_nl(cs, e as int) == next_nl(cs, i as int),
            decreases n - e,
        {
            e += 1;
        }
        let mut s = i;
        while s < e && is_white_space(c[s])
            invariant
                i <= s <= e <= n,
                n == cs.len(),
                c@ == cs,
                skip_ws(cs, s as int, e as int) == skip_ws(cs, i as int, e as int),
            decreases e - s,
        {
            s += 1;
        }
        let mut t = e;
        while s < t && is_white_space(c[t - 1])
            invariant
                s <= t <= e <= n,
                n == cs.len(),
                c@ == cs,
                back_ws(cs, s as int, t as int) == back_ws(cs, s as int, e as int),
            decreases t - s,
        {
            t -= 1;
        }
        assert(next_nl(cs, e as int) == e);
        assert(skip_ws(cs, s as int, e as int) == s);
        assert(back_ws(cs, s as int, t as int) == t);
        assert(entries_from(cs, i as int) == (if s < t && cs[s as int] != '#' {
            seq![cs.subrange(s as int, t as int)]
        } else {
            seq![]
        }) + entries_from(cs, e + 1));
        assert(e == n ==> entries_from(cs, e + 1) == Seq::<Seq<char>>::empty());
        if s < t && c[s] != '#' {
            terms.push(string_of(&c, s, t));
        }
        assert(string_views(terms@) =~= string_views(before) + (if s < t && cs[s as int] != '#' {
            seq![cs.subrange(s as int, t as int)]
        } else {
            seq![]
        }));
        if e < n {
            i = e + 1;
        } else {
            done = true;
        }
    }
    if terms.len() == 0 {
        return Err(PolicyError::LexiconEmpty(owned(path)));
    }
    Ok(terms)
}

/// A result with its error by view.
pub open spec fn outcome<T>(r: Result<T, PolicyError>) -> Result<T, PolicyFault> {
    match r {
        Ok(x) => Ok(x),
        Err(e) => Err(e@),
    }
}

/// The stance a stance word names.
pub open spec fn stance_word(w: Seq<char>) -> Option<Stance> {
    if w == "apply"@ {
        Some(Stance::Apply)
    } else if w == "relax"@ {
        Some(Stance::Relax)
    } else if w == "off"@ {
        Some(Stance::Off)
    } else {
        None
    }
}

/// The stance word `w`, read for profile key `key` of rule `rule`.
pub open spec fn stance_outcome(w: Seq<char>, rule: Seq<char>, key: Seq<char>) -> Result<
    Stance,
    PolicyFault,
> {
    match stance_word(w) {
        Some(st) => Ok(st),
        None => Err(PolicyFault::UnknownStance(rule, key, w)),
    }
}

/// Reads a stance word.
fn parse_stance(s: &str, rule: &str, key: &str) -> (r: Result<Stance, PolicyError>)
    ensures
        outcome(r) == stance_outcome(s@, rule@, key@),
{
    if str_eq(s, "apply") {
        Ok(Stance::Apply)
    } else if str_eq(s, "relax") {
        Ok(Stance::Relax)
    } else if str_eq(s, "off") {
        Ok(Stance::Off)
    } else {
        Err(PolicyError::UnknownStance(owned(rule), owned(key), owned(s)))
    }
}

/// One field of a stance table: its stance word, `apply` when absent.
pub open spec fn stance_field_outcome(
    t: Seq<(String, TomlValue)>,
    name: Seq<char>,
    field: StanceField,
    rule: Seq<char>,
    key: Seq<char>,
) -> Result<Stance, PolicyFault> {
    match entries_get(t, name) {
        Some(TomlValue::String(s)) => stance_outcome(s@, rule, key),
        Some(_) => Err(PolicyFault::StanceNotString(rule, key, field)),
        None => Ok(Stance::Apply),
    }
}

/// A profile's stance: one word for every field, or a table of
/// `subject`, `body` and `trailers`.
pub open spec fn field_stance_outcome(v: TomlValue, rule: Seq<char>, key: Seq<char>) -> Result<
    FieldStance,
    PolicyFault,
> {
    match v {
        TomlValue::String(s) => match stance_outcome(s@, rule, key) {
            Ok(st) => Ok(FieldStance { subject: st, body: st, trailers: st }),
            Err(f) => Err(f),
        },
        TomlValue::Table(t) => match stance_field_outcome(t@, "subject"@, StanceField::Subject, rule, key) {
            Err(f) => Err(f),
            Ok(a) => match stance_field_outcome(t@, "body"@, StanceField::Body, rule, key) {
                Err(f) => Err(f),
                Ok(b) => match stance_field_outcome(t@, "trailers"@, StanceField::Trailers, rule, key) {
                    Err(f) => Err(f),
                    Ok(c) => Ok(FieldStance { subject: a, body: b, trailers: c }),
                },
            },
        },
        _ => Err(PolicyFault::StanceShape(rule, key)),
    }
}

fn parse_stance_field(
    t: &Vec<(String, TomlValue)>,
    name: &str,
    field: StanceField,
    rule: &str,
    key: &str,
) -> (r: Result<Stance, PolicyError>)
    ensures
        outcome(r) == stance_field_outcome(t@, name@, field, rule@, key@),
{
    match entry(t, name) {
        Some(TomlValue::String(s)) => parse_stance(s.as_str(), rule, key),
        Some(_) => Err(PolicyError::StanceNotString(owned(rule), owned(key), field)),
        None => Ok(Stance::Apply),
    }
}

/// Reads the stance a rule gives the profile `key`.
fn parse_field_stance(v: &TomlValue, rule: &str, key: &str) -> (r: Result<FieldStance, PolicyError>)
    ensures
        outcome(r) == field_stance_outcome(*v, rule@, key@),
{
    match v {
        TomlValue::String(s) => match parse_stance(s.as_str(), rule, key) {
            Ok(st) => Ok(FieldStance::uniform(st)),
            Err(e) => Err(e),
        },
        TomlValue::Table(t) => {
            let a = match parse_stance_field(t, "subject", StanceField::Subject, rule, key) {
                Ok(a) => a,
                Err(e) => {
                    return Err(e);
                },
            };
            let b = match parse_stance_field(t, "body", StanceField::Body, rule, key) {
                Ok(b) => b,
                Err(e) => {
                    return Err(e);
                },
            };
            let c = match parse_stance_field(t, "trailers", StanceField::Trailers, rule, key) {
                Ok(c) => c,
                Err(e) => {
                    return Err(e);
                },
            };
            Ok(FieldStance { subject: a, body: b, trailers: c })
        },
        _ => Err(PolicyError::StanceShape(owned(rule), owned(key))),
    }
}

/// The text of a string value; the entry it came from names the error.
fn as_str(v: &TomlValue, what: StringEntry) -> (r: Result<String, PolicyError>)
    ensures
        match v {
            TomlValue::String(s) => r matches Ok(t) && t@ == s@,
            _ => r matches Err(e) && e@ == PolicyFault::NotAString(what),
        },
{
    match v {
        TomlValue::String(s) => Ok(owned(s.as_str())),
        _ => Err(PolicyError::NotAString(what)),
    }
}

/// The text under `key` in table entries `t`, when it is a string.
pub open spec fn str_at(t: Seq<(String, TomlValue)>, key: Seq<char>) -> Option<Seq<char>> {
    opt_str(entries_get(t, key))
}

/// The entries of the table under `key`, when it is a table.
pub open spec fn table_at(t: Seq<(String, TomlValue)>, key: Seq<char>) -> Option<
    Seq<(String, TomlValue)>,
> {
    opt_table(entries_get(t, key))
}

/// The elements of the array under `key`, when it is an array.
pub open spec fn array_at(t: Seq<(String, TomlValue)>, key: Seq<char>) -> Option<Seq<TomlValue>> {
    opt_array(entries_get(t, key))
}

/// Every element is a string.
pub open spec fn all_strings(s: Seq<TomlValue>) -> bool {
    forall|i: int| 0 <= i < s.len() ==> #[trigger] s[i] is String
}

/// The texts of string elements (empty for others).
pub open spec fn texts(s: Seq<TomlValue>) -> Seq<Seq<char>> {
    Seq::new(
        s.len(),
        |i: int|
            match s[i] {
                TomlValue::String(x) => x@,
                _ => seq![],
            },
    )
}

/// The text of an optional string.
pub open spec fn opt_view(s: Option<String>) -> Option<Seq<char>> {
    match s {
        Some(x) => Some(x@),
        None => None,
    }
}

fn str_entry<'a>(t: &'a Vec<(String, TomlValue)>, key: &str) -> (r: Option<&'a String>)
    ensures
        match r {
            Some(x) => str_at(t@, key@) == Some(x@),
            None => str_at(t@, key@) is None,
        },
{
    match entry(t, key) {
        Some(TomlValue::String(x)) => Some(x),
        _ => None,
    }
}

fn table_entry<'a>(t: &'a Vec<(String, TomlValue)>, key: &str) -> (r: Option<
    &'a Vec<(String, TomlValue)>,
>)
    ensures
        match r {
            Some(x) => table_at(t@, key@) == Some(x@),
            None => table_at(t@, key@) is None,
        },
{
    match entry(t, key) {
        Some(TomlValue::Table(x)) => Some(x),
        _ => None,
    }
}

fn array_entry<'a>(t: &'a Vec<(String, TomlValue)>, key: &str) -> (r: Option<&'a Vec<TomlValue>>)
    ensures
        match r {
            Some(x) => array_at(t@, key@) == Some(x@),
            None => array_at(t@, key@) is None,
        },
{
    match entry(t, key) {
        Some(TomlValue::Array(x)) => Some(x),
        _ => None,
    }
}

/// The texts of an array whose elements must all be strings.
fn string_list(a: &Vec<TomlValue>, what: StringEntry) -> (r: Result<Vec<String>, PolicyError>)
    ensures
        r is Ok <==> all_strings(a@),
        r matches Ok(v) ==> string_views(v@) == texts(a@),
        r matches Err(e) ==> e@ == PolicyFault::NotAString(what),
{
    let mut out: Vec<String> = Vec::new();
    for i in 0..a.len()
        invariant
            out@.len() == i,
            forall|j: int| 0 <= j < i ==> #[trigger] a@[j] is String,
            forall|j: int| 0 <= j < i ==> (#[trigger] out@[j])@ == texts(a@)[j],
    {
        match &a[i] {
            TomlValue::String(x) => {
                out.push(owned(x.as_str()));
            },
            _ => {
                return Err(PolicyError::NotAString(what));
            },
        }
    }
    assert(string_views(out@) =~= texts(a@));
    Ok(out)
}

/// The tier a tier word names.
pub open spec fn tier_word(w: Seq<char>) -> Option<Tier> {
    if w == "violation"@ {
        Some(Tier::Violation)
    } else if w == "candidate"@ {
        Some(Tier::Candidate)
    } else if w == "coverage_hint"@ {
        Some(Tier::CoverageHint)
    } else {
        None
    }
}

/// The lifecycle a lifecycle word names.
pub open spec fn lifecycle_word(w: Seq<char>) -> Option<Lifecycle> {
    if w == "blocking"@ {
        Some(Lifecycle::Blocking)
    } else if w == "advisory"@ {
        Some(Lifecycle::Advisory)
    } else if w == "experimental"@ {
        Some(Lifecycle::Experimental)
    } else if w == "deprecated"@ {
        Some(Lifecycle::Deprecated)
    } else {
        None
    }
}

/// The view a view word names.
pub open spec fn view_word(w: Seq<char>) -> Option<ViewKind> {
    if w == "raw"@ {
        Some(ViewKind::Raw)
    } else if w == "prose"@ {
        Some(ViewKind::Prose)
    } else if w == "norm"@ {
        Some(ViewKind::Norm)
    } else if w == "rendered"@ {
        Some(ViewKind::Rendered)
    } else {
        None
    }
}

/// The first fault among a rule's identity keys: `name`, `family`, `tier`,
/// `lifecycle`, `origin` and `view`, in that order.
pub open spec fn head_fault(rt: Seq<(String, TomlValue)>, id: Seq<char>) -> Option<PolicyFault> {
    if str_at(rt, "name"@) is None {
        Some(PolicyFault::RuleMissing(id, RuleKey::Name))
    } else if str_at(rt, "family"@) is None {
        Some(PolicyFault::RuleMissing(id, RuleKey::Family))
    } else if str_at(rt, "tier"@) is None {
        Some(PolicyFault::RuleMissing(id, RuleKey::Tier))
    } else if tier_word(str_at(rt, "tier"@).unwrap()) is None {
        Some(PolicyFault::UnknownSetting(id, RuleSetting::Tier, str_at(rt, "tier"@).unwrap()))
    } else if str_at(rt, "lifecycle"@) is None {
        Some(PolicyFault::RuleMissing(id, RuleKey::Lifecycle))
    } else if lifecycle_word(str_at(rt, "lifecycle"@).unwrap()) is None {
        Some(
            PolicyFault::UnknownSetting(
                id,
                RuleSetting::Lifecycle,
                str_at(rt, "lifecycle"@).unwrap(),
            ),
        )
    } else if str_at(rt, "origin"@) is None {
        Some(PolicyFault::RuleMissing(id, RuleKey::Origin))
    } else if str_at(rt, "view"@) is None {
        Some(PolicyFault::RuleMissing(id, RuleKey::View))
    } else if view_word(str_at(rt, "view"@).unwrap()) is None {
        Some(PolicyFault::UnknownSetting(id, RuleSetting::View, str_at(rt, "view"@).unwrap()))
    } else {
        None
    }
}

/// A rule's identity as read from its table.
pub struct RuleHead {
    pub name: String,
    pub family: String,
    pub tier: Tier,
    pub lifecycle: Lifecycle,
    pub origin: String,
    pub human_only_waiver: bool,
    pub view: ViewKind,
}

/// `h` holds the identity keys of rule table `rt`.
pub open spec fn head_of(h: RuleHead, rt: Seq<(String, TomlValue)>) -> bool {
    &&& Some(h.name@) == str_at(rt, "name"@)
    &&& Some(h.family@) == str_at(rt, "family"@)
    &&& Some(h.tier) == tier_word(str_at(rt, "tier"@).unwrap())
    &&& Some(h.lifecycle) == lifecycle_word(str_at(rt, "lifecycle"@).unwrap())
    &&& Some(h.origin@) == str_at(rt, "origin"@)
    &&& h.human_only_waiver == (str_at(rt, "waiver"@) == Some("human-only"@))
    &&& Some(h.view) == view_word(str_at(rt, "view"@).unwrap())
}

fn parse_head(rt: &Vec<(String, TomlValue)>, id: &str) -> (r: Result<RuleHead, PolicyError>)
    ensures
        r is Err <==> head_fault(rt@, id@) is Some,
        r matches Err(e) ==> head_fault(rt@, id@) == Some(e@),
        r matches Ok(h) ==> head_of(h, rt@),
{
    let name = match str_entry(rt, "name") {
        Some(x) => owned(x.as_str()),
        None => {
            return Err(PolicyError::RuleMissing(owned(id), RuleKey::Name));
        },
    };
    let family = match str_entry(rt, "family") {
        Some(x) => owned(x.as_str()),
        None => {
            return Err(PolicyError::RuleMissing(owned(id), RuleKey::Family));
        },
    };
    let tier = match str_entry(rt, "tier") {
        Some(x) => if str_eq(x.as_str(), "violation") {
            Tier::Violation
        } else if str_eq(x.as_str(), "candidate") {
            Tier::Candidate
        } else if str_eq(x.as_str(), "coverage_hint") {
            Tier::CoverageHint
        } else {
            return Err(PolicyError::UnknownSetting(owned(id), RuleSetting::Tier, owned(x.as_str())));
        },
        None => {
            return Err(PolicyError::RuleMissing(owned(id), RuleKey::Tier));
        },
    };
    let lifecycle = match str_entry(rt, "lifecycle") {
        Some(x) => if str_eq(x.as_str(), "blocking") {
            Lifecycle::Blocking
        } else if str_eq(x.as_str(), "advisory") {
            Lifecycle::Advisory
        } else if str_eq(x.as_str(), "experimental") {
            Lifecycle::Experimental
        } else if str_eq(x.as_str(), "deprecated") {
            Lifecycle::Deprecated
        } else {
            return Err(
                PolicyError::UnknownSetting(owned(id), RuleSetting::Lifecycle, owned(x.as_str())),
            );
        },
        None => {
            return Err(PolicyError::RuleMissing(owned(id), RuleKey::Lifecycle));
        },
    };
    let origin = match str_entry(rt, "origin") {
        Some(x) => owned(x.as_str()),
        None => {
            return Err(PolicyError::RuleMissing(owned(id), RuleKey::Origin));
        },
    };
    let human_only_waiver = match str_entry(rt, "waiver") {
        Some(x) => str_eq(x.as_str(), "human-only"),
        None => false,
    };
    let view = match str_entry(rt, "view") {
        Some(x) => if str_eq(x.as_str(), "raw") {
            ViewKind::Raw
        } else if str_eq(x.as_str(), "prose") {
            ViewKind::Prose
        } else if str_eq(x.as_str(), "norm") {
            ViewKind::Norm
        } else if str_eq(x.as_str(), "rendered") {
            ViewKind::Rendered
        } else {
            return Err(PolicyError::UnknownSetting(owned(id), RuleSetting::View, owned(x.as_str())));
        },
        None => {
            return Err(PolicyError::RuleMissing(owned(id), RuleKey::View));
        },
    };
    Ok(RuleHead { name, family, tier, lifecycle, origin, human_only_waiver, view })
}

/// The match kind a kind word names; absent or unknown names none.
pub open spec fn kind_word(w: Option<Seq<char>>) -> Option<MatchKindSpec> {
    match w {
        Some(x) => if x == "word-set"@ {
            Some(MatchKindSpec::WordSet)
        } else if x == "regex-set"@ {
            Some(MatchKindSpec::RegexSet)
        } else if x == "structural"@ {
            Some(MatchKindSpec::Structure)
        } else if x == "ratio"@ {
            Some(MatchKindSpec::Ratio)
        } else {
            None
        },
        None => None,
    }
}

/// Case sensitivity: `sensitive`, or `insensitive` and absent for none.
pub open spec fn case_word(w: Option<Seq<char>>) -> Option<bool> {
    match w {
        None => Some(false),
        Some(x) => if x == "sensitive"@ {
            Some(true)
        } else if x == "insensitive"@ {
            Some(false)
        } else {
            None
        },
    }
}

/// Word boundaries: `word`, or `none` and absent for none.
pub open spec fn boundary_word(w: Option<Seq<char>>) -> Option<bool> {
    match w {
        None => Some(false),
        Some(x) => if x == "word"@ {
            Some(true)
        } else if x == "none"@ {
            Some(false)
        } else {
            None
        },
    }
}

/// Block-start position: `block-start`, or absent for anywhere.
pub open spec fn position_word(w: Option<Seq<char>>) -> Option<bool> {
    match w {
        None => Some(false),
        Some(x) => if x == "block-start"@ {
            Some(true)
        } else {
            None
        },
    }
}

/// The scope a scope word names; absent is unscoped.
pub open spec fn scope_word(w: Option<Seq<char>>) -> Option<Scope> {
    match w {
        None => Some(Scope::Unscoped),
        Some(x) => if x == "link-url"@ {
            Some(Scope::LinkUrl)
        } else if x == "code"@ {
            Some(Scope::Code)
        } else if x == "heading"@ {
            Some(Scope::Heading)
        } else if x == "comment"@ {
            Some(Scope::Comment)
        } else {
            None
        },
    }
}

/// The terms a match table's lexicon gives: none without a lexicon.
pub open spec fn lexicon_terms_of(mt: Seq<(String, TomlValue)>, lexicons: Seq<(String, String)>) -> Result<
    Seq<Seq<char>>,
    PolicyFault,
> {
    match str_at(mt, "lexicon"@) {
        Some(p) => lexicon_outcome(lexicons, p),
        None => Ok(seq![]),
    }
}

/// The elements of an optional array are all strings.
pub open spec fn strings_ok(a: Option<Seq<TomlValue>>) -> bool {
    match a {
        Some(x) => all_strings(x),
        None => true,
    }
}

/// The texts of an optional array; none when absent.
pub open spec fn listed_texts(a: Option<Seq<TomlValue>>) -> Seq<Seq<char>> {
    match a {
        Some(x) => texts(x),
        None => seq![],
    }
}

/// The first fault among a rule's match settings and patterns, in the
/// order they are read.
pub open spec fn match_fault(
    rt: Seq<(String, TomlValue)>,
    mt: Seq<(String, TomlValue)>,
    id: Seq<char>,
    lexicons: Seq<(String, String)>,
) -> Option<PolicyFault> {
    let kind = kind_word(str_at(mt, "kind"@));
    let lt = lexicon_terms_of(mt, lexicons);
    if kind is None {
        Some(PolicyFault::BadMatchKind(id, str_at(mt, "kind"@)))
    } else if lt is Err {
        Some(lt->Err_0)
    } else if !strings_ok(array_at(mt, "words"@)) {
        Some(PolicyFault::NotAString(StringEntry::MatchWord))
    } else if kind == Some(MatchKindSpec::WordSet) && (lt->Ok_0 + listed_texts(array_at(mt, "words"@))).len() == 0 {
        Some(PolicyFault::NoTerms(id))
    } else if case_word(str_at(mt, "case"@)) is None {
        Some(PolicyFault::UnknownSetting(id, RuleSetting::Case, str_at(mt, "case"@).unwrap()))
    } else if boundary_word(str_at(mt, "boundary"@)) is None {
        Some(PolicyFault::UnknownSetting(id, RuleSetting::Boundary, str_at(mt, "boundary"@).unwrap()))
    } else if position_word(str_at(mt, "position"@)) is None {
        Some(PolicyFault::UnknownSetting(id, RuleSetting::Position, str_at(mt, "position"@).unwrap()))
    } else if scope_word(str_at(mt, "scope"@)) is None {
        Some(PolicyFault::UnknownSetting(id, RuleSetting::Scope, str_at(mt, "scope"@).unwrap()))
    } else if !strings_ok(array_at(rt, "patterns"@)) {
        Some(PolicyFault::NotAString(StringEntry::Pattern))
    } else if kind == Some(MatchKindSpec::RegexSet) && listed_texts(array_at(rt, "patterns"@)).len() == 0 {
        Some(PolicyFault::NoPatterns(id))
    } else {
        None
    }
}

/// What a rule's match table and patterns give.
pub struct MatchPart {
    pub kind: MatchKindSpec,
    pub lexicon: Option<String>,
    pub terms: Vec<String>,
    pub case_sensitive: bool,
    pub boundary_word: bool,
    pub block_start: bool,
    pub scope: Scope,
    pub params: TomlValue,
    pub patterns: Vec<String>,
}

/// `m` holds what match table `mt` and rule table `rt` give.
pub open spec fn match_of(
    m: MatchPart,
    rt: Seq<(String, TomlValue)>,
    mt: Seq<(String, TomlValue)>,
    lexicons: Seq<(String, String)>,
) -> bool {
    &&& Some(m.kind) == kind_word(str_at(mt, "kind"@))
    &&& opt_view(m.lexicon) == str_at(mt, "lexicon"@)
    &&& string_views(m.terms@) == lexicon_terms_of(mt, lexicons)->Ok_0 + listed_texts(array_at(mt, "words"@))
    &&& Some(m.case_sensitive) == case_word(str_at(mt, "case"@))
    &&& Some(m.boundary_word) == boundary_word(str_at(mt, "boundary"@))
    &&& Some(m.block_start) == position_word(str_at(mt, "position"@))
    &&& Some(m.scope) == scope_word(str_at(mt, "scope"@))
    &&& match entries_get(mt, "params"@) {
        Some(p) => toml_same(p, m.params),
        None => m.params matches TomlValue::Table(t) && t@.len() == 0,
    }
    &&& string_views(m.patterns@) == listed_texts(array_at(rt, "patterns"@))
}

/// Reads an optional array of strings; absent gives none.
fn optional_strings(a: Option<&Vec<TomlValue>>, what: StringEntry) -> (r: Result<Vec<String>, PolicyError>)
    ensures
        r is Ok <==> strings_ok(match a {
            Some(x) => Some(x@),
            None => None,
        }),
        r matches Ok(v) ==> string_views(v@) == listed_texts(match a {
            Some(x) => Some(x@),
            None => None,
        }),
        r matches Err(e) ==> e@ == PolicyFault::NotAString(what),
{
    match a {
        Some(x) => string_list(x, what),
        None => {
            let v: Vec<String> = Vec::new();
            assert(string_views(v@) =~= Seq::<Seq<char>>::empty());
            Ok(v)
        },
    }
}

fn parse_match(
    rt: &Vec<(String, TomlValue)>,
    mt: &Vec<(String, TomlValue)>,
    id: &str,
    lexicons: &[(String, String)],
) -> (r: Result<MatchPart, PolicyError>)
    ensures
        r is Err <==> match_fault(rt@, mt@, id@, lexicons@) is Some,
        r matches Err(e) ==> match_fault(rt@, mt@, id@, lexicons@) == Some(e@),
        r matches Ok(m) ==> match_of(m, rt@, mt@, lexicons@),
{
    let kind_text = str_entry(mt, "kind");
    let kind = match kind_text {
        Some(x) => if str_eq(x.as_str(), "word-set") {
            MatchKindSpec::WordSet
        } else if str_eq(x.as_str(), "regex-set") {
            MatchKindSpec::RegexSet
        } else if str_eq(x.as_str(), "structural") {
            MatchKindSpec::Structure
        } else if str_eq(x.as_str(), "ratio") {
            MatchKindSpec::Ratio
        } else {
            return Err(PolicyError::BadMatchKind(owned(id), Some(owned(x.as_str()))));
        },
        None => {
            return Err(PolicyError::BadMatchKind(owned(id), None));
        },
    };
    let lexicon = match str_entry(mt, "lexicon") {
        Some(x) => Some(owned(x.as_str())),
        None => None,
    };
    let mut terms = match &lexicon {
        Some(path) => match lexicon_terms(path.as_str(), lexicons) {
            Ok(t) => t,
            Err(e) => {
                return Err(e);
            },
        },
        None => {
            let v: Vec<String> = Vec::new();
            assert(string_views(v@) =~= Seq::<Seq<char>>::empty());
            v
        },
    };
    let ghost lt = string_views(terms@);
    let mut words = match optional_strings(array_entry(mt, "words"), StringEntry::MatchWord) {
        Ok(w) => w,
        Err(e) => {
            return Err(e);
        },
    };
    let ghost wt = string_views(words@);
    terms.append(&mut words);
    assert(string_views(terms@) =~= lt + wt);
    if kind == MatchKindSpec::WordSet && terms.len() == 0 {
        return Err(PolicyError::NoTerms(owned(id)));
    }
    let case_sensitive = match str_entry(mt, "case") {
        Some(x) => if str_eq(x.as_str(), "sensitive") {
            true
        } else if str_eq(x.as_str(), "insensitive") {
            false
        } else {
            return Err(PolicyError::UnknownSetting(owned(id), RuleSetting::Case, owned(x.as_str())));
        },
        None => false,
    };
    let boundary_word = match str_entry(mt, "boundary") {
        Some(x) => if str_eq(x.as_str(), "word") {
            true
        } else if str_eq(x.as_str(), "none") {
            false
        } else {
            return Err(
                PolicyError::UnknownSetting(owned(id), RuleSetting::Boundary, owned(x.as_str())),
            );
        },
        None => false,
    };
    let block_start = match str_entry(mt, "position") {
        Some(x) => if str_eq(x.as_str(), "block-start") {
            true
        } else {
            return Err(
                PolicyError::UnknownSetting(owned(id), RuleSetting::Position, owned(x.as_str())),
            );
        },
        None => false,
    };
    let scope = match str_entry(mt, "scope") {
        Some(x) => if str_eq(x.as_str(), "link-url") {
            Scope::LinkUrl
        } else if str_eq(x.as_str(), "code") {
            Scope::Code
        } else if str_eq(x.as_str(), "heading") {
            Scope::Heading
        } else if str_eq(x.as_str(), "comment") {
            Scope::Comment
        } else {
            return Err(PolicyError::UnknownSetting(owned(id), RuleSetting::Scope, owned(x.as_str())));
        },
        None => Scope::Unscoped,
    };
    let params = match entry(mt, "params") {
        Some(p) => copy_value(p),
        None => TomlValue::Table(Vec::new()),
    };
    let patterns = match optional_strings(array_entry(rt, "patterns"), StringEntry::Pattern) {
        Ok(p) => p,
        Err(e) => {
            return Err(e);
        },
    };
    if kind == MatchKindSpec::RegexSet && patterns.len() == 0 {
        return Err(PolicyError::NoPatterns(owned(id)));
    }
    Ok(
        MatchPart {
            kind,
            lexicon,
            terms,
            case_sensitive,
            boundary_word,
            block_start,
            scope,
            params,
            patterns,
        },
    )
}

/// The first position from `j` on at which `names` holds `k`.
pub open spec fn position_in(names: Seq<Seq<char>>, k: Seq<char>, j: int) -> Option<int>
    decreases names.len() - j,
{
    if j < 0 || j >= names.len() {
        None
    } else if names[j] == k {
        Some(j)
    } else {
        position_in(names, k, j + 1)
    }
}

/// The stance under `default`, `apply` everywhere when absent.
pub open spec fn default_stance(pv: Seq<(String, TomlValue)>, id: Seq<char>) -> Result<
    FieldStance,
    PolicyFault,
> {
    match entries_get(pv, "default"@) {
        Some(v) => field_stance_outcome(v, id, "default"@),
        None => Ok(FieldStance { subject: Stance::Apply, body: Stance::Apply, trailers: Stance::Apply }),
    }
}

/// The stances `acc` once the profile entries of `pv` from `i` on are
/// applied in order, each replacing the stance of the profile it names.
pub open spec fn stances_from(
    pv: Seq<(String, TomlValue)>,
    i: int,
    acc: Seq<FieldStance>,
    id: Seq<char>,
    names: Seq<Seq<char>>,
) -> Result<Seq<FieldStance>, PolicyFault>
    decreases pv.len() - i,
{
    if i < 0 || i >= pv.len() {
        Ok(acc)
    } else if pv[i].0@ == "default"@ {
        stances_from(pv, i + 1, acc, id, names)
    } else {
        match position_in(names, pv[i].0@, 0) {
            None => Err(PolicyFault::UnknownProfile(id, pv[i].0@)),
            Some(j) => match field_stance_outcome(pv[i].1, id, pv[i].0@) {
                Err(f) => Err(f),
                Ok(fs) => stances_from(pv, i + 1, acc.update(j, fs), id, names),
            },
        }
    }
}

/// Eight copies of `d`.
pub open spec fn eight(d: FieldStance) -> Seq<FieldStance> {
    seq![d, d, d, d, d, d, d, d]
}

/// A rule's stance for each profile: the default everywhere, then each
/// named profile's own.
pub open spec fn stances_outcome(
    pv: Seq<(String, TomlValue)>,
    id: Seq<char>,
    names: Seq<Seq<char>>,
) -> Result<Seq<FieldStance>, PolicyFault> {
    match default_stance(pv, id) {
        Err(f) => Err(f),
        Ok(d) => stances_from(pv, 0, eight(d), id, names),
    }
}

/// Text in lower case, as `str::to_lowercase` gives it.
pub uninterp spec fn lowercase(s: Seq<char>) -> Seq<char>;

/// Lower-cases with `str::to_lowercase`; the contract claims the result is
/// a function of the text alone.
#[verifier::external_body]
fn to_lowercase(s: &str) -> (r: String)
    ensures
        r@ == lowercase(s@),
{
    s.to_lowercase()
}

/// Each text in lower case.
pub open spec fn lowered(s: Seq<Seq<char>>) -> Seq<Seq<char>> {
    s.map_values(|x: Seq<char>| lowercase(x))
}

/// Every array among the values of `ex` holds only strings.
pub open spec fn exemptions_ok(ex: Seq<(String, TomlValue)>) -> bool {
    forall|i: int|
        0 <= i < ex.len() ==> ((#[trigger] ex[i]).1 matches TomlValue::Array(a) ==> all_strings(a@))
}

/// The phrases of the array values of `ex`, in order, in lower case; other
/// values are passed over.
pub open spec fn phrases(ex: Seq<(String, TomlValue)>) -> Seq<Seq<char>>
    decreases ex.len(),
{
    if ex.len() == 0 {
        seq![]
    } else {
        phrases(ex.drop_last()) + match ex.last().1 {
            TomlValue::Array(a) => lowered(texts(a@)),
            _ => seq![],
        }
    }
}

/// The first fault among a rule's guard, judge question, profiles and
/// exemptions.
pub open spec fn tail_fault(
    rt: Seq<(String, TomlValue)>,
    id: Seq<char>,
    tier: Tier,
    names: Seq<Seq<char>>,
) -> Option<PolicyFault> {
    if str_at(rt, "guard"@) is None {
        Some(PolicyFault::RuleMissing(id, RuleKey::Guard))
    } else if tier == Tier::Candidate && str_at(rt, "judge"@) is None {
        Some(PolicyFault::NoJudge(id))
    } else {
        match table_at(rt, "profiles"@) {
            None => Some(PolicyFault::RuleMissing(id, RuleKey::Profiles)),
            Some(pv) => match stances_outcome(pv, id, names) {
                Err(f) => Some(f),
                Ok(_) => match table_at(rt, "exemptions"@) {
                    Some(ex) => if exemptions_ok(ex) {
                        None
                    } else {
                        Some(PolicyFault::NotAString(StringEntry::ExemptionPhrase))
                    },
                    None => None,
                },
            },
        }
    }
}

/// What a rule's guard, judge, profiles and exemptions give.
pub struct TailPart {
    pub guard: String,
    pub judge: Option<String>,
    pub stances: Vec<FieldStance>,
    pub exemptions: Vec<String>,
}

/// `t` holds what rule table `rt` gives for the tail keys.
pub open spec fn tail_of(t: TailPart, rt: Seq<(String, TomlValue)>, id: Seq<char>, names: Seq<Seq<char>>) -> bool {
    &&& Some(t.guard@) == str_at(rt, "guard"@)
    &&& opt_view(t.judge) == str_at(rt, "judge"@)
    &&& stances_outcome(table_at(rt, "profiles"@).unwrap(), id, names) == Ok::<Seq<FieldStance>, PolicyFault>(t.stances@)
    &&& string_views(t.exemptions@) == match table_at(rt, "exemptions"@) {
        Some(ex) => phrases(ex),
        None => seq![],
    }
}

fn parse_stances(pv: &Vec<(String, TomlValue)>, id: &str, names: &Vec<String>) -> (r: Result<
    Vec<FieldStance>,
    PolicyError,
>)
    requires
        names@.len() == 8,
    ensures
        match r {
            Ok(v) => stances_outcome(pv@, id@, string_views(names@)) == Ok::<Seq<FieldStance>, PolicyFault>(v@),
            Err(e) => stances_outcome(pv@, id@, string_views(names@)) == Err::<Seq<FieldStance>, PolicyFault>(e@),
        },
{
    let ghost nm = string_views(names@);
    let d = match entry(pv, "default") {
        Some(v) => match parse_field_stance(v, id, "default") {
            Ok(d) => d,
            Err(e) => {
                return Err(e);
            },
        },
        None => FieldStance::uniform(Stance::Apply),
    };
    assert(default_stance(pv@, id@) == Ok::<FieldStance, PolicyFault>(d));
    let mut stances: Vec<FieldStance> = Vec::new();
    for q in 0..8usize
        invariant
            stances@.len() == q,
            forall|j: int| 0 <= j < q ==> stances@[j] == d,
    {
        stances.push(d);
    }
    assert(stances@ =~= eight(d));
    let n = pv.len();
    for i in 0..n
        invariant
            n == pv@.len(),
            names@.len() == 8,
            nm == string_views(names@),
            stances@.len() == 8,
            stances_from(pv@, i as int, stances@, id@, nm) == stances_outcome(pv@, id@, nm),
    {
        let key = pv[i].0.as_str();
        if !str_eq(key, "default") {
            let mut j: usize = 0;
            while j < 8 && !str_eq(names[j].as_str(), key)
                invariant
                    0 <= j <= 8,
                    names@.len() == 8,
                    nm == string_views(names@),
                    position_in(nm, key@, j as int) == position_in(nm, key@, 0),
                decreases 8 - j,
            {
                j += 1;
            }
            if j == 8 {
                return Err(PolicyError::UnknownProfile(owned(id), owned(key)));
            }
            match parse_field_stance(&pv[i].1, id, key) {
                Ok(fs) => {
                    stances.set(j, fs);
                },
                Err(e) => {
                    return Err(e);
                },
            }
        }
    }
    Ok(stances)
}

#[verifier::loop_isolation(false)]
fn parse_tail(
    rt: &Vec<(String, TomlValue)>,
    id: &str,
    tier: Tier,
    names: &Vec<String>,
) -> (r: Result<TailPart, PolicyError>)
    requires
        names@.len() == 8,
    ensures
        r is Err <==> tail_fault(rt@, id@, tier, string_views(names@)) is Some,
        r matches Err(e) ==> tail_fault(rt@, id@, tier, string_views(names@)) == Some(e@),
        r matches Ok(t) ==> tail_of(t, rt@, id@, string_views(names@)),
{
    let guard = match str_entry(rt, "guard") {
        Some(x) => owned(x.as_str()),
        None => {
            return Err(PolicyError::RuleMissing(owned(id), RuleKey::Guard));
        },
    };
    let judge = match str_entry(rt, "judge") {
        Some(x) => Some(owned(x.as_str())),
        None => None,
    };
    if tier == Tier::Candidate && judge.is_none() {
        return Err(PolicyError::NoJudge(owned(id)));
    }
    let pv = match table_entry(rt, "profiles") {
        Some(pv) => pv,
        None => {
            return Err(PolicyError::RuleMissing(owned(id), RuleKey::Profiles));
        },
    };
    let stances = match parse_stances(pv, id, names) {
        Ok(v) => v,
        Err(e) => {
            return Err(e);
        },
    };
    let mut exemptions: Vec<String> = Vec::new();
    match table_entry(rt, "exemptions") {
        Some(ex) => {
            let n = ex.len();
            for i in 0..n
                invariant
                    n == ex@.len(),
                    forall|k: int| 0 <= k < i ==> ((#[trigger] ex@[k]).1 matches TomlValue::Array(a) ==> all_strings(a@)),
                    string_views(exemptions@) == phrases(ex@.take(i as int)),
            {
                let ghost before = string_views(exemptions@);
                assert(ex@.take(i + 1).drop_last() =~= ex@.take(i as int));
                match &ex[i].1 {
                    TomlValue::Array(arr) => {
                        let m = arr.len();
                        for q in 0..m
                            invariant
                                m == arr@.len(),
                                forall|w: int| 0 <= w < q ==> #[trigger] arr@[w] is String,
                                string_views(exemptions@) == before + lowered(texts(arr@.take(q as int))),
                        {
                            match &arr[q] {
                                TomlValue::String(x) => {
                                    let ghost prev = string_views(exemptions@);
                                    exemptions.push(to_lowercase(x.as_str()));
                                    assert(string_views(exemptions@) =~= prev.push(lowercase(x@)));
                                    assert(texts(arr@.take(q + 1)) =~= texts(arr@.take(q as int)).push(x@));
                                    assert(lowered(texts(arr@.take(q + 1))) =~= lowered(texts(arr@.take(q as int))).push(lowercase(x@)));
                                },
                                _ => {
                                    assert(!all_strings(arr@));
                                    assert(ex@[i as int].1 == TomlValue::Array(*arr));
                                    assert(!exemptions_ok(ex@));
                                    return Err(PolicyError::NotAString(StringEntry::ExemptionPhrase));
                                },
                            }
                            assert(string_views(exemptions@) =~= before + lowered(texts(arr@.take(q + 1))));
                        }
                        assert(arr@.take(m as int) =~= arr@);
                    },
                    _ => {
                        assert(string_views(exemptions@) =~= before + seq![]);
                    },
                }
            }
            assert(ex@.take(n as int) =~= ex@);
        },
        None => {
            assert(string_views(exemptions@) =~= Seq::<Seq<char>>::empty());
        },
    }
    Ok(TailPart { guard, judge, stances, exemptions })
}

/// The first fault of rule entry `rv`, with the profile names `names` and
/// the lexicons at hand; none when the entry makes a rule.
pub open spec fn rule_fault(rv: TomlValue, names: Seq<Seq<char>>, lexicons: Seq<(String, String)>) -> Option<
    PolicyFault,
> {
    match rv {
        TomlValue::Table(t) => match str_at(t@, "id"@) {
            None => Some(PolicyFault::RuleMissingId),
            Some(id) => if head_fault(t@, id) is Some {
                head_fault(t@, id)
            } else {
                match table_at(t@, "match"@) {
                    None => Some(PolicyFault::RuleMissing(id, RuleKey::Match)),
                    Some(mt) => if match_fault(t@, mt, id, lexicons) is Some {
                        match_fault(t@, mt, id, lexicons)
                    } else {
                        tail_fault(t@, id, tier_word(str_at(t@, "tier"@).unwrap()).unwrap(), names)
                    },
                }
            },
        },
        _ => Some(PolicyFault::RuleNotTable),
    }
}

/// `r` is the rule that entry `rv` makes.
pub open spec fn rule_built(
    r: Rule,
    rv: TomlValue,
    names: Seq<Seq<char>>,
    lexicons: Seq<(String, String)>,
) -> bool {
    &&& rv is Table
    &&& Some(r.id@) == str_at(rv->Table_0@, "id"@)
    &&& head_of(
        RuleHead {
            name: r.name,
            family: r.family,
            tier: r.tier,
            lifecycle: r.lifecycle,
            origin: r.origin,
            human_only_waiver: r.human_only_waiver,
            view: r.view,
        },
        rv->Table_0@,
    )
    &&& match_of(
        MatchPart {
            kind: r.kind,
            lexicon: r.lexicon,
            terms: r.terms,
            case_sensitive: r.case_sensitive,
            boundary_word: r.boundary_word,
            block_start: r.block_start,
            scope: r.scope,
            params: r.params,
            patterns: r.patterns,
        },
        rv->Table_0@,
        table_at(rv->Table_0@, "match"@).unwrap(),
        lexicons,
    )
    &&& tail_of(
        TailPart { guard: r.guard, judge: r.judge, stances: r.stances, exemptions: r.exemptions },
        rv->Table_0@,
        r.id@,
        names,
    )
}

fn parse_rule(rv: &TomlValue, names: &Vec<String>, lexicons: &[(String, String)]) -> (r: Result<
    Rule,
    PolicyError,
>)
    requires
        names@.len() == 8,
    ensures
        r is Err <==> rule_fault(*rv, string_views(names@), lexicons@) is Some,
        r matches Err(e) ==> rule_fault(*rv, string_views(names@), lexicons@) == Some(e@),
        r matches Ok(rule) ==> rule_built(rule, *rv, string_views(names@), lexicons@),
{
    let rt = match rv {
        TomlValue::Table(t) => t,
        _ => {
            return Err(PolicyError::RuleNotTable);
        },
    };
    let id = match str_entry(rt, "id") {
        Some(x) => owned(x.as_str()),
        None => {
            return Err(PolicyError::RuleMissingId);
        },
    };
    let h = match parse_head(rt, id.as_str()) {
        Ok(h) => h,
        Err(e) => {
            return Err(e);
        },
    };
    let mt = match table_entry(rt, "match") {
        Some(m) => m,
        None => {
            return Err(PolicyError::RuleMissing(id, RuleKey::Match));
        },
    };
    let m = match parse_match(rt, mt, id.as_str(), lexicons) {
        Ok(m) => m,
        Err(e) => {
            return Err(e);
        },
    };
    let t = match parse_tail(rt, id.as_str(), h.tier, names) {
        Ok(t) => t,
        Err(e) => {
            return Err(e);
        },
    };
    let rule = Rule {
        id,
        name: h.name,
        family: h.family,
        tier: h.tier,
        lifecycle: h.lifecycle,
        origin: h.origin,
        human_only_waiver: h.human_only_waiver,
        view: h.view,
        kind: m.kind,
        lexicon: m.lexicon,
        terms: m.terms,
        case_sensitive: m.case_sensitive,
        boundary_word: m.boundary_word,
        block_start: m.block_start,
        scope: m.scope,
        params: m.params,
        patterns: m.patterns,
        guard: t.guard,
        judge: t.judge,
        stances: t.stances,
        exemptions: t.exemptions,
    };
    Ok(rule)
}

/// The profile names in package order.
pub open spec fn package_names() -> Seq<Seq<char>> {
    Seq::new(8, |i: int| profile_name(profile_at(i).unwrap()))
}

/// The first position where `names` departs from package order.
pub open spec fn first_misplaced(names: Seq<Seq<char>>, i: int) -> Option<int>
    decreases 8 - i,
{
    if i < 0 || i >= 8 {
        None
    } else if names[i] != package_names()[i] {
        Some(i)
    } else {
        first_misplaced(names, i + 1)
    }
}

/// The fault of a profile name list: not eight names, or a name out of
/// package order.
pub open spec fn names_fault(names: Seq<Seq<char>>) -> Option<PolicyFault> {
    if names.len() != 8 {
        Some(PolicyFault::ProfileCount(names.len()))
    } else {
        match first_misplaced(names, 0) {
            Some(i) => Some(PolicyFault::ProfileOrder(i as nat, names[i])),
            None => None,
        }
    }
}

/// The first fault of the package's `[policy]` and `[semantics]` tables.
pub open spec fn header_fault(rt: Seq<(String, TomlValue)>) -> Option<PolicyFault> {
    let sem = table_at(rt, "semantics"@).unwrap();
    if table_at(rt, "policy"@) is None {
        Some(PolicyFault::Missing(PolicyItem::Policy))
    } else if str_at(table_at(rt, "policy"@).unwrap(), "version"@) is None {
        Some(PolicyFault::Missing(PolicyItem::PolicyVersion))
    } else if table_at(rt, "semantics"@) is None {
        Some(PolicyFault::Missing(PolicyItem::Semantics))
    } else if array_at(sem, "quotation_downgrade"@) is None {
        Some(PolicyFault::Missing(PolicyItem::QuotationDowngrade))
    } else if !all_strings(array_at(sem, "quotation_downgrade"@).unwrap()) {
        Some(PolicyFault::NotAString(StringEntry::QuotationDowngrade))
    } else if array_at(sem, "profile_names"@) is None {
        Some(PolicyFault::Missing(PolicyItem::ProfileNames))
    } else if !all_strings(array_at(sem, "profile_names"@).unwrap()) {
        Some(PolicyFault::NotAString(StringEntry::ProfileName))
    } else {
        names_fault(texts(array_at(sem, "profile_names"@).unwrap()))
    }
}

/// The profile names the package declares.
pub open spec fn declared_names(rt: Seq<(String, TomlValue)>) -> Seq<Seq<char>> {
    texts(array_at(table_at(rt, "semantics"@).unwrap(), "profile_names"@).unwrap())
}

/// Every value of a core-rules table is a string.
pub open spec fn core_ok(cr: Seq<(String, TomlValue)>) -> bool {
    forall|i: int| 0 <= i < cr.len() ==> (#[trigger] cr[i]).1 is String
}

/// The fault of the definition of profile `name` in the profile tables
/// `pt`.
pub open spec fn profile_fault(pt: Seq<(String, TomlValue)>, name: Seq<char>) -> Option<PolicyFault> {
    match table_at(pt, name) {
        None => Some(PolicyFault::ProfileMissing(name)),
        Some(def) => if str_at(def, "format"@) is None {
            Some(PolicyFault::ProfileFormatMissing(name))
        } else {
            match table_at(def, "core_rules"@) {
                Some(cr) => if core_ok(cr) {
                    None
                } else {
                    Some(PolicyFault::NotAString(StringEntry::CoreRuleStance))
                },
                None => None,
            }
        },
    }
}

/// The first fault among the definitions of `names[i..]`.
pub open spec fn profiles_fault_from(pt: Seq<(String, TomlValue)>, names: Seq<Seq<char>>, i: int) -> Option<
    PolicyFault,
>
    decreases names.len() - i,
{
    if i < 0 || i >= names.len() {
        None
    } else if profile_fault(pt, names[i]) is Some {
        profile_fault(pt, names[i])
    } else {
        profiles_fault_from(pt, names, i + 1)
    }
}

/// `d` is the definition of profile `name` in the profile tables `pt`.
pub open spec fn profile_built(d: ProfileDef, pt: Seq<(String, TomlValue)>, name: Seq<char>) -> bool {
    let def = table_at(pt, name).unwrap();
    let cr = match table_at(def, "core_rules"@) {
        Some(c) => c,
        None => seq![],
    };
    &&& d.name@ == name
    &&& Some(d.format@) == str_at(def, "format"@)
    &&& d.core_rules@.len() == cr.len()
    &&& forall|i: int|
        0 <= i < cr.len() ==> (#[trigger] d.core_rules@[i]).0@ == cr[i].0@ && Some(
            d.core_rules@[i].1@,
        ) == opt_str(Some(cr[i].1))
    &&& d.notes@ == match str_at(def, "notes"@) {
        Some(n) => n,
        None => seq![],
    }
}

#[verifier::loop_isolation(false)]
fn parse_profile(pt: &Vec<(String, TomlValue)>, name: &String) -> (r: Result<ProfileDef, PolicyError>)
    ensures
        r is Err <==> profile_fault(pt@, name@) is Some,
        r matches Err(e) ==> profile_fault(pt@, name@) == Some(e@),
        r matches Ok(d) ==> profile_built(d, pt@, name@),
{
    let def = match table_entry(pt, name.as_str()) {
        Some(d) => d,
        None => {
            return Err(PolicyError::ProfileMissing(name.clone()));
        },
    };
    let format = match str_entry(def, "format") {
        Some(x) => owned(x.as_str()),
        None => {
            return Err(PolicyError::ProfileFormatMissing(name.clone()));
        },
    };
    let mut core_rules: Vec<(String, String)> = Vec::new();
    match table_entry(def, "core_rules") {
        Some(cr) => {
            for i in 0..cr.len()
                invariant
                    core_rules@.len() == i,
                    forall|j: int| 0 <= j < i ==> (#[trigger] cr@[j]).1 is String,
                    forall|j: int|
                        0 <= j < i ==> (#[trigger] core_rules@[j]).0@ == cr@[j].0@ && Some(
                            core_rules@[j].1@,
                        ) == opt_str(Some(cr@[j].1)),
            {
                match &cr[i].1 {
                    TomlValue::String(x) => {
                        core_rules.push((owned(cr[i].0.as_str()), owned(x.as_str())));
                    },
                    _ => {
                        assert(!core_ok(cr@));
                        return Err(PolicyError::NotAString(StringEntry::CoreRuleStance));
                    },
                }
            }
        },
        None => {},
    }
    let notes = match str_entry(def, "notes") {
        Some(x) => owned(x.as_str()),
        None => String::new(),
    };
    Ok(ProfileDef { name: name.clone(), format, core_rules, notes })
}

/// The first entry index from `i` on whose rule has a fault.
pub open spec fn rules_fault_from(
    arr: Seq<TomlValue>,
    names: Seq<Seq<char>>,
    lexicons: Seq<(String, String)>,
    i: int,
) -> Option<PolicyFault>
    decreases arr.len() - i,
{
    if i < 0 || i >= arr.len() {
        None
    } else if rule_fault(arr[i], names, lexicons) is Some {
        rule_fault(arr[i], names, lexicons)
    } else {
        rules_fault_from(arr, names, lexicons, i + 1)
    }
}

/// The lexicon path a rule entry names.
pub open spec fn entry_lexicon(rv: TomlValue) -> Option<Seq<char>> {
    str_at(table_at(rv->Table_0@, "match"@).unwrap(), "lexicon"@)
}

/// How many of the first `n` rule entries name lexicon `path`.
pub open spec fn lexicon_uses(arr: Seq<TomlValue>, path: Seq<char>, n: int) -> nat
    decreases n,
{
    if n <= 0 {
        0
    } else {
        lexicon_uses(arr, path, n - 1) + if entry_lexicon(arr[n - 1]) == Some(path) {
            1nat
        } else {
            0nat
        }
    }
}

/// The first lexicon from `k` on that is not named by exactly one rule.
pub open spec fn uses_fault_from(arr: Seq<TomlValue>, lexicons: Seq<(String, String)>, k: int) -> Option<
    PolicyFault,
>
    decreases lexicons.len() - k,
{
    if k < 0 || k >= lexicons.len() {
        None
    } else if lexicon_uses(arr, lexicons[k].0@, arr.len() as int) != 1 {
        Some(PolicyFault::LexiconUses(lexicons[k].0@, lexicon_uses(arr, lexicons[k].0@, arr.len() as int)))
    } else {
        uses_fault_from(arr, lexicons, k + 1)
    }
}

/// The id of a rule entry.
pub open spec fn entry_id(rv: TomlValue) -> Seq<char> {
    str_at(rv->Table_0@, "id"@).unwrap()
}

/// Some entry before `i` has the id of entry `i`.
pub open spec fn id_seen(arr: Seq<TomlValue>, i: int) -> bool {
    exists|j: int| 0 <= j < i && entry_id(#[trigger] arr[j]) == entry_id(arr[i])
}

/// The first entry from `i` on whose id an earlier entry has.
pub open spec fn dup_fault_from(arr: Seq<TomlValue>, i: int) -> Option<PolicyFault>
    decreases arr.len() - i,
{
    if i < 0 || i >= arr.len() {
        None
    } else if id_seen(arr, i) {
        Some(PolicyFault::DuplicateRule(entry_id(arr[i])))
    } else {
        dup_fault_from(arr, i + 1)
    }
}

/// The first fault of a parsed policy document with the lexicons at hand,
/// in the order the package is read: header, profiles, rules, lexicon use,
/// duplicate ids. None when the package loads.
pub open spec fn package_fault(root: TomlValue, lexicons: Seq<(String, String)>) -> Option<PolicyFault> {
    match root {
        TomlValue::Table(t) => {
            let rt = t@;
            let names = declared_names(rt);
            if header_fault(rt) is Some {
                header_fault(rt)
            } else if table_at(rt, "profile"@) is None {
                Some(PolicyFault::Missing(PolicyItem::ProfileTables))
            } else if profiles_fault_from(table_at(rt, "profile"@).unwrap(), names, 0) is Some {
                profiles_fault_from(table_at(rt, "profile"@).unwrap(), names, 0)
            } else if array_at(rt, "rule"@) is None {
                Some(PolicyFault::Missing(PolicyItem::Rules))
            } else if rules_fault_from(array_at(rt, "rule"@).unwrap(), names, lexicons, 0) is Some {
                rules_fault_from(array_at(rt, "rule"@).unwrap(), names, lexicons, 0)
            } else if uses_fault_from(array_at(rt, "rule"@).unwrap(), lexicons, 0) is Some {
                uses_fault_from(array_at(rt, "rule"@).unwrap(), lexicons, 0)
            } else {
                dup_fault_from(array_at(rt, "rule"@).unwrap(), 0)
            }
        },
        _ => Some(PolicyFault::RootNotTable),
    }
}

/// `p` is the package a fault-free document gives.
pub open spec fn package_built(
    p: PolicyPackage,
    root: TomlValue,
    policy_toml: Seq<u8>,
    lexicons: Seq<(String, String)>,
) -> bool {
    let rt = root->Table_0@;
    let sem = table_at(rt, "semantics"@).unwrap();
    let pt = table_at(rt, "profile"@).unwrap();
    let arr = array_at(rt, "rule"@).unwrap();
    let names = declared_names(rt);
    &&& Some(p.version@) == str_at(table_at(rt, "policy"@).unwrap(), "version"@)
    &&& p.digest@ == digest_prefix() + hex_lower(sha256_digest(canonical(policy_toml, lexicons)))
    &&& string_views(p.quotation_downgrade@) == texts(array_at(sem, "quotation_downgrade"@).unwrap())
    &&& string_views(p.profile_names@) == names
    &&& p.profiles@.len() == 8
    &&& forall|i: int| 0 <= i < 8 ==> profile_built(#[trigger] p.profiles@[i], pt, names[i])
    &&& p.rules@.len() == arr.len()
    &&& forall|i: int| 0 <= i < arr.len() ==> rule_built(#[trigger] p.rules@[i], arr[i], names, lexicons)
}

/// Builds the policy package from a parsed policy document, validating it
/// against the lexicons at hand, and computes its digest over the policy
/// text and the lexicons.
#[verifier::loop_isolation(false)]
#[verifier::spinoff_prover]
#[verifier::rlimit(50)]
pub fn load_document(policy_toml: &str, root: &TomlValue, lexicons: &[(String, String)]) -> (r: Result<
    PolicyPackage,
    PolicyError,
>)
    ensures
        r is Err <==> package_fault(*root, lexicons@) is Some,
        r matches Err(e) ==> package_fault(*root, lexicons@) == Some(e@),
        r matches Ok(p) ==> package_built(p, *root, policy_toml.spec_bytes(), lexicons@),
{
    let rt = match root {
        TomlValue::Table(t) => t,
        _ => {
            return Err(PolicyError::RootNotTable);
        },
    };
    let policy_tbl = match table_entry(rt, "policy") {
        Some(t) => t,
        None => {
            return Err(PolicyError::Missing(PolicyItem::Policy));
        },
    };
    let version = match str_entry(policy_tbl, "version") {
        Some(x) => owned(x.as_str()),
        None => {
            return Err(PolicyError::Missing(PolicyItem::PolicyVersion));
        },
    };
    let sem = match table_entry(rt, "semantics") {
        Some(t) => t,
        None => {
            return Err(PolicyError::Missing(PolicyItem::Semantics));
        },
    };
    let qd = match array_entry(sem, "quotation_downgrade") {
        Some(a) => a,
        None => {
            return Err(PolicyError::Missing(PolicyItem::QuotationDowngrade));
        },
    };
    let quotation_downgrade = match string_list(qd, StringEntry::QuotationDowngrade) {
        Ok(v) => v,
        Err(e) => {
            return Err(e);
        },
    };
    let pn = match array_entry(sem, "profile_names") {
        Some(a) => a,
        None => {
            return Err(PolicyError::Missing(PolicyItem::ProfileNames));
        },
    };
    let profile_names = match string_list(pn, StringEntry::ProfileName) {
        Ok(v) => v,
        Err(e) => {
            return Err(e);
        },
    };
    let ghost names = string_views(profile_names@);
    assert(names == declared_names(rt@));
    if profile_names.len() != 8 {
        return Err(PolicyError::ProfileCount(profile_names.len()));
    }
    for i in 0..8usize
        invariant
            first_misplaced(names, 0) == first_misplaced(names, i as int),
    {
        let p = Profile::from_index(i).unwrap();
        let expected = p.as_str();
        assert(expected@ == package_names()[i as int]);
        if !str_eq(profile_names[i].as_str(), expected) {
            return Err(PolicyError::ProfileOrder(i, profile_names[i].clone()));
        }
    }
    assert(names_fault(names) is None);
    let pt = match table_entry(rt, "profile") {
        Some(t) => t,
        None => {
            return Err(PolicyError::Missing(PolicyItem::ProfileTables));
        },
    };
    let mut profiles: Vec<ProfileDef> = Vec::new();
    for i in 0..8usize
        invariant
            profiles@.len() == i,
            profiles_fault_from(pt@, names, 0) == profiles_fault_from(pt@, names, i as int),
            forall|j: int| 0 <= j < i ==> profile_built(#[trigger] profiles@[j], pt@, names[j]),
    {
        match parse_profile(pt, &profile_names[i]) {
            Ok(d) => {
                profiles.push(d);
            },
            Err(e) => {
                return Err(e);
            },
        }
    }
    let arr = match array_entry(rt, "rule") {
        Some(a) => a,
        None => {
            return Err(PolicyError::Missing(PolicyItem::Rules));
        },
    };
    let mut rules: Vec<Rule> = Vec::new();
    for i in 0..arr.len()
        invariant
            rules@.len() == i,
            rules_fault_from(arr@, names, lexicons@, 0) == rules_fault_from(arr@, names, lexicons@, i as int),
            forall|j: int| 0 <= j < i ==> rule_built(#[trigger] rules@[j], arr@[j], names, lexicons@),
    {
        match parse_rule(&arr[i], &profile_names, lexicons) {
            Ok(rule) => {
                rules.push(rule);
            },
            Err(e) => {
                return Err(e);
            },
        }
    }
    assert(rules_fault_from(arr@, names, lexicons@, 0) is None);
    assert forall|j: int| 0 <= j < arr@.len() implies opt_view(#[trigger] rules@[j].lexicon) == entry_lexicon(arr@[j]) && rules@[j].id@ == entry_id(arr@[j]) by {
        assert(rule_built(rules@[j], arr@[j], names, lexicons@));
    }
    for k in 0..lexicons.len()
        invariant
            uses_fault_from(arr@, lexicons@, 0) == uses_fault_from(arr@, lexicons@, k as int),
    {
        let path = lexicons[k].0.as_str();
        let mut count: usize = 0;
        for j in 0..rules.len()
            invariant
                count == lexicon_uses(arr@, path@, j as int),
                count <= j,
        {
            let hit = match &rules[j].lexicon {
                Some(l) => str_eq(l.as_str(), path),
                None => false,
            };
            if hit {
                count += 1;
            }
        }
        if count != 1 {
            return Err(PolicyError::LexiconUses(owned(path), count));
        }
    }
    for i in 0..rules.len()
        invariant
            dup_fault_from(arr@, 0) == dup_fault_from(arr@, i as int),
    {
        for j in 0..i
            invariant
                forall|q: int| 0 <= q < j ==> entry_id(#[trigger] arr@[q]) != entry_id(arr@[i as int]),
        {
            if str_eq(rules[j].id.as_str(), rules[i].id.as_str()) {
                assert(id_seen(arr@, i as int));
                return Err(PolicyError::DuplicateRule(rules[i].id.clone()));
            }
        }
        assert(!id_seen(arr@, i as int));
    }
    let digest = compute_digest(policy_toml, lexicons);
    Ok(
        PolicyPackage {
            version,
            digest,
            quotation_downgrade,
            profile_names,
            profiles,
            rules,
        },
    )
}

/// `toml::Value`, the TOML parser's document tree.
#[verifier::external_type_specification]
#[verifier::external_body]
pub struct ExTomlValue(toml::Value);

/// `toml::de::Error`, the TOML parser's error.
#[verifier::external_type_specification]
#[verifier::external_body]
pub struct ExTomlDeError(toml::de::Error);

/// The document TOML text parses to, or none when it is not TOML.
pub uninterp spec fn toml_document(text: Seq<char>) -> Option<TomlValue>;

/// Parses TOML text with `toml::from_str` into a `toml::Value` and hands
/// the tree over as a `TomlValue`. The contract claims only that the
/// outcome is a function of the text: the document for text that parses,
/// the parser's error otherwise.
#[verifier::external_body]
pub(crate) fn parse_toml(text: &str) -> (r: Result<TomlValue, toml::de::Error>)
    ensures
        r is Ok <==> toml_document(text@) is Some,
        r matches Ok(v) ==> toml_document(text@) == Some(v),
{
    toml::from_str::<toml::Value>(text).map(toml_tree)
}

/// A `toml::Value` as a `TomlValue`, variant for variant; floats and
/// datetimes keep their TOML text.
#[verifier::external_body]
fn toml_tree(v: toml::Value) -> TomlValue {
    match v {
        toml::Value::String(s) => TomlValue::String(s),
        toml::Value::Integer(i) => TomlValue::Integer(i),
        toml::Value::Float(f) => TomlValue::Float(f.to_string()),
        toml::Value::Boolean(b) => TomlValue::Boolean(b),
        toml::Value::Datetime(d) => TomlValue::Datetime(d.to_string()),
        toml::Value::Array(a) => TomlValue::Array(a.into_iter().map(toml_tree).collect()),
        toml::Value::Table(t) => TomlValue::Table(t.into_iter().map(|(k, x)| (k, toml_tree(x))).collect()),
    }
}

/// The message of a TOML parse error, as its `Display` writes it; nothing
/// is claimed of the text.
#[verifier::external_body]
pub(crate) fn toml_error_text(e: &toml::de::Error) -> String {
    e.to_string()
}

/// Parses the policy text and builds the package from it with the
/// lexicons at hand (see `load_document`). Text that is not TOML is
/// refused with the parser's message.
pub fn load(policy_toml: &str, lexicons: &[(String, String)]) -> (r: Result<PolicyPackage, PolicyError>)
    ensures
        match toml_document(policy_toml@) {
            None => r matches Err(PolicyError::Parse(_)),
            Some(root) => {
                &&& r is Err <==> package_fault(root, lexicons@) is Some
                &&& r matches Err(e) ==> package_fault(root, lexicons@) == Some(e@)
                &&& r matches Ok(p) ==> package_built(p, root, policy_toml.spec_bytes(), lexicons@)
            },
        },
{
    match parse_toml(policy_toml) {
        Ok(root) => load_document(policy_toml, &root, lexicons),
        Err(e) => Err(PolicyError::Parse(toml_error_text(&e))),
    }
}

proof fn lemma_position_in(names: Seq<Seq<char>>, k: Seq<char>, j: int)
    ensures
        position_in(names, k, j) matches Some(q) ==> 0 <= q < names.len() && q >= j,
    decreases names.len() - j,
{
    if 0 <= j < names.len() && names[j] != k {
        lemma_position_in(names, k, j + 1);
    }
}

proof fn lemma_stances_len(
    pv: Seq<(String, TomlValue)>,
    i: int,
    acc: Seq<FieldStance>,
    id: Seq<char>,
    names: Seq<Seq<char>>,
)
    requires
        acc.len() == names.len(),
    ensures
        stances_from(pv, i, acc, id, names) matches Ok(s) ==> s.len() == names.len(),
    decreases pv.len() - i,
{
    if 0 <= i < pv.len() {
        if pv[i].0@ == "default"@ {
            lemma_stances_len(pv, i + 1, acc, id, names);
        } else {
            lemma_position_in(names, pv[i].0@, 0);
            match position_in(names, pv[i].0@, 0) {
                None => {},
                Some(j) => match field_stance_outcome(pv[i].1, id, pv[i].0@) {
                    Err(f) => {},
                    Ok(fs) => {
                        lemma_stances_len(pv, i + 1, acc.update(j, fs), id, names);
                    },
                },
            }
        }
    }
}

/// How many of the first `n` rules name lexicon `path`.
pub open spec fn rules_naming(rules: Seq<Rule>, path: Seq<char>, n: int) -> nat
    decreases n,
{
    if n <= 0 {
        0
    } else {
        rules_naming(rules, path, n - 1) + if opt_view(rules[n - 1].lexicon) == Some(path) {
            1nat
        } else {
            0nat
        }
    }
}

proof fn lemma_uses_fault_none(arr: Seq<TomlValue>, lexicons: Seq<(String, String)>, k: int)
    requires
        0 <= k,
        uses_fault_from(arr, lexicons, k) is None,
    ensures
        forall|q: int| k <= q < lexicons.len() ==> lexicon_uses(arr, #[trigger] lexicons[q].0@, arr.len() as int) == 1,
    decreases lexicons.len() - k,
{
    if k < lexicons.len() {
        lemma_uses_fault_none(arr, lexicons, k + 1);
    }
}

proof fn lemma_dup_fault_none(arr: Seq<TomlValue>, i: int)
    requires
        0 <= i,
        dup_fault_from(arr, i) is None,
    ensures
        forall|q: int| i <= q < arr.len() ==> !id_seen(arr, q),
    decreases arr.len() - i,
{
    if i < arr.len() {
        lemma_dup_fault_none(arr, i + 1);
    }
}

proof fn lemma_rules_naming(rules: Seq<Rule>, arr: Seq<TomlValue>, path: Seq<char>, n: int)
    requires
        0 <= n <= rules.len(),
        rules.len() == arr.len(),
        forall|j: int| 0 <= j < rules.len() ==> opt_view(#[trigger] rules[j].lexicon) == entry_lexicon(arr[j]),
    ensures
        rules_naming(rules, path, n) == lexicon_uses(arr, path, n),
    decreases n,
{
    if n > 0 {
        lemma_rules_naming(rules, arr, path, n - 1);
        assert(opt_view(rules[n - 1].lexicon) == entry_lexicon(arr[n - 1]));
    }
}

/// The text `s` is what `lowercase` makes of some text.
pub open spec fn is_lowered(s: Seq<char>) -> bool {
    exists|x: Seq<char>| s == #[trigger] lowercase(x)
}

proof fn lemma_exemptions_lowered(
    p: PolicyPackage,
    root: TomlValue,
    policy_toml: Seq<u8>,
    lexicons: Seq<(String, String)>,
)
    requires
        package_fault(root, lexicons) is None,
        package_built(p, root, policy_toml, lexicons),
    ensures
        forall|i: int, k: int|
            0 <= i < p.rules@.len() && 0 <= k < p.rules@[i].exemptions@.len() ==> is_lowered(
                #[trigger] p.rules@[i].exemptions@[k]@,
            ),
{
    let rt = root->Table_0@;
    assert forall|i: int, k: int|
        0 <= i < p.rules@.len() && 0 <= k < p.rules@[i].exemptions@.len() implies is_lowered(
            #[trigger] p.rules@[i].exemptions@[k]@,
        ) by {
        let arr = array_at(rt, "rule"@).unwrap();
        let r = p.rules@[i];
        assert(rule_built(r, arr[i], declared_names(rt), lexicons));
        let t = arr[i]->Table_0@;
        assert(string_views(r.exemptions@)[k] == r.exemptions@[k]@);
        match table_at(t, "exemptions"@) {
            Some(ex) => {
                lemma_phrases_lowered(ex);
                assert(phrases(ex)[k] == string_views(r.exemptions@)[k]);
            },
            None => {
                assert(string_views(r.exemptions@).len() == 0);
            },
        }
    }
}

/// A package that loads is fit for evaluation and consistent: every rule
/// carries one stance per profile, no two rules share an id, every
/// lexicon is named by exactly one rule, the package names the eight
/// profiles in package order, a candidate rule has a judge question, a
/// word-set rule has terms, a regex-set rule has patterns, and every
/// exemption phrase is stored lowercased (the `lowercase` of a phrase).
pub proof fn law_loaded_package(
    p: PolicyPackage,
    root: TomlValue,
    policy_toml: Seq<u8>,
    lexicons: Seq<(String, String)>,
)
    requires
        package_fault(root, lexicons) is None,
        package_built(p, root, policy_toml, lexicons),
    ensures
        forall|i: int| 0 <= i < p.rules@.len() ==> (#[trigger] p.rules@[i]).stances@.len() == 8,
        forall|i: int, j: int|
            0 <= i < j < p.rules@.len() ==> (#[trigger] p.rules@[i]).id@ != (#[trigger] p.rules@[j]).id@,
        forall|k: int|
            0 <= k < lexicons.len() ==> rules_naming(p.rules@, #[trigger] lexicons[k].0@, p.rules@.len() as int)
                == 1,
        p.profile_names@.len() == 8,
        forall|i: int| 0 <= i < 8 ==> (#[trigger] p.profile_names@[i])@ == profile_name(profile_at(i).unwrap()),
        forall|i: int|
            0 <= i < p.rules@.len() ==> {
                &&& (#[trigger] p.rules@[i]).tier == Tier::Candidate ==> p.rules@[i].judge is Some
                &&& p.rules@[i].kind == MatchKindSpec::WordSet ==> p.rules@[i].terms@.len() > 0
                &&& p.rules@[i].kind == MatchKindSpec::RegexSet ==> p.rules@[i].patterns@.len() > 0
            },
        forall|i: int, k: int|
            0 <= i < p.rules@.len() && 0 <= k < p.rules@[i].exemptions@.len() ==> is_lowered(
                #[trigger] p.rules@[i].exemptions@[k]@,
            ),
{
    lemma_exemptions_lowered(p, root, policy_toml, lexicons);
    let rt = root->Table_0@;
    lemma_misplaced_none(declared_names(rt), 0);
    assert forall|i: int| 0 <= i < 8 implies (#[trigger] p.profile_names@[i])@ == profile_name(profile_at(i).unwrap()) by {
        assert(string_views(p.profile_names@)[i] == declared_names(rt)[i]);
        assert(package_names()[i] == profile_name(profile_at(i).unwrap()));
    }
    lemma_rules_fault_none(array_at(rt, "rule"@).unwrap(), declared_names(rt), lexicons, 0);
    assert forall|i: int| 0 <= i < p.rules@.len() implies {
        &&& (#[trigger] p.rules@[i]).tier == Tier::Candidate ==> p.rules@[i].judge is Some
        &&& p.rules@[i].kind == MatchKindSpec::WordSet ==> p.rules@[i].terms@.len() > 0
        &&& p.rules@[i].kind == MatchKindSpec::RegexSet ==> p.rules@[i].patterns@.len() > 0
    } by {
        let arr = array_at(rt, "rule"@).unwrap();
        let r = p.rules@[i];
        let rv = arr[i];
        assert(rule_built(r, rv, declared_names(rt), lexicons));
        assert(rule_fault(rv, declared_names(rt), lexicons) is None);
        let t = rv->Table_0@;
        let id = str_at(t, "id"@).unwrap();
        let mt = table_at(t, "match"@).unwrap();
        assert(match_fault(t, mt, id, lexicons) is None);
        assert(tail_fault(t, id, tier_word(str_at(t, "tier"@).unwrap()).unwrap(), declared_names(rt)) is None);
        assert(string_views(r.terms@).len() == r.terms@.len());
        assert(string_views(r.patterns@).len() == r.patterns@.len());
    }
    let arr = array_at(rt, "rule"@).unwrap();
    let names = declared_names(rt);
    assert(names.len() == 8);
    assert forall|i: int| 0 <= i < p.rules@.len() implies (#[trigger] p.rules@[i]).stances@.len() == 8 by {
        let r = p.rules@[i];
        assert(rule_built(r, arr[i], names, lexicons));
        let pv = table_at(arr[i]->Table_0@, "profiles"@).unwrap();
        match default_stance(pv, r.id@) {
            Ok(d) => {
                lemma_stances_len(pv, 0, eight(d), r.id@, names);
            },
            Err(_) => {},
        }
    }
    assert forall|j: int| 0 <= j < p.rules@.len() implies opt_view(#[trigger] p.rules@[j].lexicon) == entry_lexicon(arr[j]) && p.rules@[j].id@ == entry_id(arr[j]) by {
        assert(rule_built(p.rules@[j], arr[j], names, lexicons));
    }
    lemma_dup_fault_none(arr, 0);
    assert forall|i: int, j: int|
        0 <= i < j < p.rules@.len() implies (#[trigger] p.rules@[i]).id@ != (#[trigger] p.rules@[j]).id@ by {
        assert(!id_seen(arr, j));
        assert(entry_id(arr[i]) == p.rules@[i].id@);
    }
    lemma_uses_fault_none(arr, lexicons, 0);
    assert forall|k: int| 0 <= k < lexicons.len() implies rules_naming(p.rules@, #[trigger] lexicons[k].0@, p.rules@.len() as int) == 1 by {
        lemma_rules_naming(p.rules@, arr, lexicons[k].0@, p.rules@.len() as int);
    }
}

/// Every phrase of an exemptions table is the `lowercase` of a phrase.
proof fn lemma_phrases_lowered(ex: Seq<(String, TomlValue)>)
    ensures
        forall|k: int| 0 <= k < phrases(ex).len() ==> is_lowered(#[trigger] phrases(ex)[k]),
    decreases ex.len(),
{
    if ex.len() > 0 {
        lemma_phrases_lowered(ex.drop_last());
        let front = phrases(ex.drop_last());
        let back = match ex.last().1 {
            TomlValue::Array(a) => lowered(texts(a@)),
            _ => seq![],
        };
        assert(phrases(ex) == front + back);
        assert forall|k: int| 0 <= k < phrases(ex).len() implies is_lowered(#[trigger] phrases(ex)[k]) by {
            if k < front.len() {
                assert(phrases(ex)[k] == front[k]);
                assert(is_lowered(front[k]));
            } else {
                match ex.last().1 {
                    TomlValue::Array(a) => {
                        let m = k - front.len();
                        assert(phrases(ex)[k] == back[m]);
                        assert(back[m] == lowercase(texts(a@)[m]));
                    },
                    _ => {},
                }
            }
        }
    }
}

proof fn lemma_misplaced_none(names: Seq<Seq<char>>, i: int)
    requires
        0 <= i,
        names.len() == 8,
        first_misplaced(names, i) is None,
    ensures
        forall|k: int| i <= k < 8 ==> names[k] == package_names()[k],
    decreases 8 - i,
{
    if i < 8 {
        lemma_misplaced_none(names, i + 1);
    }
}

proof fn lemma_rules_fault_none(
    arr: Seq<TomlValue>,
    names: Seq<Seq<char>>,
    lexicons: Seq<(String, String)>,
    i: int,
)
    requires
        0 <= i,
        rules_fault_from(arr, names, lexicons, i) is None,
    ensures
        forall|k: int| i <= k < arr.len() ==> rule_fault(#[trigger] arr[k], names, lexicons) is None,
    decreases arr.len() - i,
{
    if i < arr.len() {
        lemma_rules_fault_none(arr, names, lexicons, i + 1);
    }
}

proof fn lemma_fold_concat(a: Seq<u8>, b: Seq<u8>)
    requires
        a.len() == 0 || a.last() != 0x0du8,
    ensures
        fold_crlf(a + b) == fold_crlf(a) + fold_crlf(b),
    decreases a.len(),
{
    if a.len() == 0 {
        assert(a + b =~= b);
    } else if a.len() >= 2 && a[0] == 0x0du8 && a[1] == 0x0au8 {
        assert((a + b).skip(2) =~= a.skip(2) + b);
        lemma_fold_concat(a.skip(2), b);
        assert(fold_crlf(a + b) == seq![0x0au8] + fold_crlf(a.skip(2) + b));
    } else {
        assert((a + b).skip(1) =~= a.skip(1) + b);
        lemma_fold_concat(a.skip(1), b);
        assert(fold_crlf(a + b) == seq![a[0]] + fold_crlf(a.skip(1) + b));
    }
}

proof fn lemma_fold_ends_nl(a: Seq<u8>)
    requires
        a.len() > 0,
        a.last() == 0x0au8,
    ensures
        fold_crlf(a).len() > 0,
        fold_crlf(a).last() == 0x0au8,
    decreases a.len(),
{
    if a.len() >= 2 && a[0] == 0x0du8 && a[1] == 0x0au8 {
        if a.len() > 2 {
            lemma_fold_ends_nl(a.skip(2));
            let r = fold_crlf(a.skip(2));
            assert((seq![0x0au8] + r).last() == r.last());
        } else {
            assert(a.skip(2) =~= Seq::<u8>::empty());
            assert(fold_crlf(a.skip(2)) =~= Seq::<u8>::empty());
            assert(fold_crlf(a) =~= seq![0x0au8]);
        }
    } else if a.len() > 1 {
        lemma_fold_ends_nl(a.skip(1));
        let r = fold_crlf(a.skip(1));
        assert((seq![a[0]] + r).last() == r.last());
    } else {
        assert(a.skip(1) =~= Seq::<u8>::empty());
        assert(fold_crlf(a.skip(1)) =~= Seq::<u8>::empty());
        assert(fold_crlf(a) =~= seq![a[0]]);
    }
}

proof fn lemma_fold_no_cr(a: Seq<u8>)
    requires
        forall|j: int| 0 <= j < a.len() ==> a[j] != 0x0du8,
    ensures
        fold_crlf(a) == a,
    decreases a.len(),
{
    if a.len() > 0 {
        lemma_fold_no_cr(a.skip(1));
        assert(a =~= seq![a[0]] + a.skip(1));
    }
}

/// Folding a line body without a line feed, closed by one, gives a body
/// without a line feed closed by one.
proof fn lemma_fold_line(x: Seq<u8>)
    requires
        forall|j: int| 0 <= j < x.len() ==> x[j] != 0x0au8,
    ensures
        fold_crlf(x + seq![0x0au8]).len() > 0,
        fold_crlf(x + seq![0x0au8]).last() == 0x0au8,
        forall|j: int|
            0 <= j < fold_crlf(x + seq![0x0au8]).len() - 1 ==> fold_crlf(x + seq![0x0au8])[j] != 0x0au8,
    decreases x.len(),
{
    let t = x + seq![0x0au8];
    if x.len() == 0 {
        assert(t.skip(1) =~= Seq::<u8>::empty());
        assert(fold_crlf(t.skip(1)) =~= Seq::<u8>::empty());
        assert(fold_crlf(t) =~= seq![0x0au8]);
    } else if x.len() == 1 && x[0] == 0x0du8 {
        assert(t.skip(2) =~= Seq::<u8>::empty());
        assert(fold_crlf(t.skip(2)) =~= Seq::<u8>::empty());
        assert(fold_crlf(t) =~= seq![0x0au8]);
    } else {
        assert(!(t[0] == 0x0du8 && t[1] == 0x0au8));
        assert(t.skip(1) =~= x.skip(1) + seq![0x0au8]);
        lemma_fold_line(x.skip(1));
        let r = fold_crlf(x.skip(1) + seq![0x0au8]);
        assert(fold_crlf(t) == seq![x[0]] + r);
        assert((seq![x[0]] + r).last() == r.last());
        assert forall|j: int| 0 <= j < fold_crlf(t).len() - 1 implies fold_crlf(t)[j] != 0x0au8 by {
            if j > 0 {
                assert(fold_crlf(t)[j] == r[j - 1]);
            }
        }
    }
}

proof fn lemma_blanked_shift(p: Seq<u8>, b: Seq<u8>, i: int)
    requires
        0 <= i,
    ensures
        blanked_from(p + b, p.len() + i) == blanked_from(b, i),
    decreases b.len() - i,
{
    let t = p + b;
    if i < b.len() {
        lemma_find_shift(p, b, seq![0x0au8], i);
        let e = line_stop(b, i);
        assert(line_stop(t, p.len() + i) == p.len() + e);
        if e > i && e <= b.len() {
            lemma_trim_start_local(b, i, e, t, p.len() as int);
            lemma_trim_start_bounds(b, i, e);
            let s0 = trim_start_at(b, i, e);
            if s0 + 9 <= e {
                assert(t.subrange(s0 + p.len(), s0 + p.len() + 9) =~= b.subrange(s0, s0 + 9));
            }
            assert(digest_line(t, p.len() + i, p.len() + e) == digest_line(b, i, e));
            assert(t.subrange(p.len() + i, p.len() + e) =~= b.subrange(i, e));
            lemma_blanked_shift(p, b, e);
        }
    }
}

proof fn lemma_blanked_prefix(a: Seq<u8>, b: Seq<u8>, i: int)
    requires
        0 <= i <= a.len(),
        a.len() == 0 || a.last() == 0x0au8,
    ensures
        blanked_from(a + b, i) == blanked_from(a, i) + blanked_from(a + b, a.len() as int),
    decreases a.len() - i,
{
    let t = a + b;
    let nl = seq![0x0au8];
    if i < a.len() {
        lemma_find_first(a, nl, i);
        lemma_find_from(a, nl, i);
        let last = a.len() - 1;
        assert(a.subrange(last, last + 1) =~= nl);
        assert(find_from(a, nl, i) is Some);
        let k = find_from(a, nl, i).unwrap();
        assert(i <= k && k + 1 <= a.len());
        assert(a.subrange(k, k + 1) == nl);
        assert(a[k] == 0x0au8) by {
            assert(a.subrange(k, k + 1)[0] == a[k]);
        }
        assert forall|j: int| i <= j < k implies t[j] != 0x0au8 by {
            assert(a.subrange(j, j + 1)[0] == a[j]);
            if a[j] == 0x0au8 {
                assert(a.subrange(j, j + 1) =~= nl);
            }
        }
        lemma_find_nl(t, i, k);
        let e = k + 1;
        assert(line_stop(t, i) == e && line_stop(a, i) == e);
        lemma_trim_start_local(a, i, e, t, 0);
        lemma_trim_start_bounds(a, i, e);
        let s0 = trim_start_at(a, i, e);
        if s0 + 9 <= e {
            assert(t.subrange(s0, s0 + 9) =~= a.subrange(s0, s0 + 9));
        }
        assert(digest_line(t, i, e) == digest_line(a, i, e));
        assert(t.subrange(i, e) =~= a.subrange(i, e));
        lemma_blanked_prefix(a, b, e);
    }
}

/// The lines of a folded policy text around a digest line: the lines
/// before, `digest = ""`, the lines after.
proof fn lemma_digest_line_blanked(p: Seq<u8>, x: Seq<u8>, q: Seq<u8>)
    requires
        p.len() == 0 || p.last() == 0x0au8,
        forall|j: int| 0 <= j < x.len() ==> x[j] != 0x0au8,
    ensures
        blanked_from(fold_crlf(p + digest_key() + x + seq![0x0au8] + q), 0) == blanked_from(
            fold_crlf(p),
            0,
        ) + blank_digest() + blanked_from(fold_crlf(q), 0),
{
    let nl = seq![0x0au8];
    let k = digest_key();
    let m = k + x + nl;
    assert(p + digest_key() + x + nl + q =~= p + (m + q));
    lemma_fold_concat(p, m + q);
    lemma_fold_concat(m, q);
    assert(m =~= k + (x + nl));
    lemma_fold_concat(k, x + nl);
    lemma_fold_no_cr(k);
    lemma_fold_line(x);
    let l = k + fold_crlf(x + nl);
    let f = fold_crlf(p);
    let fq = fold_crlf(q);
    if p.len() > 0 {
        lemma_fold_ends_nl(p);
    } else {
        assert(fold_crlf(p) =~= Seq::<u8>::empty());
    }
    assert(fold_crlf(p + digest_key() + x + nl + q) =~= f + (l + fq));
    lemma_blanked_prefix(f, l + fq, 0);
    lemma_blanked_shift(f, l + fq, 0);
    assert(l.last() == 0x0au8);
    lemma_blanked_prefix(l, fq, 0);
    lemma_blanked_shift(l, fq, 0);
    assert forall|j: int| 0 <= j < l.len() - 1 implies l[j] != 0x0au8 by {
        if j >= 9 {
            assert(l[j] == fold_crlf(x + nl)[j - 9]);
        }
    }
    lemma_find_nl(l, 0, l.len() - 1);
    assert(ws_at(l, 0, l.len() as int) == 0);
    assert(trim_start_at(l, 0, l.len() as int) == 0);
    assert(l.subrange(0, 9) =~= k);
    assert(digest_line(l, 0, l.len() as int));
    assert(blanked_from(l, 0) == blank_digest() + blanked_from(l, l.len() as int));
    assert(blanked_from(l, 0) =~= blank_digest());
    assert(f + (l + fq) =~= f + l + fq);
}

/// The value on a digest line does not enter the canonical serialization:
/// two policy texts that differ only in what follows `digest = ` on one
/// line serialize alike, and so have one digest. The package can record
/// its own digest.
pub proof fn law_digest_value_ignored(
    p: Seq<u8>,
    x: Seq<u8>,
    y: Seq<u8>,
    q: Seq<u8>,
    lexicons: Seq<(String, String)>,
)
    requires
        p.len() == 0 || p.last() == 0x0au8,
        forall|j: int| 0 <= j < x.len() ==> x[j] != 0x0au8,
        forall|j: int| 0 <= j < y.len() ==> y[j] != 0x0au8,
    ensures
        canonical(p + digest_key() + x + seq![0x0au8] + q, lexicons) == canonical(
            p + digest_key() + y + seq![0x0au8] + q,
            lexicons,
        ),
{
    lemma_digest_line_blanked(p, x, q);
    lemma_digest_line_blanked(p, y, q);
}

/// Line endings do not enter the canonical serialization: writing one line
/// break of the policy text as CR LF or as LF gives the same bytes (the
/// text before it must not end in a CR, which would pair with the LF).
pub proof fn law_crlf_folded(a: Seq<u8>, b: Seq<u8>, lexicons: Seq<(String, String)>)
    requires
        a.len() == 0 || a.last() != 0x0du8,
    ensures
        canonical(a + seq![0x0du8, 0x0au8] + b, lexicons) == canonical(a + seq![0x0au8] + b, lexicons),
{
    let crlf = seq![0x0du8, 0x0au8];
    let lf = seq![0x0au8];
    assert(a + crlf + b =~= a + (crlf + b));
    assert(a + lf + b =~= a + (lf + b));
    lemma_fold_concat(a, crlf + b);
    lemma_fold_concat(a, lf + b);
    assert((crlf + b).skip(2) =~= b);
    assert((lf + b).skip(1) =~= b);
    assert(fold_crlf(crlf + b) == fold_crlf(lf + b));
}

/// Reading back the name of a tier, a lifecycle or a view gives it back:
/// the names reports print are the words the package is read with.
pub proof fn law_names_read_back(t: Tier, l: Lifecycle, v: ViewKind)
    ensures
        tier_word(tier_name(t)) == Some(t),
        lifecycle_word(lifecycle_name(l)) == Some(l),
        view_word(view_name(v)) == Some(v),
{
    reveal_strlit("violation");
    reveal_strlit("candidate");
    reveal_strlit("coverage_hint");
    reveal_strlit("blocking");
    reveal_strlit("advisory");
    reveal_strlit("experimental");
    reveal_strlit("deprecated");
    reveal_strlit("raw");
    reveal_strlit("prose");
    reveal_strlit("norm");
    reveal_strlit("rendered");
    assert("candidate"@[0] != "violation"@[0]);
    assert("coverage_hint"@[0] != "violation"@[0]);
    assert("coverage_hint"@[1] != "candidate"@[1]);
    assert("advisory"@[0] != "blocking"@[0]);
    assert("experimental"@[0] != "blocking"@[0]);
    assert("experimental"@[0] != "advisory"@[0]);
    assert("deprecated"@[0] != "blocking"@[0]);
    assert("deprecated"@[0] != "advisory"@[0]);
    assert("deprecated"@[0] != "experimental"@[0]);
    assert("prose"@[0] != "raw"@[0]);
    assert("norm"@[0] != "raw"@[0]);
    assert("norm"@[0] != "prose"@[0]);
    assert("rendered"@[1] != "raw"@[1]);
    assert("rendered"@[0] != "prose"@[0]);
    assert("rendered"@[0] != "norm"@[0]);
}

proof fn lemma_bytes_lt_irreflexive(a: Seq<u8>)
    ensures
        !bytes_lt(a, a),
    decreases a.len(),
{
    if a.len() > 0 {
        lemma_bytes_lt_irreflexive(a.skip(1));
    }
}

proof fn lemma_bytes_lt_transitive(a: Seq<u8>, b: Seq<u8>, c: Seq<u8>)
    requires
        bytes_lt(a, b),
        bytes_lt(b, c),
    ensures
        bytes_lt(a, c),
    decreases a.len(),
{
    if a.len() > 0 && b.len() > 0 && c.len() > 0 && a[0] == b[0] && b[0] == c[0] {
        lemma_bytes_lt_transitive(a.skip(1), b.skip(1), c.skip(1));
    }
}

/// The entry `first_least` picks has a path no entry before `n` sorts
/// strictly before.
proof fn lemma_first_least_min(s: Seq<(String, String)>, n: int)
    requires
        1 <= n <= s.len(),
    ensures
        forall|k: int| 0 <= k < n ==> !bytes_lt(path_of(#[trigger] s[k]), path_of(s[first_least(s, n)])),
    decreases n,
{
    if n > 1 {
        lemma_first_least_min(s, n - 1);
        lemma_first_least_bounds(s, n - 1);
        let b = first_least(s, n - 1);
        if bytes_lt(path_of(s[n - 1]), path_of(s[b])) {
            assert forall|k: int| 0 <= k < n implies !bytes_lt(path_of(#[trigger] s[k]), path_of(s[n - 1])) by {
                if k == n - 1 {
                    lemma_bytes_lt_irreflexive(path_of(s[k]));
                } else if bytes_lt(path_of(s[k]), path_of(s[n - 1])) {
                    lemma_bytes_lt_transitive(path_of(s[k]), path_of(s[n - 1]), path_of(s[b]));
                }
            }
        }
    } else {
        lemma_bytes_lt_irreflexive(path_of(s[0]));
    }
}

#[verifier::spinoff_prover]
proof fn lemma_path_order(s: Seq<(String, String)>)
    ensures
        path_order(s).to_multiset() =~= s.to_multiset(),
        forall|i: int, j: int|
            0 <= i < j < path_order(s).len() ==> !bytes_lt(
                path_of(#[trigger] path_order(s)[j]),
                path_of(#[trigger] path_order(s)[i]),
            ),
    decreases s.len(),
{
    broadcast use vstd::seq_lib::group_to_multiset_ensures;

    if s.len() > 0 {
        let n = s.len() as int;
        lemma_first_least_bounds(s, n);
        lemma_first_least_min(s, n);
        let i = first_least(s, n);
        let x = s[i];
        let rest = s.remove(i);
        lemma_path_order(rest);
        let po = path_order(s);
        let pr = path_order(rest);
        assert(po == seq![x] + pr);
        assert(po[0] == x);
        assert(po.remove(0) =~= pr);
        assert(pr.to_multiset() =~= po.to_multiset().remove(x));
        assert(rest.to_multiset() =~= s.to_multiset().remove(x));
        assert(po.to_multiset().count(x) > 0) by {
            assert(po.contains(x));
        }
        assert(s.to_multiset().count(x) > 0) by {
            assert(s.contains(x));
        }
        assert forall|y: (String, String)| #[trigger] po.to_multiset().count(y) == s.to_multiset().count(y) by {
            assert(po.to_multiset().remove(x).count(y) == s.to_multiset().remove(x).count(y));
        }
        assert(po.to_multiset() =~= s.to_multiset());
        assert forall|a: int, b: int| 0 <= a < b < po.len() implies !bytes_lt(
            path_of(#[trigger] po[b]),
            path_of(#[trigger] po[a]),
        ) by {
            if a == 0 {
                let y = po[b];
                assert(y == pr[b - 1]);
                assert(pr.contains(y));
                assert(pr.to_multiset().count(y) > 0);
                assert(rest.contains(y));
                let k = choose|k: int| 0 <= k < rest.len() && rest[k] == y;
                assert(rest[k] == s[if k < i { k } else { k + 1 }]);
            } else {
                assert(po[a] == pr[a - 1] && po[b] == pr[b - 1]);
            }
        }
    }
}

/// The canonical serialization lays the lexicons out in path order: each
/// lexicon given appears exactly once, and no path sorts before the one
/// laid out ahead of it.
pub proof fn law_lexicons_in_path_order(lexicons: Seq<(String, String)>)
    ensures
        path_order(lexicons).to_multiset() == lexicons.to_multiset(),
        forall|i: int, j: int|
            0 <= i < j < path_order(lexicons).len() ==> !bytes_lt(
                path_of(#[trigger] path_order(lexicons)[j]),
                path_of(#[trigger] path_order(lexicons)[i]),
            ),
{
    lemma_path_order(lexicons);
}

/// No two lexicons of `l` share a path.
pub open spec fn distinct_paths(l: Seq<(String, String)>) -> bool {
    forall|i: int, j: int| 0 <= i < l.len() && 0 <= j < l.len() && i != j ==> l[i].0@ != l[j].0@
}

proof fn lemma_bytes_lt_total(a: Seq<u8>, b: Seq<u8>)
    requires
        a != b,
    ensures
        bytes_lt(a, b) || bytes_lt(b, a),
    decreases a.len(),
{
    if a.len() > 0 && b.len() > 0 && a[0] == b[0] {
        if a.skip(1) == b.skip(1) {
            assert(a =~= seq![a[0]] + a.skip(1));
            assert(b =~= seq![b[0]] + b.skip(1));
        }
        lemma_bytes_lt_total(a.skip(1), b.skip(1));
    } else if a.len() == 0 && b.len() == 0 {
        assert(a =~= b);
    }
}

proof fn lemma_path_order_perm(s: Seq<(String, String)>, t: Seq<(String, String)>)
    requires
        s.to_multiset() == t.to_multiset(),
        distinct_paths(s),
        distinct_paths(t),
    ensures
        path_order(s) == path_order(t),
    decreases s.len(),
{
    broadcast use vstd::seq_lib::group_to_multiset_ensures;

    assert(s.len() == t.len()) by {
        assert(s.len() == s.to_multiset().len());
        assert(t.len() == t.to_multiset().len());
    }
    if s.len() > 0 {
        let n = s.len() as int;
        lemma_first_least_bounds(s, n);
        lemma_first_least_bounds(t, n);
        lemma_first_least_min(s, n);
        lemma_first_least_min(t, n);
        let i = first_least(s, n);
        let j = first_least(t, n);
        let x = s[i];
        let y = t[j];
        assert(t.contains(y));
        assert(t.to_multiset().count(y) > 0);
        assert(s.contains(y));
        let k = choose|k: int| 0 <= k < s.len() && s[k] == y;
        assert(s.contains(x));
        assert(s.to_multiset().count(x) > 0);
        assert(t.contains(x));
        let m = choose|m: int| 0 <= m < t.len() && t[m] == x;
        if k != i {
            assert(s[k].0@ != s[i].0@);
            if path_of(s[k]) == path_of(s[i]) {
                lemma_encode_injective(s[k].0@, s[i].0@);
            }
            lemma_bytes_lt_total(path_of(s[k]), path_of(s[i]));
            assert(!bytes_lt(path_of(s[k]), path_of(s[i])));
            assert(!bytes_lt(path_of(t[m]), path_of(t[j])));
            assert(false);
        }
        assert(x == y);
        let sr = s.remove(i);
        let tr = t.remove(j);
        assert(sr.to_multiset() =~= tr.to_multiset()) by {
            assert(sr.to_multiset() =~= s.to_multiset().remove(x));
            assert(tr.to_multiset() =~= t.to_multiset().remove(x));
        }
        assert forall|a: int, b: int| 0 <= a < sr.len() && 0 <= b < sr.len() && a != b implies sr[a].0@ != sr[b].0@ by {
            let a0 = if a < i { a } else { a + 1 };
            let b0 = if b < i { b } else { b + 1 };
            assert(sr[a] == s[a0] && sr[b] == s[b0]);
        }
        assert forall|a: int, b: int| 0 <= a < tr.len() && 0 <= b < tr.len() && a != b implies tr[a].0@ != tr[b].0@ by {
            let a0 = if a < j { a } else { a + 1 };
            let b0 = if b < j { b } else { b + 1 };
            assert(tr[a] == t[a0] && tr[b] == t[b0]);
        }
        lemma_path_order_perm(sr, tr);
    }
}

/// When no two lexicons share a path, the order they are given in does not
/// enter the canonical serialization, and so not the digest.
pub proof fn law_lexicon_order_ignored(
    policy_toml: Seq<u8>,
    lexicons: Seq<(String, String)>,
    reordered: Seq<(String, String)>,
)
    requires
        reordered.to_multiset() == lexicons.to_multiset(),
        distinct_paths(lexicons),
        distinct_paths(reordered),
    ensures
        canonical(policy_toml, reordered) == canonical(policy_toml, lexicons),
{
    lemma_path_order_perm(reordered, lexicons);
}

/// A whole line: bytes that end with their only line feed.
pub open spec fn full_line(l: Seq<u8>) -> bool {
    &&& l.len() > 0
    &&& l.last() == 0x0au8
    &&& forall|j: int| 0 <= j < l.len() - 1 ==> l[j] != 0x0au8
}

/// Lines joined in order.
pub open spec fn joined(ls: Seq<Seq<u8>>) -> Seq<u8>
    decreases ls.len(),
{
    if ls.len() == 0 {
        seq![]
    } else {
        ls[0] + joined(ls.drop_first())
    }
}

/// How the canonical serialization writes a whole line: a digest line as
/// `digest = ""`, any other line as it stands.
pub open spec fn line_written(l: Seq<u8>) -> Seq<u8> {
    if digest_line(l, 0, l.len() as int) {
        blank_digest()
    } else {
        l
    }
}

/// Lines `la` and `lb` are whole lines that agree one for one, except that
/// two digest lines may carry different values.
pub open spec fn lines_agree_but_digests(la: Seq<Seq<u8>>, lb: Seq<Seq<u8>>) -> bool {
    &&& la.len() == lb.len()
    &&& forall|k: int|
        0 <= k < la.len() ==> {
            &&& full_line(#[trigger] la[k])
            &&& full_line(lb[k])
            &&& (la[k] == lb[k] || (digest_line(la[k], 0, la[k].len() as int) && digest_line(
                lb[k],
                0,
                lb[k].len() as int,
            )))
        }
}

/// A whole line is written as `line_written` says.
proof fn lemma_blanked_line(l: Seq<u8>)
    requires
        full_line(l),
    ensures
        blanked_from(l, 0) == line_written(l),
{
    let last = l.len() - 1;
    lemma_find_nl(l, 0, last);
    assert(line_stop(l, 0) == l.len());
    assert(blanked_from(l, l.len() as int) =~= Seq::<u8>::empty());
    assert(l.subrange(0, l.len() as int) =~= l);
}

/// Whole lines followed by a tail are written line by line.
proof fn lemma_blanked_lines(ls: Seq<Seq<u8>>, tail: Seq<u8>)
    requires
        forall|k: int| 0 <= k < ls.len() ==> full_line(#[trigger] ls[k]),
    ensures
        blanked_from(joined(ls) + tail, 0) == joined(ls.map_values(|l: Seq<u8>| line_written(l)))
            + blanked_from(tail, 0),
    decreases ls.len(),
{
    let w = ls.map_values(|l: Seq<u8>| line_written(l));
    if ls.len() == 0 {
        assert(joined(ls) + tail =~= tail);
        assert(joined(w) =~= Seq::<u8>::empty());
        assert(joined(w) + blanked_from(tail, 0) =~= blanked_from(tail, 0));
    } else {
        let l = ls[0];
        let rest = ls.drop_first();
        assert(full_line(l));
        assert forall|k: int| 0 <= k < rest.len() implies full_line(#[trigger] rest[k]) by {
            assert(rest[k] == ls[k + 1]);
        }
        lemma_blanked_lines(rest, tail);
        let r = joined(rest) + tail;
        assert(joined(ls) + tail =~= l + r);
        lemma_blanked_prefix(l, r, 0);
        lemma_blanked_shift(l, r, 0);
        assert(blanked_from(l + r, l.len() as int) == blanked_from(r, 0)) by {
            assert(l.len() + 0 == l.len());
        }
        lemma_blanked_line(l);
        assert(w.drop_first() =~= rest.map_values(|l: Seq<u8>| line_written(l)));
        assert(joined(w) == line_written(l) + joined(w.drop_first()));
        assert(line_written(l) + (joined(w.drop_first()) + blanked_from(tail, 0)) =~= joined(w)
            + blanked_from(tail, 0));
    }
}

/// Lines that agree but for digest values are written alike.
proof fn lemma_written_agree(la: Seq<Seq<u8>>, lb: Seq<Seq<u8>>)
    requires
        lines_agree_but_digests(la, lb),
    ensures
        la.map_values(|l: Seq<u8>| line_written(l)) == lb.map_values(|l: Seq<u8>| line_written(l)),
{
    let wa = la.map_values(|l: Seq<u8>| line_written(l));
    let wb = lb.map_values(|l: Seq<u8>| line_written(l));
    assert forall|k: int| 0 <= k < wa.len() implies wa[k] == wb[k] by {
        assert(full_line(la[k]));
    }
    assert(wa =~= wb);
}

/// Lexicons `la` and `lb` have the same paths, one for one, and contents
/// that agree once CR LF is folded to LF.
pub open spec fn lexicons_agree_but_line_endings(la: Seq<(String, String)>, lb: Seq<(String, String)>) -> bool {
    &&& la.len() == lb.len()
    &&& forall|k: int|
        0 <= k < la.len() ==> path_of(#[trigger] la[k]) == path_of(lb[k]) && fold_crlf(
            encode_utf8(la[k].1@),
        ) == fold_crlf(encode_utf8(lb[k].1@))
}

proof fn lemma_first_least_agree(la: Seq<(String, String)>, lb: Seq<(String, String)>, n: int)
    requires
        lexicons_agree_but_line_endings(la, lb),
        n <= la.len(),
    ensures
        first_least(la, n) == first_least(lb, n),
    decreases n,
{
    if n > 1 {
        lemma_first_least_agree(la, lb, n - 1);
        lemma_first_least_bounds(la, n - 1);
        let b = first_least(la, n - 1);
        assert(path_of(la[n - 1]) == path_of(lb[n - 1]));
        assert(path_of(la[b]) == path_of(lb[b]));
    }
}

proof fn lemma_frames_agree(la: Seq<(String, String)>, lb: Seq<(String, String)>)
    requires
        lexicons_agree_but_line_endings(la, lb),
    ensures
        lexicon_frames(path_order(la)) == lexicon_frames(path_order(lb)),
    decreases la.len(),
{
    if la.len() > 0 {
        let i = first_least(la, la.len() as int);
        lemma_first_least_agree(la, lb, la.len() as int);
        lemma_first_least_bounds(la, la.len() as int);
        let ra = la.remove(i);
        let rb = lb.remove(i);
        assert forall|k: int| 0 <= k < ra.len() implies path_of(#[trigger] ra[k]) == path_of(rb[k])
            && fold_crlf(encode_utf8(ra[k].1@)) == fold_crlf(encode_utf8(rb[k].1@)) by {
            if k < i {
                assert(ra[k] == la[k] && rb[k] == lb[k]);
            } else {
                assert(ra[k] == la[k + 1] && rb[k] == lb[k + 1]);
            }
        }
        lemma_frames_agree(ra, rb);
        let pa = path_order(la);
        let pb = path_order(lb);
        assert(pa == seq![la[i]] + path_order(ra));
        assert(pb == seq![lb[i]] + path_order(rb));
        assert(pa[0] == la[i] && pb[0] == lb[i]);
        assert(pa.skip(1) =~= path_order(ra));
        assert(pb.skip(1) =~= path_order(rb));
    }
}

/// What the digest covers leaves out the values of digest lines and how
/// line breaks are written: two policy texts whose lines, once CR LF is
/// folded to LF, agree but for the values of their digest lines (however
/// many, and whatever whitespace leads them), with lexicons that have the
/// same paths and agree but for line endings, serialize alike, and so have
/// one digest.
pub proof fn law_digest_ignores_digest_values_and_line_endings(
    a: Seq<u8>,
    b: Seq<u8>,
    la: Seq<Seq<u8>>,
    lb: Seq<Seq<u8>>,
    tail: Seq<u8>,
    lexa: Seq<(String, String)>,
    lexb: Seq<(String, String)>,
)
    requires
        fold_crlf(a) == joined(la) + tail,
        fold_crlf(b) == joined(lb) + tail,
        forall|j: int| 0 <= j < tail.len() ==> tail[j] != 0x0au8,
        lines_agree_but_digests(la, lb),
        lexicons_agree_but_line_endings(lexa, lexb),
    ensures
        canonical(a, lexa) == canonical(b, lexb),
{
    assert forall|k: int| 0 <= k < la.len() implies full_line(#[trigger] la[k]) by {}
    assert forall|k: int| 0 <= k < lb.len() implies full_line(#[trigger] lb[k]) by {
        assert(full_line(la[k]));
    }
    lemma_blanked_lines(la, tail);
    lemma_blanked_lines(lb, tail);
    lemma_written_agree(la, lb);
    lemma_frames_agree(lexa, lexb);
}

} // verus!
