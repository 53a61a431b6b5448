//! Rule evaluation beyond the word-set and regex-set engines: structural
//! and profile-contract rules.

pub mod emphasis;
pub mod profile_contract;
pub mod spans;
pub mod laws;

use vstd::prelude::*;
use crate::config::{profile_index, Config, Profile};
use crate::engine::{CompiledPolicy, Hit};
use crate::extract::Doc;
use crate::input::Prepared;
use crate::text::str_views;
use crate::rules::emphasis::{emphasis_fits, emphasis_hits, emphasis_inputs_fit};
use crate::rules::profile_contract::{inputs_fit, k001_fits, k001_inputs_fit, k004_fits, k004_inputs_fit, profile_contract_hits};
use vstd::utf8::encode_utf8;
use crate::policy::{first_rule_with_id, stance_active, Lifecycle, PolicyPackage, Rule};
use crate::tomlv::{opt_int, toml_get};

verus! {

/// Rule IDs served entirely by the shared word-set and regex-set engines.
pub const ENGINE_RULES: [&'static str; 50] = [
    "SLOP-A001",
    "SLOP-A002",
    "SLOP-A003",
    "SLOP-A004",
    "SLOP-P001",
    "SLOP-P002",
    "SLOP-P003",
    "SLOP-P004",
    "SLOP-P005",
    "SLOP-M001",
    "SLOP-M002",
    "SLOP-M003",
    "SLOP-M004",
    "SLOP-M006",
    "SLOP-S001",
    "SLOP-S002",
    "SLOP-S003",
    "SLOP-V001",
    "SLOP-V002",
    "SLOP-V003",
    "SLOP-T001",
    "SLOP-T002",
    "SLOP-T003",
    "SLOP-I001",
    "SLOP-I002",
    "SLOP-I003",
    "SLOP-I004",
    "SLOP-I005",
    "SLOP-C001",
    "SLOP-C002",
    "SLOP-C003",
    "SLOP-C004",
    "SLOP-C005",
    "SLOP-C006",
    "SLOP-Q001",
    "SLOP-E002",
    "SLOP-R001",
    "SLOP-R002",
    "SLOP-F001",
    "SLOP-F002",
    "SLOP-F003",
    "SLOP-O001",
    "SLOP-O002",
    "SLOP-O003",
    "SLOP-O004",
    "SLOP-W001",
    "SLOP-J001",
    "SLOP-G001",
    "SLOP-G002",
    "SLOP-K008",
];

/// The engine-served rule ids, in order.
pub open spec fn engine_rule_ids() -> Seq<Seq<char>> {
    seq![
        "SLOP-A001"@,
        "SLOP-A002"@,
        "SLOP-A003"@,
        "SLOP-A004"@,
        "SLOP-P001"@,
        "SLOP-P002"@,
        "SLOP-P003"@,
        "SLOP-P004"@,
        "SLOP-P005"@,
        "SLOP-M001"@,
        "SLOP-M002"@,
        "SLOP-M003"@,
        "SLOP-M004"@,
        "SLOP-M006"@,
        "SLOP-S001"@,
        "SLOP-S002"@,
        "SLOP-S003"@,
        "SLOP-V001"@,
        "SLOP-V002"@,
        "SLOP-V003"@,
        "SLOP-T001"@,
        "SLOP-T002"@,
        "SLOP-T003"@,
        "SLOP-I001"@,
        "SLOP-I002"@,
        "SLOP-I003"@,
        "SLOP-I004"@,
        "SLOP-I005"@,
        "SLOP-C001"@,
        "SLOP-C002"@,
        "SLOP-C003"@,
        "SLOP-C004"@,
        "SLOP-C005"@,
        "SLOP-C006"@,
        "SLOP-Q001"@,
        "SLOP-E002"@,
        "SLOP-R001"@,
        "SLOP-R002"@,
        "SLOP-F001"@,
        "SLOP-F002"@,
        "SLOP-F003"@,
        "SLOP-O001"@,
        "SLOP-O002"@,
        "SLOP-O003"@,
        "SLOP-O004"@,
        "SLOP-W001"@,
        "SLOP-J001"@,
        "SLOP-G001"@,
        "SLOP-G002"@,
        "SLOP-K008"@,
    ]
}

/// Every `(rule id, param key)` the implementation reads, or whose
/// behavior it implements with the policy value fixed in code, across the
/// rule families: mechanical (M), emphasis (E), density (D), structural
/// (X), profile contract (K), rendered view (Y) and coverage (H).
pub open spec fn implemented_params() -> Seq<(Seq<char>, Seq<char>)> {
    seq![
        ("SLOP-M005"@, "unclosed_fence"@),
        ("SLOP-M005"@, "raw_html_dominance_pct"@),
        ("SLOP-M005"@, "raw_html_dominance_floor_bytes"@),
        ("SLOP-E001"@, "emphasized_words"@),
        ("SLOP-E001"@, "followed_within"@),
        ("SLOP-E001"@, "followed_by"@),
        ("SLOP-E003"@, "list_items_with_leading_bold_label"@),
        ("SLOP-D001"@, "count_rules"@),
        ("SLOP-D001"@, "threshold"@),
        ("SLOP-D001"@, "per_words"@),
        ("SLOP-D002"@, "min_bullets"@),
        ("SLOP-D002"@, "min_link_bullet_pct"@),
        ("SLOP-D003"@, "min_paragraphs"@),
        ("SLOP-D003"@, "max_length_cv_pct"@),
        ("SLOP-D004"@, "count_rules"@),
        ("SLOP-D004"@, "threshold"@),
        ("SLOP-D004"@, "per_document"@),
        ("SLOP-X001"@, "heading_set"@),
        ("SLOP-X001"@, "min_matches"@),
        ("SLOP-X002"@, "min_body_lines"@),
        ("SLOP-X002"@, "min_bullet_line_pct"@),
        ("SLOP-X003"@, "max_words"@),
        ("SLOP-X004"@, "max_words"@),
        ("SLOP-X004"@, "min_headings"@),
        ("SLOP-K001"@, "max_title_chars"@),
        ("SLOP-K001"@, "forbid_title_words"@),
        ("SLOP-K002"@, "conventional_prefix"@),
        ("SLOP-K002"@, "imperative_lowercase"@),
        ("SLOP-K002"@, "no_trailing_period"@),
        ("SLOP-K002"@, "max_subject_chars"@),
        ("SLOP-K003"@, "section_whitelist"@),
        ("SLOP-K003"@, "dated_heading"@),
        ("SLOP-K004"@, "expected_body_from_config"@),
        ("SLOP-K004"@, "max_extra_pointer_lines"@),
        ("SLOP-K005"@, "required_heading"@),
        ("SLOP-K005"@, "expected_wording_from_config"@),
        ("SLOP-K006"@, "description_required"@),
        ("SLOP-K006"@, "max_description_chars"@),
        ("SLOP-K006"@, "keywords_exact"@),
        ("SLOP-K006"@, "categories_min"@),
        ("SLOP-K006"@, "categories_max"@),
        ("SLOP-K006"@, "forbid_brand_prefix"@),
        ("SLOP-K007"@, "expected_version_from_config"@),
        ("SLOP-Y001"@, "html_comment_min_text_chars"@),
        ("SLOP-Y001"@, "dropped_raw_html_text"@),
        ("SLOP-Y001"@, "unused_link_definitions_with_prose"@),
        ("SLOP-Y002"@, "compare"@),
        ("SLOP-Y002"@, "ignore"@),
        ("SLOP-H001"@, "emit"@),
        ("SLOP-H002"@, "emit"@),
        ("SLOP-H002"@, "flag_excluded_pct"@),
        ("SLOP-H003"@, "mixed_line_endings"@),
        ("SLOP-H003"@, "bom_stripped"@),
        ("SLOP-H003"@, "unusual_scripts_in_identifierlike_prose"@),
    ]
}

/// The texts of pairs of strings.
pub open spec fn pair_views(v: Seq<(&str, &str)>) -> Seq<(Seq<char>, Seq<char>)> {
    v.map_values(|p: (&str, &str)| (p.0@, p.1@))
}

/// Every `(rule id, param key)` the implementation actually reads, or
/// whose behavior it implements with the policy value fixed in code. A
/// param the package declares that is missing here is dead. The list
/// covers every rule family; the params of the emphasis and
/// profile-contract families, the ones evaluated here, belong to rules of
/// `implemented_rule_ids` (`law_params_have_rules`).
pub fn implemented_param_keys() -> (r: Vec<(&'static str, &'static str)>)
    ensures
        pair_views(r@) == implemented_params(),
{
    let mut r: Vec<(&'static str, &'static str)> = Vec::new();
    r.push(("SLOP-M005", "unclosed_fence"));
    r.push(("SLOP-M005", "raw_html_dominance_pct"));
    r.push(("SLOP-M005", "raw_html_dominance_floor_bytes"));
    r.push(("SLOP-E001", "emphasized_words"));
    r.push(("SLOP-E001", "followed_within"));
    r.push(("SLOP-E001", "followed_by"));
    r.push(("SLOP-E003", "list_items_with_leading_bold_label"));
    r.push(("SLOP-D001", "count_rules"));
    r.push(("SLOP-D001", "threshold"));
    r.push(("SLOP-D001", "per_words"));
    r.push(("SLOP-D002", "min_bullets"));
    r.push(("SLOP-D002", "min_link_bullet_pct"));
    r.push(("SLOP-D003", "min_paragraphs"));
    r.push(("SLOP-D003", "max_length_cv_pct"));
    r.push(("SLOP-D004", "count_rules"));
    r.push(("SLOP-D004", "threshold"));
    r.push(("SLOP-D004", "per_document"));
    r.push(("SLOP-X001", "heading_set"));
    r.push(("SLOP-X001", "min_matches"));
    r.push(("SLOP-X002", "min_body_lines"));
    r.push(("SLOP-X002", "min_bullet_line_pct"));
    r.push(("SLOP-X003", "max_words"));
    r.push(("SLOP-X004", "max_words"));
    r.push(("SLOP-X004", "min_headings"));
    r.push(("SLOP-K001", "max_title_chars"));
    r.push(("SLOP-K001", "forbid_title_words"));
    // K002: the prefix, period and imperative checks are fixed in
    // profile_contract::evaluate; the booleans declare that behavior.
    r.push(("SLOP-K002", "conventional_prefix"));
    r.push(("SLOP-K002", "imperative_lowercase"));
    r.push(("SLOP-K002", "no_trailing_period"));
    r.push(("SLOP-K002", "max_subject_chars"));
    r.push(("SLOP-K003", "section_whitelist"));
    r.push(("SLOP-K003", "dated_heading")); // has_iso_date on version headings
    r.push(("SLOP-K004", "expected_body_from_config"));
    r.push(("SLOP-K004", "max_extra_pointer_lines"));
    r.push(("SLOP-K005", "required_heading")); // fixed to "license"
    r.push(("SLOP-K005", "expected_wording_from_config"));
    r.push(("SLOP-K006", "description_required"));
    r.push(("SLOP-K006", "max_description_chars"));
    r.push(("SLOP-K006", "keywords_exact"));
    r.push(("SLOP-K006", "categories_min"));
    r.push(("SLOP-K006", "categories_max"));
    r.push(("SLOP-K006", "forbid_brand_prefix"));
    r.push(("SLOP-K007", "expected_version_from_config"));
    // Y001: the three channels of the rendered-view family.
    r.push(("SLOP-Y001", "html_comment_min_text_chars"));
    r.push(("SLOP-Y001", "dropped_raw_html_text"));
    r.push(("SLOP-Y001", "unused_link_definitions_with_prose"));
    // Y002: descriptors of the rendered-divergence channel.
    r.push(("SLOP-Y002", "compare"));
    r.push(("SLOP-Y002", "ignore"));
    r.push(("SLOP-H001", "emit")); // the section map in every coverage block
    r.push(("SLOP-H002", "emit")); // the excluded-bytes map in every coverage block
    r.push(("SLOP-H002", "flag_excluded_pct"));
    r.push(("SLOP-H003", "mixed_line_endings"));
    r.push(("SLOP-H003", "bom_stripped"));
    // The mixed-script token hint of the coverage family.
    r.push(("SLOP-H003", "unusual_scripts_in_identifierlike_prose"));
    assert(pair_views(r@) =~= implemented_params());
    r
}

/// Every rule ID with an implementation here, in order: the engine rules,
/// then the emphasis and profile-contract families.
pub open spec fn implemented_ids() -> Seq<Seq<char>> {
    engine_rule_ids() + seq!["SLOP-E001"@, "SLOP-E003"@] + seq![
        "SLOP-K001"@,
        "SLOP-K002"@,
        "SLOP-K003"@,
        "SLOP-K004"@,
        "SLOP-K005"@,
        "SLOP-K006"@,
        "SLOP-K007"@,
    ]
}

/// Appends the entries of `ids`.
fn extend_ids(out: &mut Vec<&'static str>, ids: &[&'static str])
    ensures
        str_views(final(out)@) == str_views(old(out)@) + str_views(ids@),
{
    for i in 0..ids.len()
        invariant
            str_views(out@) == str_views(old(out)@) + str_views(ids@.take(i as int)),
    {
        let ghost before = out@;
        out.push(ids[i]);
        assert(ids@.take(i + 1) =~= ids@.take(i as int).push(ids@[i as int]));
        assert(str_views(ids@.take(i + 1)) =~= str_views(ids@.take(i as int)).push(ids@[i as int]@));
        assert(str_views(out@) =~= str_views(before).push(ids@[i as int]@));
        assert(str_views(out@) =~= str_views(old(out)@) + str_views(ids@.take(i + 1)));
    }
    assert(ids@.take(ids@.len() as int) =~= ids@);
}

/// Every rule ID with an implementation symbol.
pub fn implemented_rule_ids() -> (r: Vec<&'static str>)
    ensures
        str_views(r@) == implemented_ids(),
{
    let mut ids: Vec<&'static str> = Vec::new();
    extend_ids(&mut ids, &ENGINE_RULES);
    assert(str_views(ENGINE_RULES@) =~= engine_rule_ids());
    extend_ids(&mut ids, &emphasis::HANDLED);
    assert(str_views(emphasis::HANDLED@) =~= seq!["SLOP-E001"@, "SLOP-E003"@]);
    extend_ids(&mut ids, &profile_contract::HANDLED);
    assert(str_views(profile_contract::HANDLED@) =~= seq![
        "SLOP-K001"@,
        "SLOP-K002"@,
        "SLOP-K003"@,
        "SLOP-K004"@,
        "SLOP-K005"@,
        "SLOP-K006"@,
        "SLOP-K007"@,
    ]);
    assert(str_views(ids@) =~= implemented_ids());
    ids
}

/// Runs the structural and profile-contract rule families here, appending
/// their hits: the emphasis family, then the profile-contract family.
pub fn evaluate_structural(
    cp: &CompiledPolicy,
    prepared: &Prepared,
    doc: &Doc,
    config: &Config,
    hits: &mut Vec<Hit>,
)
    requires
        package_fits(cp.pkg),
        inputs_fit(prepared.format, *doc, encode_utf8(prepared.text@)),
        emphasis_fits(*cp, *config, *doc, encode_utf8(prepared.text@)),
        k001_fits(*cp, *config, *doc, encode_utf8(prepared.text@)),
        k004_fits(*cp, *config, encode_utf8(prepared.text@)),
    ensures
        final(hits)@ == old(hits)@ + emphasis_hits(*cp, *config, *doc, encode_utf8(prepared.text@))
            + profile_contract_hits(*cp, prepared.format, encode_utf8(prepared.text@), *doc, *config),
{
    let ghost h0 = hits@;
    emphasis::evaluate(cp, prepared, doc, config, hits);
    profile_contract::evaluate(cp, prepared, doc, config, hits);
    assert(hits@ =~= h0 + emphasis_hits(*cp, *config, *doc, encode_utf8(prepared.text@))
        + profile_contract_hits(*cp, prepared.format, encode_utf8(prepared.text@), *doc, *config));
}


/// Runs the structural and profile-contract families, as
/// `evaluate_structural` does, when the inputs are ones they finish on
/// (`emphasis_fits`, `k001_fits`, `k004_fits`); otherwise leaves `hits`
/// as it was and returns false.
pub fn run_structural(
    cp: &CompiledPolicy,
    prepared: &Prepared,
    doc: &Doc,
    config: &Config,
    hits: &mut Vec<Hit>,
) -> (ran: bool)
    requires
        package_fits(cp.pkg),
        inputs_fit(prepared.format, *doc, encode_utf8(prepared.text@)),
    ensures
        ran == (emphasis_fits(*cp, *config, *doc, encode_utf8(prepared.text@)) && k001_fits(
            *cp,
            *config,
            *doc,
            encode_utf8(prepared.text@),
        ) && k004_fits(*cp, *config, encode_utf8(prepared.text@))),
        ran ==> final(hits)@ == old(hits)@ + emphasis_hits(*cp, *config, *doc, encode_utf8(prepared.text@))
            + profile_contract_hits(*cp, prepared.format, encode_utf8(prepared.text@), *doc, *config),
        !ran ==> final(hits)@ == old(hits)@,
{
    if emphasis_inputs_fit(cp, prepared, doc, config) && k001_inputs_fit(cp, prepared, doc, config)
        && k004_inputs_fit(cp, prepared, config) {
        evaluate_structural(cp, prepared, doc, config, hits);
        true
    } else {
        false
    }
}

/// Every rule carries a stance for each of the eight profiles.
pub open spec fn package_fits(pkg: PolicyPackage) -> bool {
    forall|i: int| 0 <= i < pkg.rules@.len() ==> #[trigger] pkg.rules@[i].stances@.len() == 8
}

pub(crate) fn rule_idx(cp: &CompiledPolicy, id: &str) -> (r: Option<usize>)
    ensures
        r is Some <==> first_rule_with_id(cp.pkg.rules@, id@, 0) is Some,
        r matches Some(k) ==> first_rule_with_id(cp.pkg.rules@, id@, 0) == Some(k as int),
{
    let mut i: usize = 0;
    while i < cp.pkg.rules.len()
        invariant
            0 <= i <= cp.pkg.rules@.len(),
            first_rule_with_id(cp.pkg.rules@, id@, 0) == first_rule_with_id(
                cp.pkg.rules@,
                id@,
                i as int,
            ),
        decreases cp.pkg.rules@.len() - i,
    {
        if crate::text::str_eq(cp.pkg.rules[i].id.as_str(), id) {
            return Some(i);
        }
        i += 1;
    }
    None
}

/// The rule `id` runs for `profile`: it exists, is not deprecated, and
/// some field of its stance for the profile (subject, body or trailers) is
/// not off. The result is the rule's index.
pub open spec fn active_rule(pkg: PolicyPackage, profile: Profile, id: Seq<char>) -> Option<usize> {
    match first_rule_with_id(pkg.rules@, id, 0) {
        None => None,
        Some(i) => {
            let r = pkg.rules@[i];
            if r.lifecycle == Lifecycle::Deprecated || !stance_active(
                r.stances@[profile_index(profile) as int],
            ) {
                None
            } else {
                Some(i as usize)
            }
        },
    }
}

proof fn lemma_first_rule_in_range(rules: Seq<Rule>, id: Seq<char>, from: int)
    ensures
        first_rule_with_id(rules, id, from) matches Some(i) ==> from <= i < rules.len()
            && rules[i].id@ == id,
    decreases rules.len() - from,
{
    if 0 <= from < rules.len() && rules[from].id@ != id {
        lemma_first_rule_in_range(rules, id, from + 1);
    }
}

/// True when the rule is active for the profile (any field) and not
/// deprecated.
pub(crate) fn active(cp: &CompiledPolicy, config: &Config, id: &str) -> (r: Option<usize>)
    requires
        package_fits(cp.pkg),
    ensures
        r == active_rule(cp.pkg, config.profile, id@),
        r matches Some(i) ==> i < cp.pkg.rules@.len(),
{
    proof {
        lemma_first_rule_in_range(cp.pkg.rules@, id@, 0);
    }
    let idx = match rule_idx(cp, id) {
        Some(i) => i,
        None => {
            return None;
        },
    };
    let rule = &cp.pkg.rules[idx];
    assert(first_rule_with_id(cp.pkg.rules@, id@, 0) == Some(idx as int));
    assert(rule.stances@.len() == 8);
    if rule.lifecycle == Lifecycle::Deprecated {
        return None;
    }
    let k = config.profile.index();
    if !rule.stances[k].any_active() {
        return None;
    }
    Some(idx)
}

/// The integer parameter `key` of a rule, when it has one.
pub open spec fn param_int(rule: Rule, key: Seq<char>) -> Option<i64> {
    opt_int(toml_get(rule.params, key))
}

pub(crate) fn param_i64(rule: &Rule, key: &str) -> (r: Option<i64>)
    ensures
        r == param_int(*rule, key@),
{
    match rule.params.get(key) {
        Some(v) => v.as_integer(),
        None => None,
    }
}



/// A number that tells the listed pairs apart, built from the rule id's
/// family letter and last digit and from the key's first and last
/// characters and its length.
pub open spec fn pair_sig(p: (Seq<char>, Seq<char>)) -> int {
    (((p.0[5] as int * 128 + p.0[8] as int) * 128 + p.1[0] as int) * 128 + p.1.last() as int) * 64
        + p.1.len()
}

/// The first position from `k` on whose pair has signature `c`, or the
/// length of `ps` when there is none.
pub open spec fn sig_position(ps: Seq<(Seq<char>, Seq<char>)>, c: int, k: int) -> int
    decreases ps.len() - k,
{
    if k < 0 || k >= ps.len() {
        ps.len() as int
    } else if pair_sig(ps[k]) == c {
        k
    } else {
        sig_position(ps, c, k + 1)
    }
}

/// Each listed pair is the first with its signature.
proof fn lemma_sig_positions()
    ensures
        forall|k: int|
            0 <= k < implemented_params().len() ==> sig_position(
                implemented_params(),
                pair_sig(#[trigger] implemented_params()[k]),
                0,
            ) == k,
{
    let ps = implemented_params();
    reveal_strlit("SLOP-D001");
    reveal_strlit("SLOP-D002");
    reveal_strlit("SLOP-D003");
    reveal_strlit("SLOP-D004");
    reveal_strlit("SLOP-E001");
    reveal_strlit("SLOP-E003");
    reveal_strlit("SLOP-H001");
    reveal_strlit("SLOP-H002");
    reveal_strlit("SLOP-H003");
    reveal_strlit("SLOP-K001");
    reveal_strlit("SLOP-K002");
    reveal_strlit("SLOP-K003");
    reveal_strlit("SLOP-K004");
    reveal_strlit("SLOP-K005");
    reveal_strlit("SLOP-K006");
    reveal_strlit("SLOP-K007");
    reveal_strlit("SLOP-M005");
    reveal_strlit("SLOP-X001");
    reveal_strlit("SLOP-X002");
    reveal_strlit("SLOP-X003");
    reveal_strlit("SLOP-X004");
    reveal_strlit("SLOP-Y001");
    reveal_strlit("SLOP-Y002");
    reveal_strlit("bom_stripped");
    reveal_strlit("categories_max");
    reveal_strlit("categories_min");
    reveal_strlit("compare");
    reveal_strlit("conventional_prefix");
    reveal_strlit("count_rules");
    reveal_strlit("dated_heading");
    reveal_strlit("description_required");
    reveal_strlit("dropped_raw_html_text");
    reveal_strlit("emit");
    reveal_strlit("emphasized_words");
    reveal_strlit("expected_body_from_config");
    reveal_strlit("expected_version_from_config");
    reveal_strlit("expected_wording_from_config");
    reveal_strlit("flag_excluded_pct");
    reveal_strlit("followed_by");
    reveal_strlit("followed_within");
    reveal_strlit("forbid_brand_prefix");
    reveal_strlit("forbid_title_words");
    reveal_strlit("heading_set");
    reveal_strlit("html_comment_min_text_chars");
    reveal_strlit("ignore");
    reveal_strlit("imperative_lowercase");
    reveal_strlit("keywords_exact");
    reveal_strlit("list_items_with_leading_bold_label");
    reveal_strlit("max_description_chars");
    reveal_strlit("max_extra_pointer_lines");
    reveal_strlit("max_length_cv_pct");
    reveal_strlit("max_subject_chars");
    reveal_strlit("max_title_chars");
    reveal_strlit("max_words");
    reveal_strlit("min_body_lines");
    reveal_strlit("min_bullet_line_pct");
    reveal_strlit("min_bullets");
    reveal_strlit("min_headings");
    reveal_strlit("min_link_bullet_pct");
    reveal_strlit("min_matches");
    reveal_strlit("min_paragraphs");
    reveal_strlit("mixed_line_endings");
    reveal_strlit("no_trailing_period");
    reveal_strlit("per_document");
    reveal_strlit("per_words");
    reveal_strlit("raw_html_dominance_floor_bytes");
    reveal_strlit("raw_html_dominance_pct");
    reveal_strlit("required_heading");
    reveal_strlit("section_whitelist");
    reveal_strlit("threshold");
    reveal_strlit("unclosed_fence");
    reveal_strlit("unused_link_definitions_with_prose");
    reveal_strlit("unusual_scripts_in_identifierlike_prose");
    reveal_with_fuel(sig_position, 55);
    assert forall|k: int| 0 <= k < ps.len() implies sig_position(ps, pair_sig(#[trigger] ps[k]), 0) == k by {
        if k == 0 {
            assert(sig_position(ps, pair_sig(ps[0]), 0) == 0);
        } else if k == 1 {
            assert(sig_position(ps, pair_sig(ps[1]), 0) == 1);
        } else if k == 2 {
            assert(sig_position(ps, pair_sig(ps[2]), 0) == 2);
        } else if k == 3 {
            assert(sig_position(ps, pair_sig(ps[3]), 0) == 3);
        } else if k == 4 {
            assert(sig_position(ps, pair_sig(ps[4]), 0) == 4);
        } else if k == 5 {
            assert(sig_position(ps, pair_sig(ps[5]), 0) == 5);
        } else if k == 6 {
            assert(sig_position(ps, pair_sig(ps[6]), 0) == 6);
        } else if k == 7 {
            assert(sig_position(ps, pair_sig(ps[7]), 0) == 7);
        } else if k == 8 {
            assert(sig_position(ps, pair_sig(ps[8]), 0) == 8);
        } else if k == 9 {
            assert(sig_position(ps, pair_sig(ps[9]), 0) == 9);
        } else if k == 10 {
            assert(sig_position(ps, pair_sig(ps[10]), 0) == 10);
        } else if k == 11 {
            assert(sig_position(ps, pair_sig(ps[11]), 0) == 11);
        } else if k == 12 {
            assert(sig_position(ps, pair_sig(ps[12]), 0) == 12);
        } else if k == 13 {
            assert(sig_position(ps, pair_sig(ps[13]), 0) == 13);
        } else if k == 14 {
            assert(sig_position(ps, pair_sig(ps[14]), 0) == 14);
        } else if k == 15 {
            assert(sig_position(ps, pair_sig(ps[15]), 0) == 15);
        } else if k == 16 {
            assert(sig_position(ps, pair_sig(ps[16]), 0) == 16);
        } else if k == 17 {
            assert(sig_position(ps, pair_sig(ps[17]), 0) == 17);
        } else if k == 18 {
            assert(sig_position(ps, pair_sig(ps[18]), 0) == 18);
        } else if k == 19 {
            assert(sig_position(ps, pair_sig(ps[19]), 0) == 19);
        } else if k == 20 {
            assert(sig_position(ps, pair_sig(ps[20]), 0) == 20);
        } else if k == 21 {
            assert(sig_position(ps, pair_sig(ps[21]), 0) == 21);
        } else if k == 22 {
            assert(sig_position(ps, pair_sig(ps[22]), 0) == 22);
        } else if k == 23 {
            assert(sig_position(ps, pair_sig(ps[23]), 0) == 23);
        } else if k == 24 {
            assert(sig_position(ps, pair_sig(ps[24]), 0) == 24);
        } else if k == 25 {
            assert(sig_position(ps, pair_sig(ps[25]), 0) == 25);
        } else if k == 26 {
            assert(sig_position(ps, pair_sig(ps[26]), 0) == 26);
        } else if k == 27 {
            assert(sig_position(ps, pair_sig(ps[27]), 0) == 27);
        } else if k == 28 {
            assert(sig_position(ps, pair_sig(ps[28]), 0) == 28);
        } else if k == 29 {
            assert(sig_position(ps, pair_sig(ps[29]), 0) == 29);
        } else if k == 30 {
            assert(sig_position(ps, pair_sig(ps[30]), 0) == 30);
        } else if k == 31 {
            assert(sig_position(ps, pair_sig(ps[31]), 0) == 31);
        } else if k == 32 {
            assert(sig_position(ps, pair_sig(ps[32]), 0) == 32);
        } else if k == 33 {
            assert(sig_position(ps, pair_sig(ps[33]), 0) == 33);
        } else if k == 34 {
            assert(sig_position(ps, pair_sig(ps[34]), 0) == 34);
        } else if k == 35 {
            assert(sig_position(ps, pair_sig(ps[35]), 0) == 35);
        } else if k == 36 {
            assert(sig_position(ps, pair_sig(ps[36]), 0) == 36);
        } else if k == 37 {
            assert(sig_position(ps, pair_sig(ps[37]), 0) == 37);
        } else if k == 38 {
            assert(sig_position(ps, pair_sig(ps[38]), 0) == 38);
        } else if k == 39 {
            assert(sig_position(ps, pair_sig(ps[39]), 0) == 39);
        } else if k == 40 {
            assert(sig_position(ps, pair_sig(ps[40]), 0) == 40);
        } else if k == 41 {
            assert(sig_position(ps, pair_sig(ps[41]), 0) == 41);
        } else if k == 42 {
            assert(sig_position(ps, pair_sig(ps[42]), 0) == 42);
        } else if k == 43 {
            assert(sig_position(ps, pair_sig(ps[43]), 0) == 43);
        } else if k == 44 {
            assert(sig_position(ps, pair_sig(ps[44]), 0) == 44);
        } else if k == 45 {
            assert(sig_position(ps, pair_sig(ps[45]), 0) == 45);
        } else if k == 46 {
            assert(sig_position(ps, pair_sig(ps[46]), 0) == 46);
        } else if k == 47 {
            assert(sig_position(ps, pair_sig(ps[47]), 0) == 47);
        } else if k == 48 {
            assert(sig_position(ps, pair_sig(ps[48]), 0) == 48);
        } else if k == 49 {
            assert(sig_position(ps, pair_sig(ps[49]), 0) == 49);
        } else if k == 50 {
            assert(sig_position(ps, pair_sig(ps[50]), 0) == 50);
        } else if k == 51 {
            assert(sig_position(ps, pair_sig(ps[51]), 0) == 51);
        } else if k == 52 {
            assert(sig_position(ps, pair_sig(ps[52]), 0) == 52);
        } else if k == 53 {
            assert(sig_position(ps, pair_sig(ps[53]), 0) == 53);
        }
    }
}

/// No `(rule id, param key)` pair is listed twice.
pub proof fn law_param_pairs_distinct()
    ensures
        forall|i: int, j: int|
            0 <= i < j < implemented_params().len() ==> implemented_params()[i] != implemented_params()[j],
{
    lemma_sig_positions();
    let ps = implemented_params();
    assert forall|i: int, j: int| 0 <= i < j < ps.len() implies ps[i] != ps[j] by {
        assert(sig_position(ps, pair_sig(ps[i]), 0) == i);
        assert(sig_position(ps, pair_sig(ps[j]), 0) == j);
    }
}

/// Every listed param of a rule of the emphasis (E) or profile-contract
/// (K) family, the families evaluated here, belongs to a rule that
/// `implemented_rule_ids` lists.
pub proof fn law_params_have_rules()
    ensures
        forall|k: int|
            0 <= k < implemented_params().len() && (implemented_params()[k].0[5] == 'E'
                || implemented_params()[k].0[5] == 'K') ==> implemented_ids().contains(
                #[trigger] implemented_params()[k].0,
            ),
{
    let ps = implemented_params();
    let ids = implemented_ids();
    assert(engine_rule_ids().len() == 50);
    reveal_strlit("SLOP-D001");
    reveal_strlit("SLOP-D002");
    reveal_strlit("SLOP-D003");
    reveal_strlit("SLOP-D004");
    reveal_strlit("SLOP-E001");
    reveal_strlit("SLOP-E003");
    reveal_strlit("SLOP-H001");
    reveal_strlit("SLOP-H002");
    reveal_strlit("SLOP-H003");
    reveal_strlit("SLOP-K001");
    reveal_strlit("SLOP-K002");
    reveal_strlit("SLOP-K003");
    reveal_strlit("SLOP-K004");
    reveal_strlit("SLOP-K005");
    reveal_strlit("SLOP-K006");
    reveal_strlit("SLOP-K007");
    reveal_strlit("SLOP-M005");
    reveal_strlit("SLOP-X001");
    reveal_strlit("SLOP-X002");
    reveal_strlit("SLOP-X003");
    reveal_strlit("SLOP-X004");
    reveal_strlit("SLOP-Y001");
    reveal_strlit("SLOP-Y002");
    assert forall|k: int| 0 <= k < ps.len() && (ps[k].0[5] == 'E' || ps[k].0[5] == 'K') implies ids.contains(#[trigger] ps[k].0) by {
        if k == 3 {
            assert(ids[50] == ps[3].0);
        } else if k == 4 {
            assert(ids[50] == ps[4].0);
        } else if k == 5 {
            assert(ids[50] == ps[5].0);
        } else if k == 6 {
            assert(ids[51] == ps[6].0);
        } else if k == 24 {
            assert(ids[52] == ps[24].0);
        } else if k == 25 {
            assert(ids[52] == ps[25].0);
        } else if k == 26 {
            assert(ids[53] == ps[26].0);
        } else if k == 27 {
            assert(ids[53] == ps[27].0);
        } else if k == 28 {
            assert(ids[53] == ps[28].0);
        } else if k == 29 {
            assert(ids[53] == ps[29].0);
        } else if k == 30 {
            assert(ids[54] == ps[30].0);
        } else if k == 31 {
            assert(ids[54] == ps[31].0);
        } else if k == 32 {
            assert(ids[55] == ps[32].0);
        } else if k == 33 {
            assert(ids[55] == ps[33].0);
        } else if k == 34 {
            assert(ids[56] == ps[34].0);
        } else if k == 35 {
            assert(ids[56] == ps[35].0);
        } else if k == 36 {
            assert(ids[57] == ps[36].0);
        } else if k == 37 {
            assert(ids[57] == ps[37].0);
        } else if k == 38 {
            assert(ids[57] == ps[38].0);
        } else if k == 39 {
            assert(ids[57] == ps[39].0);
        } else if k == 40 {
            assert(ids[57] == ps[40].0);
        } else if k == 41 {
            assert(ids[57] == ps[41].0);
        } else if k == 42 {
            assert(ids[58] == ps[42].0);
        } else {
            assert(ps[k].0[5] != 'E' && ps[k].0[5] != 'K');
        }
    }
}

} // verus!
