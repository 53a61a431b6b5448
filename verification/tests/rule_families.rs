use ai_slop::engine::{CompiledPolicy, Hit};
use ai_slop::extract::{CodeRegion, Doc, DocStats, Heading, Section};
use ai_slop::input::{prepare, FormatData, ManifestDoc, ManifestInfo, Prepared};
use ai_slop::policy::load;
use ai_slop::rules::{emphasis, evaluate_structural, implemented_param_keys, implemented_rule_ids, profile_contract, run_structural, ENGINE_RULES};
use ai_slop::{Config, InputFormat, Profile};

fn rule(id: &str, params: &str, extra: &str) -> String {
    format!(
        "[[rule]]\nid = \"{id}\"\nname = \"{id}\"\nfamily = \"f\"\ntier = \"violation\"\nlifecycle = \"{}\"\norigin = \"core\"\nview = \"raw\"\nguard = \"none\"\n[rule.match]\nkind = \"structural\"\nparams = {{ {params} }}\n[rule.profiles]\ndefault = \"apply\"\n{extra}\n",
        if id == "SLOP-K008" { "deprecated" } else { "blocking" }
    )
}

fn policy_text(e001_window: i64) -> String {
    let mut s = String::from("[policy]\nversion = \"t\"\n[semantics]\nquotation_downgrade = []\nprofile_names = [\"public-bug-report\", \"commit-message\", \"changelog\", \"release-notes\", \"readme\", \"api-docs\", \"cargo-metadata\", \"internal-doc\"]\n");
    for p in ["public-bug-report", "commit-message", "changelog", "release-notes", "readme", "api-docs", "cargo-metadata", "internal-doc"] {
        s.push_str(&format!("[profile.{p}]\nformat = \"markdown\"\n"));
    }
    s.push_str(&rule(
        "SLOP-E001",
        &format!("emphasized_words = [\"not\", 3], followed_by = [\"but\", \"rather\"], followed_within = {e001_window}"),
        "",
    ));
    s.push_str(&rule("SLOP-E003", "list_items_with_leading_bold_label = 2", ""));
    s.push_str(&rule("SLOP-K001", "max_title_chars = 20, forbid_title_words = [\"urgent\"]", "commit-message = \"off\""));
    s.push_str(&rule("SLOP-K002", "", ""));
    s.push_str(&rule("SLOP-K003", "section_whitelist = [\"added\", \"fixed\"]", ""));
    s.push_str(&rule("SLOP-K004", "", ""));
    s.push_str(&rule("SLOP-K005", "", ""));
    s.push_str(&rule("SLOP-K006", "", ""));
    s.push_str(&rule("SLOP-K007", "", ""));
    s.push_str(&rule("SLOP-K008", "", ""));
    s
}

fn compiled(e001_window: i64) -> CompiledPolicy {
    CompiledPolicy { pkg: load(&policy_text(e001_window), &[]).unwrap() }
}

fn no_manifest(_: &str) -> Result<ManifestDoc, String> {
    Err("not a manifest".to_string())
}

fn prepared(text: &str, format: InputFormat) -> Prepared {
    let config = Config::with_format(Profile::Readme, format);
    prepare(text.as_bytes(), &config, no_manifest).unwrap()
}

fn empty_doc() -> Doc {
    Doc {
        headings: vec![],
        sections: vec![],
        code_regions: vec![],
        emphasis: vec![],
        bold_label_ranges: vec![],
        stats: DocStats { bold_label_items: 0 },
    }
}

fn rule_index(cp: &CompiledPolicy, id: &str) -> usize {
    cp.pkg.rules.iter().position(|r| r.id == id).unwrap()
}

fn spans(hits: &[Hit]) -> Vec<(usize, std::ops::Range<usize>)> {
    hits.iter().map(|h| (h.rule, h.span.clone())).collect()
}

fn all_within(hits: &[Hit], len: usize) -> bool {
    hits.iter().all(|h| h.span.start <= h.span.end && h.span.end <= len)
}

#[test]
fn e001_flags_staged_contrast() {
    let cp = compiled(20);
    let text = "This is *not* a bug, but a feature.";
    let p = prepared(text, InputFormat::Markdown);
    let mut doc = empty_doc();
    doc.emphasis.push((8..13, " Not ".to_string()));
    let config = Config::with_format(Profile::Readme, InputFormat::Markdown);
    let mut hits = Vec::new();
    emphasis::evaluate(&cp, &p, &doc, &config, &mut hits);
    assert_eq!(spans(&hits), vec![(rule_index(&cp, "SLOP-E001"), 8..13)]);
    assert!(!hits[0].force_candidate && !hits[0].force_hint);
}

#[test]
fn e001_needs_follower_inside_window() {
    let cp = compiled(5);
    let text = "This is *not* a bug, but a feature.";
    let p = prepared(text, InputFormat::Markdown);
    let mut doc = empty_doc();
    doc.emphasis.push((8..13, "not".to_string()));
    let config = Config::with_format(Profile::Readme, InputFormat::Markdown);
    let mut hits = Vec::new();
    emphasis::evaluate(&cp, &p, &doc, &config, &mut hits);
    assert!(hits.is_empty());
}

#[test]
fn e001_wants_standalone_follower_and_listed_word() {
    let cp = compiled(15);
    let text = "It is *not* a butter knife, *never* but.";
    let p = prepared(text, InputFormat::Markdown);
    let mut doc = empty_doc();
    doc.emphasis.push((6..11, "not".to_string()));
    doc.emphasis.push((28..35, "never".to_string()));
    let config = Config::with_format(Profile::Readme, InputFormat::Markdown);
    let mut hits = Vec::new();
    emphasis::evaluate(&cp, &p, &doc, &config, &mut hits);
    assert!(hits.is_empty());
}

#[test]
fn e001_window_widens_to_character_boundary() {
    let cp = compiled(2);
    let text = "*not* éb but";
    let p = prepared(text, InputFormat::Markdown);
    let mut doc = empty_doc();
    doc.emphasis.push((0..5, "not".to_string()));
    let config = Config::with_format(Profile::Readme, InputFormat::Markdown);
    let mut hits = Vec::new();
    emphasis::evaluate(&cp, &p, &doc, &config, &mut hits);
    assert!(hits.is_empty());
}

#[test]
fn e003_counts_bold_label_items() {
    let cp = compiled(20);
    let text = "- **A**: x\n- **B**: y\n";
    let p = prepared(text, InputFormat::Markdown);
    let mut doc = empty_doc();
    doc.stats.bold_label_items = 2;
    doc.bold_label_ranges = vec![2..7, 13..18];
    let config = Config::with_format(Profile::Readme, InputFormat::Markdown);
    let mut hits = Vec::new();
    emphasis::evaluate(&cp, &p, &doc, &config, &mut hits);
    assert_eq!(spans(&hits), vec![(rule_index(&cp, "SLOP-E003"), 2..7)]);
    doc.stats.bold_label_items = 1;
    let mut none = Vec::new();
    emphasis::evaluate(&cp, &p, &doc, &config, &mut none);
    assert!(none.is_empty());
}

fn title_doc() -> (String, Doc) {
    let text = "# URGENT: crash when saving files\n\nBody.\n".to_string();
    let mut doc = empty_doc();
    doc.headings.push(Heading {
        level: 1,
        text: "URGENT: crash when saving files".to_string(),
        text_range: 2..33,
        range: 0..33,
    });
    doc.sections.push(Section { range: 0..text.len() });
    (text, doc)
}

#[test]
fn k001_checks_title_length_and_words() {
    let cp = compiled(20);
    let (text, doc) = title_doc();
    let p = prepared(&text, InputFormat::Markdown);
    let config = Config::with_format(Profile::PublicBugReport, InputFormat::Markdown);
    let mut hits = Vec::new();
    profile_contract::evaluate(&cp, &p, &doc, &config, &mut hits);
    let k001 = rule_index(&cp, "SLOP-K001");
    let k005 = rule_index(&cp, "SLOP-K005");
    assert_eq!(spans(&hits), vec![(k001, 2..33), (k001, 2..8), (k004_index(&cp), 0..0), (k005, 0..0)]);
}

fn k004_index(cp: &CompiledPolicy) -> usize {
    rule_index(cp, "SLOP-K004")
}

#[test]
fn k001_uses_first_line_without_heading() {
    let cp = compiled(20);
    let text = "short title\nmore\n";
    let p = prepared(text, InputFormat::Markdown);
    let config = Config::with_format(Profile::PublicBugReport, InputFormat::Markdown);
    let mut hits = Vec::new();
    profile_contract::evaluate(&cp, &p, &empty_doc(), &config, &mut hits);
    let k001 = rule_index(&cp, "SLOP-K001");
    assert!(hits.iter().all(|h| h.rule != k001));
}

#[test]
fn k002_checks_commit_subject() {
    let cp = compiled(20);
    let config = Config::with_format(Profile::CommitMessage, InputFormat::Commit);
    let p = prepare(b"Added parser.\n\nBody\n", &config, no_manifest).unwrap();
    let mut hits = Vec::new();
    profile_contract::evaluate(&cp, &p, &empty_doc(), &config, &mut hits);
    let k002 = rule_index(&cp, "SLOP-K002");
    let k002_hits: Vec<_> = hits.iter().filter(|h| h.rule == k002).map(|h| h.span.clone()).collect();
    assert_eq!(k002_hits, vec![0..13, 0..13]);
    let p = prepare(b"feat(io): Added parser\n", &config, no_manifest).unwrap();
    let mut hits = Vec::new();
    profile_contract::evaluate(&cp, &p, &empty_doc(), &config, &mut hits);
    let cand: Vec<_> = hits.iter().filter(|h| h.rule == k002).collect();
    assert_eq!(cand.len(), 1);
    assert_eq!(cand[0].span, 10..15);
    assert!(cand[0].force_candidate);
    let p = prepare(b"fix: handle empty input\n", &config, no_manifest).unwrap();
    let mut hits = Vec::new();
    profile_contract::evaluate(&cp, &p, &empty_doc(), &config, &mut hits);
    assert!(hits.iter().all(|h| h.rule != k002));
}

#[test]
fn k003_checks_changelog_headings() {
    let cp = compiled(20);
    let text = "# Changelog\n## Added\n## [1.0.0]\n## [1.1.0] - 2024-01-02\n## Misc\n";
    let p = prepared(text, InputFormat::Markdown);
    let mut doc = empty_doc();
    let mut at = 0;
    for (level, t) in [(1u8, "Changelog"), (2, "Added"), (2, "[1.0.0]"), (2, "[1.1.0] - 2024-01-02"), (2, "Misc")] {
        let start = text[at..].find(t).unwrap() + at;
        doc.headings.push(Heading { level, text: t.to_string(), text_range: start..start + t.len(), range: start - level as usize - 1..start + t.len() });
        at = start + t.len();
    }
    let config = Config::with_format(Profile::Changelog, InputFormat::Markdown);
    let mut hits = Vec::new();
    profile_contract::evaluate(&cp, &p, &doc, &config, &mut hits);
    let k003 = rule_index(&cp, "SLOP-K003");
    let got: Vec<_> = hits.iter().filter(|h| h.rule == k003).map(|h| &text[h.span.clone()]).collect();
    assert_eq!(got, vec!["[1.0.0]", "Misc"]);
}

#[test]
fn k004_compares_release_body() {
    let cp = compiled(20);
    let k004 = rule_index(&cp, "SLOP-K004");
    let mut config = Config::with_format(Profile::ReleaseNotes, InputFormat::Text);
    let p = prepared("Fixed the bug.\nSee the changelog.\n", InputFormat::Text);
    let mut hits = Vec::new();
    profile_contract::evaluate(&cp, &p, &empty_doc(), &config, &mut hits);
    let hint: Vec<_> = hits.iter().filter(|h| h.rule == k004).collect();
    assert_eq!(hint.len(), 1);
    assert!(hint[0].force_hint);
    config.deployment.expected_release_body = Some("  Fixed the bug.\r\n".to_string());
    let mut hits = Vec::new();
    profile_contract::evaluate(&cp, &p, &empty_doc(), &config, &mut hits);
    assert!(hits.iter().all(|h| h.rule != k004));
    let other = prepared("Something else\n", InputFormat::Text);
    let mut hits = Vec::new();
    profile_contract::evaluate(&cp, &other, &empty_doc(), &config, &mut hits);
    let found: Vec<_> = hits.iter().filter(|h| h.rule == k004).map(|h| h.span.clone()).collect();
    assert_eq!(found, vec![0..1]);
}

#[test]
fn k005_checks_license_section() {
    let cp = compiled(20);
    let k005 = rule_index(&cp, "SLOP-K005");
    let text = "# Tool\n## License\nMIT  or\nApache-2.0\n";
    let p = prepared(text, InputFormat::Markdown);
    let mut doc = empty_doc();
    doc.headings.push(Heading { level: 1, text: "Tool".to_string(), text_range: 2..6, range: 0..6 });
    doc.headings.push(Heading { level: 2, text: "LICENSE".to_string(), text_range: 10..17, range: 7..17 });
    doc.sections.push(Section { range: 0..7 });
    doc.sections.push(Section { range: 7..text.len() });
    let mut config = Config::with_format(Profile::Readme, InputFormat::Markdown);
    config.deployment.expected_license_wording = Some("MIT or Apache-2.0".to_string());
    let mut hits = Vec::new();
    profile_contract::evaluate(&cp, &p, &doc, &config, &mut hits);
    assert!(hits.iter().all(|h| h.rule != k005));
    config.deployment.expected_license_wording = Some("GPL".to_string());
    let mut hits = Vec::new();
    profile_contract::evaluate(&cp, &p, &doc, &config, &mut hits);
    let found: Vec<_> = hits.iter().filter(|h| h.rule == k005).map(|h| h.span.clone()).collect();
    assert_eq!(found, vec![7..17]);
}

#[test]
fn k006_checks_manifest_fields() {
    let cp = compiled(20);
    let k006 = rule_index(&cp, "SLOP-K006");
    let config = Config::with_format(Profile::CargoMetadata, InputFormat::Manifest);
    let text = "[package]\nname = \"tool\"\ndescription = \"Tool for things\"\n";
    let mut p = prepared(text, InputFormat::Text);
    p.format = FormatData::Manifest(ManifestInfo {
        name: Some("tool".to_string()),
        description: Some("Tool for things".to_string()),
        description_span: Some(38..55),
        description_inner: Some(39..54),
        keywords: Some((2, 0..0)),
        categories: None,
        version: None,
    });
    let mut hits = Vec::new();
    profile_contract::evaluate(&cp, &p, &empty_doc(), &config, &mut hits);
    let found: Vec<_> = hits.iter().filter(|h| h.rule == k006).map(|h| h.span.clone()).collect();
    assert_eq!(found, vec![38..55, 0..0, 0..0]);
}

#[test]
fn k007_checks_quoted_versions() {
    let cp = compiled(20);
    let k007 = rule_index(&cp, "SLOP-K007");
    let text = "```toml\ntool = \"1.2.3\"\nother = \"x\"\n```\n";
    let p = prepared(text, InputFormat::Markdown);
    let mut doc = empty_doc();
    doc.code_regions.push(CodeRegion { range: 0..text.len() });
    let mut config = Config::with_format(Profile::Readme, InputFormat::Markdown);
    let mut hits = Vec::new();
    profile_contract::evaluate(&cp, &p, &doc, &config, &mut hits);
    let hint: Vec<_> = hits.iter().filter(|h| h.rule == k007).collect();
    assert_eq!(hint.len(), 1);
    assert!(hint[0].force_hint);
    assert_eq!(&text[hint[0].span.clone()], "1.2.3");
    config.deployment.expected_version = Some("1.2".to_string());
    let mut hits = Vec::new();
    profile_contract::evaluate(&cp, &p, &doc, &config, &mut hits);
    assert!(hits.iter().all(|h| h.rule != k007));
    config.deployment.expected_version = Some("2.0.0".to_string());
    let mut hits = Vec::new();
    profile_contract::evaluate(&cp, &p, &doc, &config, &mut hits);
    let found: Vec<_> = hits.iter().filter(|h| h.rule == k007).map(|h| &text[h.span.clone()]).collect();
    assert_eq!(found, vec!["1.2.3"]);
}

#[test]
fn structural_families_run_in_order_and_point_into_the_text() {
    let cp = compiled(20);
    let (text, mut doc) = title_doc();
    doc.emphasis.push((2..8, "urgent".to_string()));
    doc.stats.bold_label_items = 3;
    let p = prepared(&text, InputFormat::Markdown);
    let config = Config::with_format(Profile::PublicBugReport, InputFormat::Markdown);
    let mut hits = Vec::new();
    evaluate_structural(&cp, &p, &doc, &config, &mut hits);
    let e003 = rule_index(&cp, "SLOP-E003");
    let k001 = rule_index(&cp, "SLOP-K001");
    assert_eq!(hits[0].rule, e003);
    assert_eq!(hits[0].span, 0..0);
    assert_eq!(hits[1].rule, k001);
    assert!(all_within(&hits, p.text.len()));
}

#[test]
fn off_rules_do_not_run() {
    let cp = compiled(20);
    let (text, doc) = title_doc();
    let p = prepared(&text, InputFormat::Markdown);
    let config = Config::with_format(Profile::CommitMessage, InputFormat::Markdown);
    let mut hits = Vec::new();
    profile_contract::evaluate(&cp, &p, &doc, &config, &mut hits);
    let k001 = rule_index(&cp, "SLOP-K001");
    assert!(hits.iter().all(|h| h.rule != k001));
}

#[test]
fn deprecated_rules_do_not_run() {
    let text = policy_text(20).replace(
        "id = \"SLOP-K005\"\nname = \"SLOP-K005\"\nfamily = \"f\"\ntier = \"violation\"\nlifecycle = \"blocking\"",
        "id = \"SLOP-K005\"\nname = \"SLOP-K005\"\nfamily = \"f\"\ntier = \"violation\"\nlifecycle = \"deprecated\"",
    );
    let cp = CompiledPolicy { pkg: load(&text, &[]).unwrap() };
    let k005 = rule_index(&cp, "SLOP-K005");
    let p = prepared("# Tool\n", InputFormat::Markdown);
    let config = Config::with_format(Profile::Readme, InputFormat::Markdown);
    let mut hits = Vec::new();
    profile_contract::evaluate(&cp, &p, &empty_doc(), &config, &mut hits);
    assert!(hits.iter().all(|h| h.rule != k005));
    let live = compiled(20);
    let mut hits = Vec::new();
    profile_contract::evaluate(&live, &p, &empty_doc(), &config, &mut hits);
    assert!(hits.iter().any(|h| h.rule == k005));
}

#[test]
fn implemented_rule_ids_list_every_family_here() {
    let ids = implemented_rule_ids();
    assert_eq!(ids.len(), ENGINE_RULES.len() + 2 + 7);
    assert_eq!(ids[0], "SLOP-A001");
    assert_eq!(ids[ENGINE_RULES.len()], "SLOP-E001");
    assert_eq!(ids[ids.len() - 1], "SLOP-K007");
    assert_eq!(ENGINE_RULES.len(), 50);
    let mut sorted = ids.clone();
    sorted.sort();
    sorted.dedup();
    assert_eq!(sorted.len(), ids.len());
}

#[test]
fn implemented_param_keys_cover_the_rules_here() {
    let keys = implemented_param_keys();
    assert_eq!(keys.len(), 54);
    assert_eq!(keys[0], ("SLOP-M005", "unclosed_fence"));
    assert!(keys.contains(&("SLOP-E001", "followed_within")));
    assert!(keys.contains(&("SLOP-K001", "max_title_chars")));
    assert!(keys.contains(&("SLOP-H003", "unusual_scripts_in_identifierlike_prose")));
    // Every E and K param belongs to an implemented rule, and no pair repeats.
    let ids = implemented_rule_ids();
    assert!(keys
        .iter()
        .filter(|(id, _)| id.starts_with("SLOP-E") || id.starts_with("SLOP-K"))
        .all(|(id, _)| ids.contains(id)));
    let mut sorted = keys.clone();
    sorted.sort();
    sorted.dedup();
    assert_eq!(sorted.len(), keys.len());
}

fn default_policy() -> CompiledPolicy {
    let text = policy_text(0)
        .replace(
            "emphasized_words = [\"not\", 3], followed_by = [\"but\", \"rather\"], followed_within = 0",
            "emphasized_words = [\"does\", \"not\"], followed_by = [\"but\"]",
        )
        .replace("list_items_with_leading_bold_label = 2", "");
    CompiledPolicy { pkg: load(&text, &[]).unwrap() }
}

fn has_rule(cp: &CompiledPolicy, hits: &[Hit], id: &str) -> bool {
    hits.iter().any(|h| cp.pkg.rules[h.rule].id == id)
}

fn structural_hits(cp: &CompiledPolicy, text: &str, doc: &Doc, profile: Profile, format: InputFormat) -> Vec<Hit> {
    let config = Config::with_format(profile, format);
    let p = prepare(text.as_bytes(), &config, no_manifest).unwrap();
    let mut hits = Vec::new();
    evaluate_structural(cp, &p, doc, &config, &mut hits);
    assert!(all_within(&hits, p.text.len()));
    hits
}

#[test]
fn bold_label_list_needs_three_items() {
    let cp = default_policy();
    let two = "- **Fast**: quick\n- **Safe**: sound\n";
    let mut doc = empty_doc();
    doc.stats.bold_label_items = 2;
    doc.bold_label_ranges = vec![2..10, 20..28];
    let hits = structural_hits(&cp, two, &doc, Profile::Readme, InputFormat::Markdown);
    assert!(!has_rule(&cp, &hits, "SLOP-E003"));

    let three = "- **Fast**: quick\n- **Safe**: sound\n- **Clean**: neat\n";
    let mut doc = empty_doc();
    doc.stats.bold_label_items = 3;
    doc.bold_label_ranges = vec![2..10, 20..28, 38..47];
    let hits = structural_hits(&cp, three, &doc, Profile::Readme, InputFormat::Markdown);
    assert!(has_rule(&cp, &hits, "SLOP-E003"));
}

#[test]
fn emphasis_staged_contrast() {
    let cp = default_policy();
    let doc_text = "The parser *does* accept this input, but the writer rejects it.\n";
    let mut doc = empty_doc();
    doc.emphasis.push((11..17, "does".to_string()));
    let hits = structural_hits(&cp, doc_text, &doc, Profile::Readme, InputFormat::Markdown);
    assert!(has_rule(&cp, &hits, "SLOP-E001"));

    let plain = "The parser *quickly* accepts this input, but slowly.\n";
    let mut doc = empty_doc();
    doc.emphasis.push((11..20, "quickly".to_string()));
    let hits = structural_hits(&cp, plain, &doc, Profile::Readme, InputFormat::Markdown);
    assert!(!has_rule(&cp, &hits, "SLOP-E001"));
}

#[test]
fn commit_subject_format_checks() {
    let cp = default_policy();
    let k002 = rule_index(&cp, "SLOP-K002");
    let good = "feat(parser): add span table\n\nExplains why.\n";
    let hits = structural_hits(&cp, good, &empty_doc(), Profile::CommitMessage, InputFormat::Commit);
    assert!(!hits
        .iter()
        .any(|h| h.rule == k002 && !h.force_candidate && !h.force_hint));

    for bad in ["Add span table\n", "feat: add span table.\n", "no conventional prefix here\n"] {
        let hits = structural_hits(&cp, bad, &empty_doc(), Profile::CommitMessage, InputFormat::Commit);
        assert!(hits.iter().any(|h| h.rule == k002), "K002 missed {:?}", bad);
    }

    let long = format!("feat: {}\n", "x".repeat(80));
    let hits = structural_hits(&cp, &long, &empty_doc(), Profile::CommitMessage, InputFormat::Commit);
    assert!(hits.iter().any(|h| h.rule == k002));
}

#[test]
fn k001_forbidden_word_must_stand_alone() {
    let cp = compiled(20);
    let k001 = rule_index(&cp, "SLOP-K001");
    let config = Config::with_format(Profile::PublicBugReport, InputFormat::Markdown);
    for (title, fires) in [
        ("urgently", false),
        ("non-urgent", false),
        ("urgenté", false),
        ("é urgent!", true),
        ("Urgent", true),
    ] {
        let p = prepared(title, InputFormat::Markdown);
        let mut hits = Vec::new();
        profile_contract::evaluate(&cp, &p, &empty_doc(), &config, &mut hits);
        let word_hits: Vec<_> = hits
            .iter()
            .filter(|h| h.rule == k001 && h.span.end - h.span.start == 6)
            .collect();
        assert_eq!(!word_hits.is_empty(), fires, "title {title:?}");
    }
}

fn compiled_with_followers(followers: &str) -> CompiledPolicy {
    let text = policy_text(20).replace("followed_by = [\"but\", \"rather\"]", &format!("followed_by = [{followers}]"));
    CompiledPolicy { pkg: load(&text, &[]).unwrap() }
}

fn e001_case(cp: &CompiledPolicy, text: &str, word: &str) -> (bool, Vec<Hit>) {
    let p = prepared(text, InputFormat::Markdown);
    let mut doc = empty_doc();
    doc.emphasis.push((0..5, word.to_string()));
    let config = Config::with_format(Profile::Readme, InputFormat::Markdown);
    let fits = emphasis::emphasis_inputs_fit(cp, &p, &doc, &config);
    let mut hits = Vec::new();
    if fits {
        emphasis::evaluate(cp, &p, &doc, &config, &mut hits);
    }
    (fits, hits)
}

#[test]
fn e001_non_ascii_follower_search_must_not_break_off() {
    let cp = compiled_with_followers("\"éh\"");
    let (fits, _) = e001_case(&cp, "*not* éhx éh.", "not");
    assert!(!fits);
    let (fits, hits) = e001_case(&cp, "*not* éh x", "not");
    assert!(fits);
    assert_eq!(spans(&hits), vec![(rule_index(&cp, "SLOP-E001"), 0..5)]);
    let (fits, hits) = e001_case(&cp, "*not* nothing here", "not");
    assert!(fits);
    assert!(hits.is_empty());
    // A word that is not listed never reaches the follower search.
    let (fits, hits) = e001_case(&cp, "*yes* éhx", "yes");
    assert!(fits);
    assert!(hits.is_empty());
}

#[test]
fn e001_empty_follower_stands_where_its_search_stops() {
    let cp = compiled_with_followers("\"\", \"but\"");
    let (fits, _) = e001_case(&cp, "*not*abc", "not");
    assert!(!fits);
    let (fits, hits) = e001_case(&cp, "*not* abc", "not");
    assert!(fits);
    assert_eq!(spans(&hits), vec![(rule_index(&cp, "SLOP-E001"), 0..5)]);
}

#[test]
fn e001_stops_at_the_first_follower_that_stands() {
    // "but" stands, so the empty phrase after it is never searched.
    let cp = compiled_with_followers("\"but\", \"\"");
    let (fits, hits) = e001_case(&cp, "*not*but", "not");
    assert!(fits);
    assert_eq!(hits.len(), 1);
}

#[test]
fn k004_extra_line_allowance_must_fit() {
    let text = policy_text(20).replace(
        "id = \"SLOP-K004\"\nname = \"SLOP-K004\"\nfamily = \"f\"\ntier = \"violation\"\nlifecycle = \"blocking\"\norigin = \"core\"\nview = \"raw\"\nguard = \"none\"\n[rule.match]\nkind = \"structural\"\nparams = {  }",
        "id = \"SLOP-K004\"\nname = \"SLOP-K004\"\nfamily = \"f\"\ntier = \"violation\"\nlifecycle = \"blocking\"\norigin = \"core\"\nview = \"raw\"\nguard = \"none\"\n[rule.match]\nkind = \"structural\"\nparams = { max_extra_pointer_lines = -1 }",
    );
    let cp = CompiledPolicy { pkg: load(&text, &[]).unwrap() };
    let mut config = Config::with_format(Profile::ReleaseNotes, InputFormat::Text);
    config.deployment.expected_release_body = Some("Fixed the bug.\n".to_string());
    // The same body never needs the allowance.
    let same = prepared("Fixed the bug.\n", InputFormat::Text);
    assert!(profile_contract::k004_inputs_fit(&cp, &same, &config));
    // A different body would add one to usize::MAX.
    let other = prepared("Fixed the bug.\nMore.\n", InputFormat::Text);
    assert!(!profile_contract::k004_inputs_fit(&cp, &other, &config));
    // The default allowance of one extra line always fits.
    let cp = compiled(20);
    assert!(profile_contract::k004_inputs_fit(&cp, &other, &config));
    let mut hits = Vec::new();
    profile_contract::evaluate(&cp, &other, &empty_doc(), &config, &mut hits);
    assert!(hits.iter().all(|h| h.rule != rule_index(&cp, "SLOP-K004")));
}

fn compiled_with_forbidden(words: &str) -> CompiledPolicy {
    let text = policy_text(20).replace("forbid_title_words = [\"urgent\"]", &format!("forbid_title_words = [{words}]"));
    CompiledPolicy { pkg: load(&text, &[]).unwrap() }
}

#[test]
fn k001_empty_word_stands_only_at_a_standalone_title_start() {
    let cp = compiled_with_forbidden("\"\", \"urgent\"");
    let config = Config::with_format(Profile::PublicBugReport, InputFormat::Markdown);
    let k001 = rule_index(&cp, "SLOP-K001");
    // A title that opens with a letter: the empty word's search never ends.
    let p = prepared("urgent fix\n", InputFormat::Markdown);
    assert!(!profile_contract::k001_inputs_fit(&cp, &p, &empty_doc(), &config));
    let mut hits = Vec::new();
    assert!(!run_structural(&cp, &p, &empty_doc(), &config, &mut hits));
    assert!(hits.is_empty());
    // A title that opens with a space: the empty word stands at its start.
    let p = prepared(" urgent fix\n", InputFormat::Markdown);
    assert!(profile_contract::k001_inputs_fit(&cp, &p, &empty_doc(), &config));
    let mut hits = Vec::new();
    assert!(run_structural(&cp, &p, &empty_doc(), &config, &mut hits));
    let found: Vec<_> = hits.iter().filter(|h| h.rule == k001).map(|h| h.span.clone()).collect();
    assert_eq!(found, vec![0..0, 1..7]);
}

#[test]
fn run_structural_runs_on_ordinary_inputs() {
    let cp = compiled(20);
    let (text, doc) = title_doc();
    let p = prepared(&text, InputFormat::Markdown);
    let config = Config::with_format(Profile::PublicBugReport, InputFormat::Markdown);
    let mut direct = Vec::new();
    evaluate_structural(&cp, &p, &doc, &config, &mut direct);
    let mut hits = Vec::new();
    assert!(run_structural(&cp, &p, &doc, &config, &mut hits));
    assert_eq!(spans(&hits), spans(&direct));
}

#[test]
fn a_rule_applied_only_to_trailers_is_active() {
    // K002 off for subject and body of commit messages but applied to trailers.
    let text = policy_text(20).replace(
        "id = \"SLOP-K002\"\nname = \"SLOP-K002\"\nfamily = \"f\"\ntier = \"violation\"\nlifecycle = \"blocking\"\norigin = \"core\"\nview = \"raw\"\nguard = \"none\"\n[rule.match]\nkind = \"structural\"\nparams = {  }\n[rule.profiles]\ndefault = \"apply\"\n",
        "id = \"SLOP-K002\"\nname = \"SLOP-K002\"\nfamily = \"f\"\ntier = \"violation\"\nlifecycle = \"blocking\"\norigin = \"core\"\nview = \"raw\"\nguard = \"none\"\n[rule.match]\nkind = \"structural\"\nparams = {  }\n[rule.profiles]\ndefault = \"apply\"\ncommit-message = { subject = \"off\", body = \"off\", trailers = \"apply\" }\n",
    );
    let cp = CompiledPolicy { pkg: load(&text, &[]).unwrap() };
    let k002 = rule_index(&cp, "SLOP-K002");
    assert_eq!(cp.pkg.rules[k002].stances[1].trailers, ai_slop::Stance::Apply);
    assert_eq!(cp.pkg.rules[k002].stances[1].subject, ai_slop::Stance::Off);
    let config = Config::with_format(Profile::CommitMessage, InputFormat::Commit);
    let p = prepared("Fixed the bug.\n", InputFormat::Commit);
    let mut hits = Vec::new();
    profile_contract::evaluate(&cp, &p, &empty_doc(), &config, &mut hits);
    // A subject ending in a period and without a conventional prefix fires.
    assert!(hits.iter().any(|h| h.rule == k002));
}

#[test]
fn k002_reads_the_conventional_commit_head() {
    let cp = compiled(20);
    let config = Config::with_format(Profile::CommitMessage, InputFormat::Commit);
    let k002 = rule_index(&cp, "SLOP-K002");
    let fires = |subject: &str| {
        let text = format!("{subject}\n");
        let p = prepare(text.as_bytes(), &config, no_manifest).unwrap();
        let mut hits = Vec::new();
        profile_contract::evaluate(&cp, &p, &empty_doc(), &config, &mut hits);
        hits.iter().any(|h| h.rule == k002)
    };
    for ok in ["feat: add x", "feat!: add x", "feat!!: add x", "feat(io): add x", "feat(io)!: add x", "feat!(io): add x", "feat!(io)!: add x", "feat((a)): add x"] {
        assert!(!fires(ok), "{ok}");
    }
    for bad in ["Feat: add x", "feat(): add x", "feat!!!: add x", "feat(io)x: add x", "feat-x: add x", "feat:add x", ": add x", "feat(io: add x"] {
        assert!(fires(bad), "{bad}");
    }
}
