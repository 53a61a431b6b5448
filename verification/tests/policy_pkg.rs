use ai_slop::input::sha256_hex;
use ai_slop::policy::{
    canonical_bytes, compute_digest, load, load_document, FieldStance, Lifecycle, MatchKindSpec,
    PolicyError, PolicyItem, RuleKey, RuleSetting, Scope, StanceField, StringEntry, Tier, ViewKind,
};
use ai_slop::{Field, Profile, Stance, TomlValue};

const NAMES: &str = r#"profile_names = ["public-bug-report", "commit-message", "changelog", "release-notes", "readme", "api-docs", "cargo-metadata", "internal-doc"]"#;

fn profiles() -> String {
    let mut s = String::new();
    for name in [
        "public-bug-report",
        "commit-message",
        "changelog",
        "release-notes",
        "readme",
        "api-docs",
        "cargo-metadata",
        "internal-doc",
    ] {
        s.push_str(&format!("[profile.{name}]\nformat = \"markdown\"\n"));
    }
    s.push_str("[profile.readme.core_rules]\nSLOP-K005 = \"apply\"\nSLOP-A001 = \"relax\"\n");
    s
}

fn base_policy() -> String {
    let mut s = String::new();
    s.push_str("[policy]\nversion = \"2025.1\"\ndigest = \"sha256:00\"\n\n");
    s.push_str("[semantics]\nquotation_downgrade = [\"SLOP-A001\"]\n");
    s.push_str(NAMES);
    s.push_str("\n\n");
    s.push_str(&profiles());
    s.push_str(
        r#"
[[rule]]
id = "SLOP-A001"
name = "hype words"
family = "assistant"
tier = "violation"
lifecycle = "blocking"
origin = "core"
view = "norm"
guard = "none"
waiver = "human-only"
[rule.match]
kind = "word-set"
lexicon = "words/hype.txt"
words = ["game changer"]
case = "insensitive"
boundary = "word"
scope = "heading"
params = { weight = 2, tags = ["x", "y"] }
[rule.profiles]
default = "apply"
commit-message = { subject = "apply", body = "relax" }
internal-doc = "off"
[rule.exemptions]
idioms = ["Seamless Integration"]
note = "kept"

[[rule]]
id = "SLOP-E001"
name = "staged contrast"
family = "emphasis"
tier = "candidate"
lifecycle = "advisory"
origin = "core"
view = "raw"
guard = "none"
judge = "Is the contrast staged?"
patterns = ["not .* but"]
[rule.match]
kind = "regex-set"
[rule.profiles]
default = "off"
readme = "apply"
"#,
    );
    s
}

fn lexicons() -> Vec<(String, String)> {
    vec![(
        "words/hype.txt".to_string(),
        "# hype words\nSeamless \r\n\n  leverage\n#skip\n".to_string(),
    )]
}

fn load_text(text: &str) -> Result<ai_slop::policy::PolicyPackage, PolicyError> {
    load(text, &lexicons())
}

#[test]
fn load_builds_the_package() {
    let text = base_policy();
    let pkg = load_text(&text).unwrap();
    assert_eq!(pkg.version, "2025.1");
    assert_eq!(pkg.quotation_downgrade, vec!["SLOP-A001".to_string()]);
    assert_eq!(pkg.profile_names.len(), 8);
    assert_eq!(pkg.profile_names[4], "readme");
    assert_eq!(pkg.profiles.len(), 8);
    assert_eq!(pkg.profiles[4].name, "readme");
    assert_eq!(pkg.profiles[4].format, "markdown");
    assert_eq!(
        pkg.profiles[4].core_rules,
        vec![
            ("SLOP-A001".to_string(), "relax".to_string()),
            ("SLOP-K005".to_string(), "apply".to_string())
        ]
    );
    assert_eq!(pkg.profiles[0].notes, "");
    assert_eq!(pkg.rules.len(), 2);
    assert_eq!(pkg.digest, compute_digest(&text, &lexicons()));
}

#[test]
fn load_reads_rule_fields() {
    let pkg = load_text(&base_policy()).unwrap();
    let r = &pkg.rules[0];
    assert_eq!(r.id, "SLOP-A001");
    assert_eq!(r.name, "hype words");
    assert_eq!(r.family, "assistant");
    assert_eq!(r.tier, Tier::Violation);
    assert_eq!(r.lifecycle, Lifecycle::Blocking);
    assert_eq!(r.origin, "core");
    assert!(r.human_only_waiver);
    assert_eq!(r.view, ViewKind::Norm);
    assert_eq!(r.kind, MatchKindSpec::WordSet);
    assert_eq!(r.lexicon.as_deref(), Some("words/hype.txt"));
    assert_eq!(r.terms, vec!["Seamless".to_string(), "leverage".to_string(), "game changer".to_string()]);
    assert!(!r.case_sensitive);
    assert!(r.boundary_word);
    assert!(!r.block_start);
    assert_eq!(r.scope, Scope::Heading);
    assert_eq!(r.params.get("weight").and_then(|v| v.as_integer()), Some(2));
    assert!(r.patterns.is_empty());
    assert_eq!(r.guard, "none");
    assert!(r.judge.is_none());
    assert_eq!(r.exemptions, vec!["seamless integration".to_string()]);
    let e = &pkg.rules[1];
    assert_eq!(e.tier, Tier::Candidate);
    assert_eq!(e.kind, MatchKindSpec::RegexSet);
    assert_eq!(e.patterns, vec!["not .* but".to_string()]);
    assert_eq!(e.judge.as_deref(), Some("Is the contrast staged?"));
    assert!(e.terms.is_empty());
    assert!(e.lexicon.is_none());
    assert!(matches!(&e.params, TomlValue::Table(t) if t.is_empty()));
}

#[test]
fn load_reads_stances_per_profile_and_field() {
    let pkg = load_text(&base_policy()).unwrap();
    let r = &pkg.rules[0];
    assert_eq!(r.stances.len(), 8);
    assert_eq!(r.stance(Profile::Readme, Field::Whole), Stance::Apply);
    assert_eq!(r.stance(Profile::CommitMessage, Field::Subject), Stance::Apply);
    assert_eq!(r.stance(Profile::CommitMessage, Field::Body), Stance::Relax);
    assert_eq!(r.stance(Profile::CommitMessage, Field::Trailers), Stance::Apply);
    assert_eq!(r.stance(Profile::InternalDoc, Field::Body), Stance::Off);
    assert_eq!(r.profile_mask(), 0b0111_1111);
    let e = &pkg.rules[1];
    assert_eq!(e.profile_mask(), 0b0001_0000);
}

#[test]
fn rule_by_id_finds_the_rule() {
    let pkg = load_text(&base_policy()).unwrap();
    assert_eq!(pkg.rule_by_id("SLOP-E001").unwrap().name, "staged contrast");
    assert!(pkg.rule_by_id("SLOP-Z999").is_none());
}

#[test]
fn loaded_package_laws_hold() {
    let pkg = load_text(&base_policy()).unwrap();
    for r in &pkg.rules {
        assert_eq!(r.stances.len(), 8);
    }
    assert_ne!(pkg.rules[0].id, pkg.rules[1].id);
    let uses = pkg
        .rules
        .iter()
        .filter(|r| r.lexicon.as_deref() == Some("words/hype.txt"))
        .count();
    assert_eq!(uses, 1);
}

#[test]
fn names_read_back() {
    assert_eq!(Tier::Violation.as_str(), "violation");
    assert_eq!(Tier::Candidate.as_str(), "candidate");
    assert_eq!(Tier::CoverageHint.as_str(), "coverage_hint");
    assert_eq!(Lifecycle::Blocking.as_str(), "blocking");
    assert_eq!(Lifecycle::Advisory.as_str(), "advisory");
    assert_eq!(Lifecycle::Experimental.as_str(), "experimental");
    assert_eq!(Lifecycle::Deprecated.as_str(), "deprecated");
    assert_eq!(ViewKind::Raw.as_str(), "raw");
    assert_eq!(ViewKind::Prose.as_str(), "prose");
    assert_eq!(ViewKind::Norm.as_str(), "norm");
    assert_eq!(ViewKind::Rendered.as_str(), "rendered");
    let text = base_policy()
        .replace("tier = \"violation\"", &format!("tier = \"{}\"", Tier::CoverageHint.as_str()))
        .replace("lifecycle = \"blocking\"", &format!("lifecycle = \"{}\"", Lifecycle::Experimental.as_str()))
        .replace("view = \"norm\"", &format!("view = \"{}\"", ViewKind::Rendered.as_str()));
    let pkg = load_text(&text).unwrap();
    assert_eq!(pkg.rules[0].tier, Tier::CoverageHint);
    assert_eq!(pkg.rules[0].lifecycle, Lifecycle::Experimental);
    assert_eq!(pkg.rules[0].view, ViewKind::Rendered);
}

#[test]
fn field_stance_helpers() {
    let u = FieldStance::uniform(Stance::Relax);
    assert_eq!(u.for_field(Field::Whole), Stance::Relax);
    assert_eq!(u.for_field(Field::Trailers), Stance::Relax);
    assert!(u.any_active());
    assert!(!FieldStance::uniform(Stance::Off).any_active());
    let split = FieldStance { subject: Stance::Off, body: Stance::Apply, trailers: Stance::Off };
    assert_eq!(split.for_field(Field::Whole), Stance::Off);
    assert_eq!(split.for_field(Field::Body), Stance::Apply);
    assert!(split.any_active());
}

fn expect_err(text: &str) -> PolicyError {
    match load_text(text) {
        Err(e) => e,
        Ok(_) => panic!("package loaded"),
    }
}

#[test]
fn parse_errors_are_refused() {
    assert!(matches!(expect_err("[policy\nversion = 1"), PolicyError::Parse(m) if !m.is_empty()));
}

#[test]
fn root_must_be_a_table() {
    let r = load_document("", &TomlValue::Integer(3), &lexicons());
    assert!(matches!(r, Err(PolicyError::RootNotTable)));
}

#[test]
fn header_errors() {
    let base = base_policy();
    let e = expect_err(&base.replace("[policy]", "[policies]"));
    assert!(matches!(e, PolicyError::Missing(PolicyItem::Policy)));
    let e = expect_err(&base.replace("version = \"2025.1\"", "version = 2025"));
    assert!(matches!(e, PolicyError::Missing(PolicyItem::PolicyVersion)));
    let e = expect_err(&base.replace("[semantics]", "[semantic]"));
    assert!(matches!(e, PolicyError::Missing(PolicyItem::Semantics)));
    let e = expect_err(&base.replace("quotation_downgrade = [\"SLOP-A001\"]", "quotation_downgrade = \"x\""));
    assert!(matches!(e, PolicyError::Missing(PolicyItem::QuotationDowngrade)));
    let e = expect_err(&base.replace("quotation_downgrade = [\"SLOP-A001\"]", "quotation_downgrade = [1]"));
    assert!(matches!(e, PolicyError::NotAString(StringEntry::QuotationDowngrade)));
    let e = expect_err(&base.replace(NAMES, ""));
    assert!(matches!(e, PolicyError::Missing(PolicyItem::ProfileNames)));
    let e = expect_err(&base.replace("\"internal-doc\"]", "3]"));
    assert!(matches!(e, PolicyError::NotAString(StringEntry::ProfileName)));
}

#[test]
fn profile_name_errors() {
    let base = base_policy();
    let e = expect_err(&base.replace(", \"internal-doc\"]", "]"));
    assert!(matches!(e, PolicyError::ProfileCount(7)));
    let e = expect_err(&base.replace("\"changelog\", \"release-notes\"", "\"release-notes\", \"changelog\""));
    assert!(matches!(e, PolicyError::ProfileOrder(2, ref n) if n == "release-notes"));
}

#[test]
fn profile_definition_errors() {
    let base = base_policy();
    let e = expect_err(&base.replace("[profile.", "[profiles."));
    assert!(matches!(e, PolicyError::Missing(PolicyItem::ProfileTables)));
    let e = expect_err(&base.replace("[profile.changelog]\nformat = \"markdown\"\n", ""));
    assert!(matches!(e, PolicyError::ProfileMissing(ref n) if n == "changelog"));
    let e = expect_err(&base.replace("[profile.api-docs]\nformat = \"markdown\"\n", "[profile.api-docs]\nnotes = \"x\"\n"));
    assert!(matches!(e, PolicyError::ProfileFormatMissing(ref n) if n == "api-docs"));
    let e = expect_err(&base.replace("SLOP-K005 = \"apply\"", "SLOP-K005 = true"));
    assert!(matches!(e, PolicyError::NotAString(StringEntry::CoreRuleStance)));
}

#[test]
fn rule_entry_errors() {
    let base = base_policy();
    let head = base.split("[[rule]]").next().unwrap().to_string();
    let e = expect_err(&head);
    assert!(matches!(e, PolicyError::Missing(PolicyItem::Rules)));
    let e = expect_err(&format!("rule = [1]\n{head}"));
    assert!(matches!(e, PolicyError::RuleNotTable));
    let e = expect_err(&base.replace("id = \"SLOP-A001\"", "ident = \"SLOP-A001\""));
    assert!(matches!(e, PolicyError::RuleMissingId));
    let e = expect_err(&base.replace("name = \"hype words\"\n", ""));
    assert!(matches!(e, PolicyError::RuleMissing(ref id, RuleKey::Name) if id == "SLOP-A001"));
    let e = expect_err(&base.replace("guard = \"none\"\nwaiver", "waiver"));
    assert!(matches!(e, PolicyError::RuleMissing(_, RuleKey::Guard)));
    let e = expect_err(&base.replace("[rule.profiles]\ndefault = \"apply\"", "[rule.stances]\ndefault = \"apply\""));
    assert!(matches!(e, PolicyError::RuleMissing(_, RuleKey::Profiles)));
    let e = expect_err(&base.replace("[rule.match]\nkind = \"word-set\"", "[rule.matching]\nkind = \"word-set\""));
    assert!(matches!(e, PolicyError::RuleMissing(_, RuleKey::Match)));
}

#[test]
fn rule_setting_errors() {
    let base = base_policy();
    let e = expect_err(&base.replace("tier = \"violation\"", "tier = \"fatal\""));
    assert!(matches!(e, PolicyError::UnknownSetting(_, RuleSetting::Tier, ref v) if v == "fatal"));
    let e = expect_err(&base.replace("lifecycle = \"blocking\"", "lifecycle = \"gone\""));
    assert!(matches!(e, PolicyError::UnknownSetting(_, RuleSetting::Lifecycle, _)));
    let e = expect_err(&base.replace("view = \"norm\"", "view = \"html\""));
    assert!(matches!(e, PolicyError::UnknownSetting(_, RuleSetting::View, _)));
    let e = expect_err(&base.replace("case = \"insensitive\"", "case = \"upper\""));
    assert!(matches!(e, PolicyError::UnknownSetting(_, RuleSetting::Case, _)));
    let e = expect_err(&base.replace("boundary = \"word\"", "boundary = \"line\""));
    assert!(matches!(e, PolicyError::UnknownSetting(_, RuleSetting::Boundary, _)));
    let e = expect_err(&base.replace("boundary = \"word\"", "boundary = \"word\"\nposition = \"end\""));
    assert!(matches!(e, PolicyError::UnknownSetting(_, RuleSetting::Position, ref v) if v == "end"));
    let e = expect_err(&base.replace("scope = \"heading\"", "scope = \"body\""));
    assert!(matches!(e, PolicyError::UnknownSetting(_, RuleSetting::Scope, _)));
    let e = expect_err(&base.replace("kind = \"word-set\"", "kind = \"fuzzy\""));
    assert!(matches!(e, PolicyError::BadMatchKind(_, Some(ref k)) if k == "fuzzy"));
    let e = expect_err(&base.replace("kind = \"word-set\"", "kind = 4"));
    assert!(matches!(e, PolicyError::BadMatchKind(_, None)));
}

#[test]
fn rule_term_errors() {
    let base = base_policy();
    let e = expect_err(&base.replace("lexicon = \"words/hype.txt\"", "lexicon = \"words/none.txt\""));
    assert!(matches!(e, PolicyError::LexiconNotEmbedded(ref p) if p == "words/none.txt"));
    let empty = vec![("words/hype.txt".to_string(), "# only a comment\n\n".to_string())];
    assert!(matches!(load(&base, &empty), Err(PolicyError::LexiconEmpty(_))));
    let e = expect_err(&base.replace("words = [\"game changer\"]", "words = [\"game changer\", 1]"));
    assert!(matches!(e, PolicyError::NotAString(StringEntry::MatchWord)));
    let e = expect_err(&base.replace("lexicon = \"words/hype.txt\"\nwords = [\"game changer\"]", ""));
    assert!(matches!(e, PolicyError::NoTerms(ref id) if id == "SLOP-A001"));
    let e = expect_err(&base.replace("patterns = [\"not .* but\"]", ""));
    assert!(matches!(e, PolicyError::NoPatterns(ref id) if id == "SLOP-E001"));
    let e = expect_err(&base.replace("patterns = [\"not .* but\"]", "patterns = [false]"));
    assert!(matches!(e, PolicyError::NotAString(StringEntry::Pattern)));
    let e = expect_err(&base.replace("judge = \"Is the contrast staged?\"\n", ""));
    assert!(matches!(e, PolicyError::NoJudge(ref id) if id == "SLOP-E001"));
}

#[test]
fn stance_errors() {
    let base = base_policy();
    let e = expect_err(&base.replace("internal-doc = \"off\"", "internal-doc = \"maybe\""));
    assert!(matches!(e, PolicyError::UnknownStance(ref id, ref k, ref v) if id == "SLOP-A001" && k == "internal-doc" && v == "maybe"));
    let e = expect_err(&base.replace("body = \"relax\"", "body = 2"));
    assert!(matches!(e, PolicyError::StanceNotString(_, ref k, StanceField::Body) if k == "commit-message"));
    let e = expect_err(&base.replace("internal-doc = \"off\"", "internal-doc = 0"));
    assert!(matches!(e, PolicyError::StanceShape(_, ref k) if k == "internal-doc"));
    let e = expect_err(&base.replace("internal-doc = \"off\"", "intranet = \"off\""));
    assert!(matches!(e, PolicyError::UnknownProfile(_, ref k) if k == "intranet"));
    let e = expect_err(&base.replace("default = \"apply\"", "default = \"on\""));
    assert!(matches!(e, PolicyError::UnknownStance(_, ref k, _) if k == "default"));
}

#[test]
fn exemption_phrases_must_be_strings() {
    let base = base_policy();
    let e = expect_err(&base.replace("idioms = [\"Seamless Integration\"]", "idioms = [\"ok\", 7]"));
    assert!(matches!(e, PolicyError::NotAString(StringEntry::ExemptionPhrase)));
}

#[test]
fn lexicon_use_errors() {
    let base = base_policy();
    let mut extra = lexicons();
    extra.push(("words/unused.txt".to_string(), "x\n".to_string()));
    assert!(matches!(load(&base, &extra), Err(PolicyError::LexiconUses(ref p, 0)) if p == "words/unused.txt"));
    let twice = base.replace("[rule.match]\nkind = \"regex-set\"", "[rule.match]\nkind = \"regex-set\"\nlexicon = \"words/hype.txt\"");
    assert!(matches!(load(&twice, &lexicons()), Err(PolicyError::LexiconUses(_, 2))));
}

#[test]
fn duplicate_rule_ids_are_refused() {
    let base = base_policy();
    let e = expect_err(&base.replace("id = \"SLOP-E001\"", "id = \"SLOP-A001\""));
    assert!(matches!(e, PolicyError::DuplicateRule(ref id) if id == "SLOP-A001"));
}

#[test]
fn canonical_bytes_empty_the_digest_and_fold_line_ends() {
    let text = "[policy]\r\n  digest = \"sha256:abc\"\r\nversion = \"1\"\n";
    let lex = vec![
        ("words/b.txt".to_string(), "b\r\n".to_string()),
        ("words/a.txt".to_string(), "a\n".to_string()),
    ];
    let got = canonical_bytes(text, &lex);
    let want = b"policy.toml\0[policy]\ndigest = \"\"\nversion = \"1\"\n\0words/a.txt\0a\n\0words/b.txt\0b\n".to_vec();
    assert_eq!(got, want);
}

#[test]
fn canonical_bytes_keep_equal_paths_in_order() {
    let lex = vec![
        ("z".to_string(), "1".to_string()),
        ("a".to_string(), "2".to_string()),
        ("a".to_string(), "3".to_string()),
    ];
    let got = canonical_bytes("", &lex);
    assert_eq!(got, b"policy.toml\0\0a\x002\0a\x003\0z\x001".to_vec());
}

#[test]
fn canonical_bytes_fold_pairs_left_to_right() {
    let got = canonical_bytes("a\r\r\nb", &[]);
    assert_eq!(got, b"policy.toml\0a\r\nb".to_vec());
}

#[test]
fn digest_value_does_not_change_the_digest() {
    let a = "[policy]\ndigest = \"sha256:1111\"\nversion = \"1\"\n";
    let b = "[policy]\ndigest = \"sha256:2222\"\nversion = \"1\"\n";
    assert_eq!(canonical_bytes(a, &lexicons()), canonical_bytes(b, &lexicons()));
    assert_eq!(compute_digest(a, &lexicons()), compute_digest(b, &lexicons()));
    let c = "[policy]\ndigest = \"sha256:1111\"\nversion = \"2\"\n";
    assert_ne!(compute_digest(a, &lexicons()), compute_digest(c, &lexicons()));
}

#[test]
fn crlf_does_not_change_the_digest() {
    let a = "[policy]\r\nversion = \"1\"\r\n";
    let b = "[policy]\nversion = \"1\"\n";
    assert_eq!(compute_digest(a, &lexicons()), compute_digest(b, &lexicons()));
}

#[test]
fn digest_is_sha256_of_canonical_bytes() {
    let text = base_policy();
    let d = compute_digest(&text, &lexicons());
    assert_eq!(d.len(), 71);
    assert_eq!(d, format!("sha256:{}", sha256_hex(&canonical_bytes(&text, &lexicons()))));
}

#[test]
fn lexicon_order_does_not_change_the_digest() {
    let a = vec![
        ("words/b.txt".to_string(), "b\n".to_string()),
        ("words/a.txt".to_string(), "a\n".to_string()),
        ("words/c.txt".to_string(), "c\n".to_string()),
    ];
    let mut b = a.clone();
    b.reverse();
    assert_eq!(canonical_bytes("x = 1\n", &a), canonical_bytes("x = 1\n", &b));
    assert_eq!(compute_digest("x = 1\n", &a), compute_digest("x = 1\n", &b));
}

#[test]
fn digest_ignores_digest_values_whitespace_and_line_endings() {
    let lex_a = vec![("words/b.txt".to_string(), "x\r\ny\r\n".to_string()), ("words/a.txt".to_string(), "z\n".to_string())];
    let lex_b = vec![("words/b.txt".to_string(), "x\ny\n".to_string()), ("words/a.txt".to_string(), "z\r\n".to_string())];
    let a = "[policy]\r\n  digest = \"sha256:aaaa\"\r\nversion = \"1\"\r\n\tdigest = \"x\"\n";
    let b = "[policy]\n  digest = \"\"\nversion = \"1\"\n\tdigest = \"sha256:ffff\"\r\n";
    assert_eq!(canonical_bytes(a, &lex_a), canonical_bytes(b, &lex_b));
    assert_eq!(compute_digest(a, &lex_a), compute_digest(b, &lex_b));
    // A line that only mentions the key later is not a digest line.
    let c = "[policy]\nnote = 1 # digest = \"a\"\n";
    let d = "[policy]\nnote = 1 # digest = \"b\"\n";
    assert_ne!(canonical_bytes(c, &[]), canonical_bytes(d, &[]));
}
