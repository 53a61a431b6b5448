use ai_slop::config::{InputFormat, Profile};
use ai_slop::config::{deployment_from, load_deployment, DeploymentError, DeploymentKey, WaiverAuthority};
use ai_slop::TomlValue;

#[test]
fn deployment_reads_string_settings() {
    let d = load_deployment("expected_version = \"1.2\"\nexpected_release_body = \"Fixed.\\n\"\n").unwrap();
    assert_eq!(d.expected_version.as_deref(), Some("1.2"));
    assert_eq!(d.expected_release_body.as_deref(), Some("Fixed.\n"));
    assert!(d.expected_license_wording.is_none());
}

#[test]
fn deployment_refuses_mistyped_settings() {
    assert!(matches!(
        load_deployment("expected_version = 0.1\n"),
        Err(DeploymentError::NotAString(DeploymentKey::ExpectedVersion))
    ));
    assert!(matches!(
        load_deployment("expected_release_body = 3\nexpected_license_wording = true\n"),
        Err(DeploymentError::NotAString(DeploymentKey::ExpectedLicenseWording))
    ));
}

#[test]
fn deployment_ignores_other_keys() {
    let d = load_deployment("demote = [\"SLOP-A001\"]\n").unwrap();
    assert!(d.expected_version.is_none());
    assert!(d.expected_license_wording.is_none());
    assert!(d.expected_release_body.is_none());
}

#[test]
fn deployment_refuses_non_toml() {
    assert!(matches!(load_deployment("expected_version = "), Err(DeploymentError::Parse(m)) if !m.is_empty()));
    assert!(matches!(deployment_from(&TomlValue::Integer(1)), Err(DeploymentError::RootNotTable)));
}

#[test]
fn profile_and_format_names_read_back() {
    for i in 0..8usize {
        let p = Profile::from_index(i).unwrap();
        assert_eq!(Profile::from_name(p.as_str()), Some(p));
    }
    assert_eq!(Profile::from_name("commit-message"), Some(Profile::CommitMessage));
    assert_eq!(Profile::from_name("commit"), None);
    assert_eq!(Profile::from_name(""), None);
    for f in [InputFormat::Markdown, InputFormat::Text, InputFormat::Commit, InputFormat::Manifest] {
        assert_eq!(InputFormat::from_name(f.as_str()), Some(f));
    }
    assert_eq!(InputFormat::from_name("manifest"), Some(InputFormat::Manifest));
    assert_eq!(InputFormat::from_name("yaml"), None);
}

#[test]
fn deployment_reads_every_setting() {
    let d = load_deployment(
        "waiver_authority = \"orchestrator-agent\"\ndemote = [\"SLOP-A001\", \"SLOP-P002\"]\nscrub_overrides = []\nexempt_comment_markers = [\"slop-ok\"]\n",
    )
    .unwrap();
    assert_eq!(d.waiver_authority, Some(WaiverAuthority::OrchestratorAgent));
    assert_eq!(d.demote, vec!["SLOP-A001".to_string(), "SLOP-P002".to_string()]);
    assert_eq!(d.scrub_overrides, Some(vec![]));
    assert_eq!(d.exempt_comment_markers, vec!["slop-ok".to_string()]);
    let d = load_deployment("waiver_authority = \"human\"\n").unwrap();
    assert_eq!(d.waiver_authority, Some(WaiverAuthority::Human));
    assert!(d.demote.is_empty());
    assert!(d.scrub_overrides.is_none());
    assert!(d.exempt_comment_markers.is_empty());
}

#[test]
fn deployment_refuses_unknown_authority_and_mistyped_lists() {
    match load_deployment("waiver_authority = \"bogus\"\n") {
        Err(DeploymentError::UnknownWaiverAuthority(v)) => assert_eq!(v, "bogus"),
        other => panic!("unexpected {:?}", other),
    }
    assert!(matches!(
        load_deployment("waiver_authority = 1\n"),
        Err(DeploymentError::NotAString(DeploymentKey::WaiverAuthority))
    ));
    assert!(matches!(
        load_deployment("demote = \"SLOP-A001\"\n"),
        Err(DeploymentError::NotAnArray(DeploymentKey::Demote))
    ));
    assert!(matches!(
        load_deployment("scrub_overrides = [\"a\", 2]\n"),
        Err(DeploymentError::EntryNotAString(DeploymentKey::ScrubOverrides))
    ));
    // Settings are read in order: the authority before the lists.
    assert!(matches!(
        load_deployment("exempt_comment_markers = 3\nwaiver_authority = \"x\"\n"),
        Err(DeploymentError::UnknownWaiverAuthority(_))
    ));
    assert!(matches!(
        load_deployment("exempt_comment_markers = 3\nexpected_version = \"1\"\n"),
        Err(DeploymentError::NotAnArray(DeploymentKey::ExemptCommentMarkers))
    ));
}
