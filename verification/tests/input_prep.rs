use ai_slop::input::{
    line_ranges, parse_manifest, prepare, sha256_hex, split_commit, to_hex_lower, FormatData,
    ManifestDoc, PackageTable, Spanned,
};
use ai_slop::{AnalysisError, Config, InputFormat, InputRejection, Profile, TomlValue};

fn no_manifest(_: &str) -> Result<ManifestDoc, String> {
    Err("not called".to_string())
}

#[test]
fn line_ranges_drop_terminators() {
    let r = line_ranges("a\r\nbc\nd");
    assert_eq!(r, vec![0..1, 3..5, 6..7]);
}

#[test]
fn line_ranges_keep_final_empty_line() {
    assert_eq!(line_ranges(""), vec![0..0]);
    assert_eq!(line_ranges("a\n"), vec![0..1, 2..2]);
    assert_eq!(line_ranges("\r\n"), vec![0..0, 2..2]);
}

#[test]
fn split_commit_finds_trailer_block() {
    let text = "feat: add x\n\nBody text\n\nSigned-off-by: A <a@b>\n";
    let s = split_commit(text);
    assert_eq!(s.subject, 0..11);
    assert_eq!(s.body, 12..24);
    assert_eq!(s.trailers, 24..47);
}

#[test]
fn split_commit_subject_only() {
    let s = split_commit("fix: x");
    assert_eq!(s.subject, 0..6);
    assert_eq!(s.body, 6..6);
    assert_eq!(s.trailers, 6..6);
}

#[test]
fn split_commit_trailers_without_body() {
    let text = "fix: y\nReviewed-by: B\n";
    let s = split_commit(text);
    assert_eq!(s.subject, 0..6);
    assert_eq!(s.body, 7..7);
    assert_eq!(s.trailers, 7..text.len());
}

#[test]
fn split_commit_wants_a_blank_line_before_trailers() {
    let text = "fix: x\n\nbody line\nAcked-by: Bob\n";
    let s = split_commit(text);
    assert_eq!(s.body, 7..32);
    assert_eq!(s.trailers, 32..32);
    let text = "fix: x\n\nAcked-by: Bob\n";
    let s = split_commit(text);
    assert_eq!(s.body, 7..8);
    assert_eq!(s.trailers, 8..text.len());
}

#[test]
fn split_commit_ignores_key_without_space() {
    let text = "fix: y\n\nsee:here\n";
    let s = split_commit(text);
    assert_eq!(s.body, 7..text.len());
    assert_eq!(s.trailers, text.len()..text.len());
}

#[test]
fn sha256_hex_of_abc() {
    assert_eq!(
        sha256_hex(b"abc"),
        "ba7816bf8f01cfea414140de5dae2223b00361a396177a9cb410ff61f20015ad"
    );
}

#[test]
fn hex_is_lower_case_two_digits_per_byte() {
    assert_eq!(to_hex_lower(&[0x00, 0xff, 0x1a]), "00ff1a");
    assert_eq!(to_hex_lower(&[]), "");
}

#[test]
fn prepare_refuses_oversized_input() {
    let mut config = Config::with_format(Profile::Readme, InputFormat::Markdown);
    config.limits.max_bytes = 4;
    match prepare(b"hello", &config, no_manifest) {
        Err(AnalysisError::UnsupportedInput(InputRejection::TooLarge { len, limit })) => {
            assert_eq!(len, 5);
            assert_eq!(limit, 4);
        }
        other => panic!("unexpected {:?}", other),
    }
}

#[test]
fn prepare_accepts_input_at_the_limit() {
    let mut config = Config::with_format(Profile::Readme, InputFormat::Text);
    config.limits.max_bytes = 5;
    assert!(prepare(b"hello", &config, no_manifest).is_ok());
}

#[test]
fn prepare_refuses_invalid_utf8() {
    let config = Config::with_format(Profile::Readme, InputFormat::Markdown);
    match prepare(&[0x61, 0x62, 0xff, 0x63], &config, no_manifest) {
        Err(AnalysisError::UnsupportedInput(InputRejection::InvalidUtf8 { valid_up_to })) => {
            assert_eq!(valid_up_to, 2)
        }
        other => panic!("unexpected {:?}", other),
    }
}

#[test]
fn prepare_strips_bom_and_hashes_original_bytes() {
    let config = Config::with_format(Profile::Readme, InputFormat::Markdown);
    let input = b"\xEF\xBB\xBFabc";
    let p = prepare(input, &config, no_manifest).unwrap();
    assert!(p.bom_stripped);
    assert_eq!(p.text, "abc");
    assert_eq!(p.original_len, 6);
    assert_eq!(p.sha256, sha256_hex(input));
    assert!(!p.mixed_line_endings);
    assert!(matches!(p.format, FormatData::Markdown));
}

#[test]
fn prepare_notes_mixed_line_endings() {
    let config = Config::with_format(Profile::Readme, InputFormat::Text);
    let mixed = prepare(b"a\r\nb\nc", &config, no_manifest).unwrap();
    assert!(mixed.mixed_line_endings);
    let crlf = prepare(b"a\r\nb\r\n", &config, no_manifest).unwrap();
    assert!(!crlf.mixed_line_endings);
    let lf = prepare(b"a\nb\n", &config, no_manifest).unwrap();
    assert!(!lf.mixed_line_endings);
}

#[test]
fn prepare_splits_commit_messages() {
    let config = Config::with_format(Profile::CommitMessage, InputFormat::Commit);
    let p = prepare(b"fix: y\nReviewed-by: B\n", &config, no_manifest).unwrap();
    match p.format {
        FormatData::Commit(s) => {
            assert_eq!(s.subject, 0..6);
            assert_eq!(s.trailers, 7..22);
        }
        other => panic!("unexpected {:?}", other),
    }
}

fn manifest_with_description(text: &str) -> Result<ManifestDoc, String> {
    let start = text.find("\"A linter").unwrap();
    let end = start + "\"A linter\"".len();
    let kw = text.find('[').unwrap();
    let kw_end = text.find(']').unwrap() + 1;
    Ok(ManifestDoc {
        package: Some(PackageTable {
            name: Some("slopcheck".to_string()),
            version: Some(TomlValue::String("1.2.3".to_string())),
            description: Some(Spanned { value: "A linter".to_string(), start, end }),
            keywords: Some(Spanned {
                value: vec!["lint".to_string(), "prose".to_string()],
                start: kw,
                end: kw_end,
            }),
            categories: None,
        }),
    })
}

#[test]
fn prepare_reads_manifest_fields() {
    let config = Config::with_format(Profile::CargoMetadata, InputFormat::Manifest);
    let text = "[package]\nname = \"slopcheck\"\ndescription = \"A linter\"\nkeywords = [\"lint\", \"prose\"]\n";
    let p = prepare(text.as_bytes(), &config, manifest_with_description).unwrap();
    match p.format {
        FormatData::Manifest(info) => {
            assert_eq!(info.name.as_deref(), Some("slopcheck"));
            assert_eq!(info.version.as_deref(), Some("1.2.3"));
            assert_eq!(info.description.as_deref(), Some("A linter"));
            let span = info.description_span.unwrap();
            assert_eq!(&text[span.clone()], "\"A linter\"");
            let inner = info.description_inner.unwrap();
            assert_eq!(&text[inner], "A linter");
            assert_eq!(info.keywords.unwrap().0, 2);
            assert!(info.categories.is_none());
        }
        other => panic!("unexpected {:?}", other),
    }
}

#[test]
fn manifest_without_package_is_refused() {
    let r = parse_manifest("[workspace]\n", Ok(ManifestDoc { package: None }));
    assert!(matches!(
        r,
        Err(AnalysisError::UnsupportedInput(InputRejection::NoPackageTable))
    ));
}

#[test]
fn manifest_parse_error_is_refused() {
    let r = parse_manifest("[package", Err("expected ]".to_string()));
    match r {
        Err(AnalysisError::UnsupportedInput(InputRejection::ManifestParse(m))) => {
            assert_eq!(m, "expected ]")
        }
        other => panic!("unexpected {:?}", other),
    }
}

#[test]
fn manifest_inner_span_needs_literal_bytes() {
    let text = "[package]\ndescription = \"A\\u0020linter\"\n";
    let start = text.find('"').unwrap();
    let end = text.len() - 1;
    let doc = ManifestDoc {
        package: Some(PackageTable {
            name: None,
            version: None,
            description: Some(Spanned { value: "A linter".to_string(), start, end }),
            keywords: None,
            categories: None,
        }),
    };
    let info = parse_manifest(text, Ok(doc)).unwrap();
    assert_eq!(info.description_span, Some(start..end));
    assert_eq!(info.description_inner, None);
}
