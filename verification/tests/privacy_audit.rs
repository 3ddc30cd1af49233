use memora::privacy_audit::{has_explicit_privacy_frontmatter, run, suspect_keyword, SuspectNote};

#[test]
fn audit_flags_salary_without_privacy_frontmatter() {
    let source = "---\nid: finance-1\nregion: personal/finance\ncreated: 2026-04-01T00:00:00Z\nupdated: 2026-04-01T00:00:00Z\nsummary: \"Comp details\"\n---\nsalary 95000\n";
    assert!(!has_explicit_privacy_frontmatter(source));
    let found = suspect_keyword(source).expect("pattern compiles");
    assert_eq!(found.as_deref().map(str::to_lowercase), Some("salary".to_string()));
}

#[test]
fn explicit_privacy_frontmatter_clears_a_note() {
    let source = "---\nid: a\n  privacy: secret\n---\nmy password is hunter2\n";
    assert!(has_explicit_privacy_frontmatter(source));
    assert_eq!(suspect_keyword(source), Ok(None));
}

#[test]
fn privacy_key_after_frontmatter_does_not_count() {
    assert!(!has_explicit_privacy_frontmatter("---\nid: a\n---\nprivacy: secret\n"));
    assert!(!has_explicit_privacy_frontmatter("no frontmatter\nprivacy: secret\n"));
    assert!(!has_explicit_privacy_frontmatter(""));
}

#[test]
fn keywords_match_case_insensitively_and_as_whole_words() {
    assert_eq!(suspect_keyword("Check the IBAN today").unwrap().as_deref(), Some("IBAN"));
    assert_eq!(suspect_keyword("accountant meeting").unwrap(), None);
    assert_eq!(suspect_keyword("plain note").unwrap(), None);
}

#[test]
fn audit_report_lists_each_suspect() {
    assert_eq!(run(&vec![]), vec!["No suspect notes found.".to_string()]);
    let lines = run(&vec![SuspectNote { path: "finance.md".into(), matched_keyword: "salary".into() }]);
    assert_eq!(
        lines,
        vec![
            "Potentially sensitive notes without explicit privacy frontmatter:".to_string(),
            "- finance.md (matched: salary)".to_string(),
            "Review these notes and add explicit `privacy:` frontmatter where needed.".to_string(),
        ]
    );
}
