use memora::extract::{note_title_stem, render_body_with_offsets, subject_match_start};

#[test]
fn render_body_with_offsets_includes_byte_markers() {
    let rendered = render_body_with_offsets("aa\nbbb\n");
    assert!(rendered.contains("[byte:000000] aa\n"));
    assert!(rendered.contains("[byte:000003] bbb\n"));
}

#[test]
fn subject_validation_accepts_exact_match() {
    let body = "akmon-release-readiness is tracked.";
    let got = subject_match_start("akmon-release-readiness", body, "other", &vec![]).expect("match");
    assert_eq!(got.0, 0);
    assert_eq!(got.1, None);
}

#[test]
fn subject_validation_accepts_case_insensitive_match() {
    let body = "Akmon is the focus today.";
    let got = subject_match_start("akmon", body, "", &vec![]).expect("match");
    assert_eq!(got.1, Some("normalized"));
}

#[test]
fn subject_validation_accepts_kebab_normalization() {
    let body = "Akmon release readiness was discussed by the team.";
    let got = subject_match_start("akmon-release-readiness", body, "", &vec![]).expect("match");
    assert_eq!(got.1, Some("normalized"));
}

#[test]
fn subject_validation_accepts_note_title_match() {
    let body = "The team discussed next steps.";
    let title = "meeting-akmon-release-readiness";
    let got = subject_match_start("akmon-release-readiness", body, title, &vec![]).expect("match");
    assert_eq!(got.1, Some("title"));
}

#[test]
fn subject_validation_accepts_wikilink_target() {
    let body = "See the linked note for decision tracking.";
    let got = subject_match_start("akmon-decision-log", body, "", &vec!["akmon-decision-log".to_string()])
        .expect("match");
    assert_eq!(got.1, Some("wikilink"));
    assert_eq!(got.0, 0);
}

#[test]
fn subject_validation_rejects_truly_fabricated() {
    assert!(subject_match_start("fabricated-thing", "hello world today", "other-note", &vec![]).is_none());
}

#[test]
fn note_title_stem_strips_markdown_extension() {
    assert_eq!(
        note_title_stem("meeting-2026-04-08-akmon-release-readiness.md"),
        "meeting-2026-04-08-akmon-release-readiness"
    );
}

#[test]
fn note_title_stem_of_nested_path_is_file_stem() {
    assert_eq!(note_title_stem("vault/region/notes.txt"), "notes");
}

#[test]
fn render_body_with_offsets_counts_utf8_bytes() {
    let rendered = render_body_with_offsets("é\nb\n");
    assert!(rendered.contains("[byte:000003] b\n"), "{rendered}");
}
