use memora::cli::{
    choose_fix_mode, fix_mode_from_answer, fix_prompt, index_report, resolve_watch_fix_mode, should_extract_claims, status_bool,
    tally_rebuild, FixModeChoice, FrontmatterFixMode, IndexArgs, RebuildOutcome, RebuildStats, WatchArgs,
};

fn index_args(auto: bool, no_auto: bool) -> IndexArgs {
    IndexArgs { vault: "vault".into(), auto_fix_frontmatter: auto, no_auto_fix_frontmatter: no_auto, no_contradict: false }
}

#[test]
fn index_fix_mode_follows_flags_then_asks() {
    assert_eq!(choose_fix_mode(&index_args(false, true), 5), FixModeChoice::Decided(FrontmatterFixMode::Strict));
    assert_eq!(choose_fix_mode(&index_args(true, false), 5), FixModeChoice::Decided(FrontmatterFixMode::RewriteMissing));
    assert_eq!(choose_fix_mode(&index_args(false, false), 0), FixModeChoice::Decided(FrontmatterFixMode::RewriteMissing));
    assert_eq!(choose_fix_mode(&index_args(false, false), 3), FixModeChoice::Ask);
}

#[test]
fn user_answer_decides_rewrite() {
    assert_eq!(fix_mode_from_answer(" Yes \n"), Ok(FrontmatterFixMode::RewriteMissing));
    assert_eq!(fix_mode_from_answer("y"), Ok(FrontmatterFixMode::RewriteMissing));
    assert_eq!(
        fix_mode_from_answer("nope"),
        Err("Re-run with --auto-fix-frontmatter or add frontmatter manually.".to_string())
    );
    assert!(fix_prompt(12, 3).starts_with("Found 12 notes. 3 need frontmatter added.\n"));
}

#[test]
fn watch_rewrites_unless_told_not_to() {
    let w = WatchArgs { vault: "v".into(), auto_fix_frontmatter: false, no_auto_fix_frontmatter: true };
    assert_eq!(resolve_watch_fix_mode(&w), FrontmatterFixMode::Strict);
    let w = WatchArgs { vault: "v".into(), auto_fix_frontmatter: false, no_auto_fix_frontmatter: false };
    assert_eq!(resolve_watch_fix_mode(&w), FrontmatterFixMode::RewriteMissing);
    assert_eq!(FrontmatterFixMode::default(), FrontmatterFixMode::Strict);
}

#[test]
fn rebuild_outcomes_are_tallied() {
    let (stats, seen) = tally_rebuild(&vec![
        RebuildOutcome::UpsertOk("a".into()),
        RebuildOutcome::ParseFail,
        RebuildOutcome::UpsertFail("b".into()),
        RebuildOutcome::AlignFail,
    ]);
    assert_eq!(stats, RebuildStats { inserted: 1, skipped: 2, errors: 3 });
    assert_eq!(seen, vec!["a".to_string(), "b".to_string()]);
}

#[test]
fn index_report_mentions_failures_and_tip() {
    let (line, notes) = index_report(RebuildStats { inserted: 60, skipped: 0, errors: 2 }, false);
    assert_eq!(line, "Indexed: inserted=60, skipped=0, errors=2");
    assert_eq!(notes.len(), 2);
    assert_eq!(notes[0], "\n2 notes failed. Re-run with RUST_LOG=warn for details.");
    assert!(notes[1].starts_with("\nTip: For large vaults"));
    let (_, quiet) = index_report(RebuildStats { inserted: 60, skipped: 0, errors: 0 }, true);
    assert!(quiet.is_empty());
}

#[test]
fn small_decisions() {
    assert_eq!(status_bool(true), "ok");
    assert_eq!(status_bool(false), "missing");
    assert!(should_extract_claims(false, false));
    assert!(!should_extract_claims(false, true));
    assert!(should_extract_claims(true, true));
}
