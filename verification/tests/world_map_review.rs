use memora::challenge_report::{
    render_review_section, replace_review_section, review_section_for, world_map_with_review, ChallengerReport, ContradictionAlert,
    CrossRegionAlert, FrontierAlert, StaleAlert,
};
use memora::world_map::{
    early_stages, generic_description, one_line_reply, overview_needs_model, overview_request, region_needs_description,
    region_request, total_claims, world_map_markdown, RegionEntry, RegionStats,
};

fn empty_report(at: i64) -> ChallengerReport {
    ChallengerReport {
        generated_at: at,
        stale_alerts: vec![],
        contradiction_alerts: vec![],
        cross_region_alerts: vec![],
        frontier_alerts: vec![],
    }
}

#[test]
fn empty_review_lists_none_everywhere() {
    let s = render_review_section(&empty_report(0), "2026-04-01", "2026-04-01T00:00:00+00:00");
    assert_eq!(
        s,
        "## Today's review (auto-2026-04-01)\n_generated at 2026-04-01T00:00:00+00:00_\n\n### Stale claims\n- none\n\n### Contradictions\n- none\n\n### Cross-region patterns\n- none\n\n### Frontier gaps\n- none\n\n"
    );
}

#[test]
fn review_lines_name_each_alert() {
    let mut r = empty_report(0);
    r.stale_alerts.push(StaleAlert {
        claim_id: "c1".into(),
        source_note_id: "n1".into(),
        description: "source changed".into(),
        proposal_action: "keep".into(),
        proposal_subject: None,
        proposal_predicate: None,
        proposal_object: None,
        generated_at: 0,
    });
    r.contradiction_alerts.push(ContradictionAlert {
        left_claim_id: "a".into(),
        right_claim_id: "b".into(),
        left_source_note_id: "na".into(),
        right_source_note_id: "nb".into(),
        description: "disagree".into(),
        generated_at: 0,
    });
    r.cross_region_alerts.push(CrossRegionAlert {
        subject: "akmon".into(),
        regions: vec!["work".into(), "home".into()],
        source_note_ids: vec![],
        description: "spread".into(),
        suggested_home_note_id: "n".into(),
        generated_at: 0,
    });
    r.frontier_alerts.push(FrontierAlert {
        claim_id: "f".into(),
        source_note_id: "nf".into(),
        description: "weak".into(),
        confidence_millionths: 400_000,
        predicate_occurrences: 1,
        clarifying_question: "Why?".into(),
        generated_at: 0,
    });
    let s = render_review_section(&r, "d", "t");
    assert!(s.contains("- [c1] source changed (n1)\n"));
    assert!(s.contains("- [a vs b] disagree\n"));
    assert!(s.contains("- [akmon] spread (regions: work, home)\n"));
    assert!(s.contains("- [f] weak Question: Why?\n"));
}

#[test]
fn review_section_uses_chrono_dates() {
    let s = review_section_for(&empty_report(1_775_001_600)).expect("in range");
    assert!(s.starts_with("## Today's review (auto-2026-04-01)\n_generated at 2026-04-01T00:00:00+00:00_\n"), "{s}");
}

#[test]
fn replacing_a_review_keeps_the_rest_of_the_map() {
    let content = "# World Map\n\n## Regions\n- a\n## Today's review (auto-2026-01-01)\nold line\n## Later\nkeep\n";
    let out = replace_review_section(content, "## Today's review (auto-2026-04-01)\nnew line\n");
    assert_eq!(out, "# World Map\n\n## Regions\n- a\n## Today's review (auto-2026-04-01)\nnew line\n## Later\nkeep\n");
}

#[test]
fn review_is_appended_after_a_gap_when_absent() {
    assert_eq!(replace_review_section("# Map", "R\n"), "# Map\n\nR\n");
    assert_eq!(replace_review_section("# Map\n", "R\n"), "# Map\n\nR\n");
    assert_eq!(replace_review_section("# Map\n\n", "R\n"), "# Map\n\nR\n");
    assert_eq!(world_map_with_review(None, "R\n"), "# World Map\n\nR\n");
    assert_eq!(world_map_with_review(Some("# Mine"), "R\n"), "# Mine\n\nR\n");
}

#[test]
fn region_descriptions_need_enough_claims() {
    let small = RegionStats { notes_count: 1, claim_count: 2, decision_count: 0, stale_count: 0 };
    let big = RegionStats { notes_count: 1, claim_count: 3, decision_count: 0, stale_count: 0 };
    assert!(!region_needs_description(&small, "work"));
    assert!(region_needs_description(&big, "work"));
    assert!(!region_needs_description(&big, "default"));
    assert_eq!(generic_description(), "General notes (uncategorized)");
    assert!(!overview_needs_model(9));
    assert!(overview_needs_model(10));
    assert_eq!(early_stages(), "Vault is in early stages. Add more notes for synthesis to be meaningful.");
    assert_eq!(total_claims(&vec![small, big]), 5);
}

#[test]
fn world_map_lists_regions_and_review() {
    let entries = vec![RegionEntry {
        region: "work".into(),
        description: "Work notes".into(),
        stats: RegionStats { notes_count: 2, claim_count: 5, decision_count: 1, stale_count: 0 },
    }];
    let md = world_map_markdown("Overview.", &entries, "2026-04-01", &vec!["item one".to_string()]);
    assert_eq!(
        md,
        "# World Map\n\n_Overview._\n\n## Regions\n- **work** \u{2014} Work notes (2 notes, 5 claims, 1 decisions, 0 stale)\n\n## Today's review (auto-2026-04-01)\n- item one\n"
    );
    assert!(world_map_markdown("o", &vec![], "d", &vec![]).ends_with("- none\n"));
    assert_eq!(
        overview_request(&entries),
        "- work: Work notes (notes=2, claims=5, decisions=1, stale=0)"
    );
    assert_eq!(region_request("work", &vec!["a".into(), "b".into()]), "Region: work\nSample subjects: a, b");
    assert_eq!(one_line_reply("  line one\nline two \n"), "line one line two");
}
