use memora::challenger::{detect_contradictions, detect_open_questions, detect_recent_decisions, detect_stale_dependencies};
use memora::claims::Claim;
use memora::privacy::Privacy;
use std::collections::BTreeSet;

/// 2026-04-01T00:00:00Z.
const TS: i128 = 1_775_001_600_000_000_000;

fn claim(id: &str, note_id: &str, subject: &str, predicate: &str, object: Option<&str>) -> Claim {
    Claim {
        id: id.to_string(),
        subject: subject.to_string(),
        predicate: predicate.to_string(),
        object: object.map(ToString::to_string),
        note_id: note_id.to_string(),
        span_start: 0,
        span_end: 10,
        span_fingerprint: "fp".to_string(),
        valid_from: TS,
        valid_until: None,
        confidence_millionths: 900_000,
        privacy: Privacy::Private,
        extracted_by: "test".to_string(),
        extracted_at: TS,
    }
}

#[test]
fn test_detects_simple_decision() {
    let claims = vec![
        claim("c1", "akmon-01", "akmon", "uses_api_client_generator", Some("stainless-templates")),
        claim("c2", "akmon-02", "akmon", "will_switch_default_to", Some("stainless-templates")),
    ];
    let decisions = detect_recent_decisions(&claims);
    assert_eq!(decisions.len(), 1);
    assert_eq!(decisions[0].subject, "akmon");
    assert_eq!(decisions[0].object, "stainless-templates");
    assert_eq!(decisions[0].source_note_ids.len(), 2);
}

#[test]
fn test_detects_predicate_family_contradiction() {
    let claims = vec![
        claim("c1", "csv-01", "csv-tool", "uses_language", Some("rust")),
        claim("c2", "ep-01", "csv-tool", "implemented_in", Some("python")),
    ];
    let contradictions = detect_contradictions(&claims);
    assert_eq!(contradictions.len(), 1);
    assert_eq!(contradictions[0].family, "language");
}

#[test]
fn test_detects_cross_region_contradiction_appears_in_both() {
    let claims = vec![
        claim("c1", "csv-01", "csv-tool", "uses_language", Some("rust")),
        claim("c2", "ep-01", "csv-tool", "uses_language", Some("python")),
    ];
    let contradictions = detect_contradictions(&claims);
    assert_eq!(contradictions.len(), 1);
    assert_eq!(contradictions[0].left_source_note_ids.len(), 1);
    assert_eq!(contradictions[0].right_source_note_ids.len(), 1);
}

#[test]
fn test_stale_dependency_chain_detection() {
    let claims = vec![
        claim("c1", "m-01", "retrieval-eval-notes", "superseded_by", Some("retrieval-eval-notes-v2")),
        claim("c2", "m-02", "staleness-case-a-synthesis", "depends_on", Some("retrieval-eval-notes")),
    ];
    let stale = detect_stale_dependencies(&claims);
    assert_eq!(stale.len(), 1);
    assert_eq!(stale[0].dependent_subject, "staleness-case-a-synthesis");
}

#[test]
fn test_open_question_grouping() {
    let claims = vec![
        claim("c1", "m-01", "memora", "decision_pending", Some("precision-vs-recall")),
        claim("c2", "m-02", "memora", "decision_pending_followup", Some("precision-vs-recall")),
    ];
    let questions = detect_open_questions(&claims);
    assert_eq!(questions.len(), 1);
    assert_eq!(questions[0].source_note_ids.len(), 2);
}

#[test]
fn test_object_normalization_merges_stainless_variants() {
    let claims = vec![
        claim("c1", "n1", "akmon", "switched_to_api_client_generator", Some("stainless")),
        claim("c2", "n2", "akmon", "will_switch_default_to", Some("stainless-templates")),
    ];
    let decisions = detect_recent_decisions(&claims);
    assert_eq!(decisions.len(), 1);
    assert_eq!(decisions[0].source_note_ids.len(), 2);
}

#[test]
fn test_predicate_exclusivity_suppresses_appears_in_contradiction() {
    let claims = vec![
        claim("c1", "n1", "akmon", "appears_in", Some("concept-reference-notes")),
        claim("c2", "n2", "akmon", "appears_in", Some("episodic-daily-logs")),
    ];
    assert!(detect_contradictions(&claims).is_empty());
}

#[test]
fn test_cross_region_scoping_open_questions_subject_aggregation() {
    let claims = vec![
        claim("c1", "memora-04", "memora", "decision_pending", Some("precision-vs-recall-tradeoff")),
        claim("c2", "ep-daily-2026-04-10", "memora", "design_question", Some("precision-vs-recall-tradeoff")),
    ];
    let findings = detect_open_questions(&claims);
    assert_eq!(findings.len(), 2);
    let total_sources = findings.iter().flat_map(|f| f.source_note_ids.iter()).collect::<BTreeSet<_>>().len();
    assert_eq!(total_sources, 2);
}

#[test]
fn test_empty_input_returns_none() {
    assert!(detect_recent_decisions(&vec![]).is_empty());
    assert!(detect_contradictions(&vec![]).is_empty());
    assert!(detect_stale_dependencies(&vec![]).is_empty());
    assert!(detect_open_questions(&vec![]).is_empty());
}

#[test]
fn test_findings_sorted_by_source_count() {
    let claims = vec![
        claim("c1", "n1", "akmon", "will_switch_to", Some("stainless")),
        claim("c2", "n2", "akmon", "may_switch_to", Some("stainless")),
        claim("c3", "n3", "csv-tool", "will_switch_to", Some("rust")),
    ];
    let decisions = detect_recent_decisions(&claims);
    assert_eq!(decisions[0].subject, "akmon");
    assert!(decisions[0].source_note_ids.len() > decisions[1].source_note_ids.len());
}

#[test]
fn test_decision_threshold_suppresses_weak_single_claim() {
    let weak_only = vec![claim("c0", "n0", "akmon", "uses_client_generator", Some("stainless-templates"))];
    assert!(detect_recent_decisions(&weak_only).is_empty());
    let claims = vec![
        claim("c1", "n1", "akmon", "uses_client_generator", Some("stainless-templates")),
        claim("c2", "n2", "akmon", "switched_to_api_client_generator", Some("stainless-templates")),
    ];
    let decisions = detect_recent_decisions(&claims);
    assert_eq!(decisions.len(), 1);
    assert_eq!(decisions[0].supporting_claim_ids.len(), 2);
}

#[test]
fn contradictions_are_ranked_by_total_sources() {
    let claims = vec![
        claim("c1", "n1", "alpha", "uses_language", Some("rust")),
        claim("c2", "n2", "alpha", "uses_language", Some("go")),
        claim("c3", "n3", "beta", "uses_language", Some("rust")),
        claim("c4", "n4", "beta", "uses_language", Some("go")),
        claim("c5", "n5", "beta", "uses_language", Some("go")),
    ];
    let found = detect_contradictions(&claims);
    assert!(found.len() >= 2);
    for w in found.windows(2) {
        let a = w[0].left_source_note_ids.len() + w[0].right_source_note_ids.len();
        let b = w[1].left_source_note_ids.len() + w[1].right_source_note_ids.len();
        assert!(a >= b);
    }
    assert_eq!(found[0].subject, "beta");
}
