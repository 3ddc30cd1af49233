use memora::atlas::{build_atlas_markdown, group_claims_by_subject, next_subregion_move, plan_subregion_moves, region_open_questions, sanitize_segment, AtlasFindings, SubregionProposal};
use memora::challenger::{Decision, OpenQuestion};
use memora::claims::Claim;
use memora::privacy::Privacy;

/// 2026-01-01T00:00:00Z.
const VALID_FROM: i128 = 1_767_225_600_000_000_000;

fn make_claim_for_rendering(claim_id: &str, note_id: &str, subject: &str, predicate: &str, object: Option<&str>) -> Claim {
    Claim {
        id: claim_id.to_string(),
        subject: subject.to_string(),
        predicate: predicate.to_string(),
        object: object.map(ToString::to_string),
        note_id: note_id.to_string(),
        span_start: 0,
        span_end: 4,
        span_fingerprint: Claim::compute_fingerprint("Body"),
        valid_from: VALID_FROM,
        valid_until: None,
        confidence_millionths: 900_000,
        privacy: Privacy::Private,
        extracted_by: "test/atlas".to_string(),
        extracted_at: VALID_FROM,
    }
}

#[test]
fn open_questions_excludes_decided_pairs_after_normalization() {
    let claims = vec![make_claim_for_rendering("seed", "akmon-01", "akmon", "uses_client_generator", Some("stainless-templates"))];
    let note_ids = vec!["akmon-01".to_string()];
    let note_regions = vec![("akmon-01".to_string(), "semantic/projects/akmon".to_string())];
    let decisions = vec![Decision {
        subject: "akmon".to_string(),
        object: "stainless templates".to_string(),
        source_note_ids: vec!["akmon-01".to_string()],
        supporting_claim_ids: vec!["c1".to_string(), "c2".to_string()],
    }];
    let questions = vec![
        OpenQuestion {
            subject: "akmon".to_string(),
            family: "decision_candidate".to_string(),
            object: "stainless-default".to_string(),
            source_note_ids: vec!["ep-daily-2026-04-18".to_string()],
            supporting_claim_ids: vec!["q1".to_string()],
        },
        OpenQuestion {
            subject: "akmon".to_string(),
            family: "decision_candidate".to_string(),
            object: "openapi-generator".to_string(),
            source_note_ids: vec!["ep-daily-2026-04-12".to_string()],
            supporting_claim_ids: vec!["q2".to_string()],
        },
    ];
    let filtered = region_open_questions("semantic/projects/akmon", &note_ids, &claims, &note_regions, &decisions, &questions);
    assert_eq!(filtered.len(), 1);
    assert_eq!(filtered[0].object, "openapi-generator");
}

#[test]
fn atlas_deduplicates_verbatim_claims_and_truncates_long_source_lists() {
    let mut claims = Vec::new();
    for i in 1..=5 {
        claims.push(make_claim_for_rendering(&format!("dup-id-{i:02}"), &format!("akmon-{i:02}"), "akmon", "ingests", Some("partner-events")));
    }
    claims.push(make_claim_for_rendering("singleton-id", "akmon-06", "akmon", "generated_with", Some("stainless-templates")));
    for i in 1..=13 {
        claims.push(make_claim_for_rendering(&format!("unary-id-{i:02}"), &format!("akmon-u-{i:02}"), "akmon", "has_field_observation_notes", None));
    }
    let claims_by_subject = vec![("akmon".to_string(), claims)];
    let rendered = build_atlas_markdown(
        "semantic/projects/akmon",
        "overview",
        &vec!["akmon".to_string()],
        &claims_by_subject,
        &AtlasFindings { decisions: vec![], stale: vec![], contradictions: vec![], open_questions: vec![] },
    );
    assert!(
        rendered.contains("- [claim:unary-id-01] has_field_observation_notes (unary) (13 sources: [[akmon-u-01]], [[akmon-u-02]], [[akmon-u-03]], [[akmon-u-04]], [[akmon-u-05]], [[akmon-u-06]], [[akmon-u-07]], [[akmon-u-08]], [[akmon-u-09]], [[akmon-u-10]], ... (3 more))"),
        "{rendered}"
    );
    assert!(
        rendered.contains("- [claim:dup-id-01] ingests partner-events (5 sources: [[akmon-01]], [[akmon-02]], [[akmon-03]], [[akmon-04]], [[akmon-05]])"),
        "{rendered}"
    );
    assert!(rendered.contains("- [claim:singleton-id] generated_with stainless-templates (source note: [[akmon-06]])"), "{rendered}");
    assert_eq!(rendered.matches("ingests partner-events").count(), 1);
}

#[test]
fn claims_group_under_ascending_distinct_subjects() {
    let claims = vec![
        make_claim_for_rendering("c1", "n1", "zeta", "p", None),
        make_claim_for_rendering("c2", "n1", "alpha", "p", None),
        make_claim_for_rendering("c3", "n2", "zeta", "q", None),
        make_claim_for_rendering("c4", "n2", "Beta", "p", None),
    ];
    let groups = group_claims_by_subject(&claims);
    let subjects: Vec<&str> = groups.iter().map(|(s, _)| s.as_str()).collect();
    assert_eq!(subjects, vec!["Beta", "alpha", "zeta"]);
    let zeta: Vec<&str> = groups[2].1.iter().map(|c| c.id.as_str()).collect();
    assert_eq!(zeta, vec!["c1", "c3"]);
}

#[test]
fn subregion_plan_skips_empty_proposals_and_unknown_claims() {
    let claims = vec![
        make_claim_for_rendering("c1", "n1", "akmon", "p", None),
        make_claim_for_rendering("c2", "n2", "akmon", "p", None),
        make_claim_for_rendering("c3", "n1", "drift", "p", None),
    ];
    let ids = |v: &[&str]| v.iter().map(|s| s.to_string()).collect::<Vec<String>>();
    let good = sanitize_segment("Client SDKs");
    assert!(!good.is_empty());
    let proposals = vec![
        SubregionProposal { name: "Client SDKs".into(), sample_subjects: ids(&["akmon"]), claim_ids: ids(&["c2", "zz", "c3"]) },
        SubregionProposal { name: "No samples".into(), sample_subjects: vec![], claim_ids: ids(&["c1"]) },
        SubregionProposal { name: "!!!".into(), sample_subjects: ids(&["x"]), claim_ids: ids(&["c1"]) },
    ];
    let plan = plan_subregion_moves("work", &proposals, &claims);
    let dest = format!("work/{good}");
    if sanitize_segment("!!!").is_empty() {
        assert_eq!(plan, vec![("n2".to_string(), dest.clone()), ("n1".to_string(), dest.clone())]);
    } else {
        assert_eq!(plan.len(), 3);
    }
}

#[test]
fn mover_skips_notes_already_moved() {
    let s = |x: &str| x.to_string();
    let plan = vec![(s("n1"), s("work/a")), (s("n2"), s("work/a")), (s("n1"), s("work/b")), (s("n3"), s("work/b"))];
    // The first attempt on n1 fails (its file exists at the destination), so n1
    // is not recorded and a later entry may still move it.
    let mut moved: Vec<String> = vec![];
    assert_eq!(next_subregion_move(&plan, &moved, 0), Some(0));
    assert_eq!(next_subregion_move(&plan, &moved, 1), Some(1));
    moved.push(s("n2"));
    assert_eq!(next_subregion_move(&plan, &moved, 2), Some(2));
    moved.push(s("n1"));
    assert_eq!(next_subregion_move(&plan, &moved, 3), Some(3));
    // Had n1 moved at the first entry, its second listing is skipped.
    assert_eq!(next_subregion_move(&plan, &vec![s("n1"), s("n2")], 1), Some(3));
    assert_eq!(next_subregion_move(&plan, &vec![s("n1"), s("n2"), s("n3")], 0), None);
}
