use memora::answer::{build_extractive_answer, first_answer_stands, after_retry_answer, no_claims_answer, RedactedClaim, RetryOutcome};
use memora::cite::CitationStatus;
use memora::claims::Claim;
use memora::entailment::{entailment_gate, entailment_prompt, verdict_from_reply, Entailment};
use memora::privacy::Privacy;
use memora::validator::{validate_with_evidence, ClaimEvidence};

#[test]
fn entailed_and_unsupported_map_from_model_json() {
    assert_eq!(verdict_from_reply("{\"entailed\":true}"), Entailment::Entailed);
    assert_eq!(verdict_from_reply("  {\"entailed\": false} "), Entailment::Unsupported);
    // An unreadable reply does not undo a proven citation.
    assert_eq!(verdict_from_reply("not json"), Entailment::Entailed);
    assert_eq!(Entailment::Unchecked.as_str(), "unchecked");
}

#[test]
fn empty_hypothesis_and_secret_cloud_checks_are_unchecked() {
    assert_eq!(entailment_gate("source", "   ", Privacy::Public, true), Some(Entailment::Unchecked));
    assert_eq!(entailment_gate("source", "claim", Privacy::Secret, false), Some(Entailment::Unchecked));
    assert_eq!(entailment_gate("source", "claim", Privacy::Secret, true), None);
    assert!(entailment_prompt(" src ", " hyp ").starts_with("SOURCE:\nsrc\n\nASSERTION:\nhyp\n\n"));
}

#[test]
fn validator_verifies_known_claim_and_flags_problems() {
    let span = "Rado works at HMC";
    let evidence = vec![
        ClaimEvidence { claim_id: "0000000000000a01".into(), span_fingerprint: Claim::compute_fingerprint(span), span_text: Some(span.into()), valid_until: None },
        ClaimEvidence { claim_id: "0000000000000a02".into(), span_fingerprint: "0".repeat(64), span_text: Some(span.into()), valid_until: None },
    ];
    let text = "It says \"works at HMC\" [claim:0000000000000a01]. Also \"works at Google\" [claim:0000000000000a01]. Then [claim:0000000000000a02]. And [claim:0000000000dead01].";
    let a = validate_with_evidence(text, &evidence, 1_000);
    let statuses: Vec<CitationStatus> = a.checks.iter().map(|c| c.status).collect();
    assert_eq!(
        statuses,
        vec![CitationStatus::Verified, CitationStatus::QuoteMismatch, CitationStatus::FingerprintMismatch, CitationStatus::Unverified]
    );
    assert_eq!(a.verified_count, 1);
    assert_eq!(a.unverified_count, 1);
    assert_eq!(a.mismatch_count, 2);
    assert!(a.clean_text.contains("works at HMC"));
    assert!(!a.clean_text.contains("dead01"));
    assert_eq!(a.superseded_count, 0);
}

#[test]
fn retracted_claims_are_superseded_and_legacy_fingerprints_verify() {
    let span = "Auth uses short-lived JWTs";
    let legacy: String = Claim::compute_fingerprint(span).chars().take(16).collect();
    let evidence = vec![
        ClaimEvidence { claim_id: "0000000000000a04".into(), span_fingerprint: Claim::compute_fingerprint(span), span_text: Some(span.into()), valid_until: Some(500) },
        ClaimEvidence { claim_id: "0000000000000a05".into(), span_fingerprint: legacy, span_text: Some(span.into()), valid_until: None },
        ClaimEvidence { claim_id: "0000000000000a06".into(), span_fingerprint: Claim::compute_fingerprint(span), span_text: Some(span.into()), valid_until: Some(2_000) },
        ClaimEvidence { claim_id: "0000000000000a07".into(), span_fingerprint: "0".repeat(64), span_text: Some(span.into()), valid_until: Some(500) },
    ];
    let text = "Auth \"uses short-lived JWTs\" [claim:0000000000000a04]. Legacy [claim:0000000000000a05]. Still valid [claim:0000000000000a06]. Edited [claim:0000000000000a07].";
    let a = validate_with_evidence(text, &evidence, 1_000);
    let statuses: Vec<CitationStatus> = a.checks.iter().map(|c| c.status).collect();
    assert_eq!(
        statuses,
        vec![CitationStatus::Superseded, CitationStatus::Verified, CitationStatus::Verified, CitationStatus::FingerprintMismatch]
    );
    assert_eq!(a.verified_count, 2);
    assert_eq!(a.superseded_count, 1);
    assert_eq!(a.mismatch_count, 1);
    assert!(!a.clean_text.contains("a04"));
    assert!(a.clean_text.contains("Legacy [claim:0000000000000a05]."));
    // At the very end of its validity the claim is already superseded.
    assert_eq!(validate_with_evidence("[claim:0000000000000a06]", &evidence, 2_000).checks[0].status, CitationStatus::Superseded);
}

#[test]
fn non_ascii_answers_are_validated_by_characters() {
    let span = "Zoë chose café au lait";
    let evidence = vec![ClaimEvidence {
        claim_id: "0000000000000b01".into(),
        span_fingerprint: Claim::compute_fingerprint(span),
        span_text: Some(span.into()),
        valid_until: None,
    }];
    let text = "Zoë \"chose café au lait\" [claim:0000000000000b01]. Naïve [claim:0000000000000b02]. Fin é.";
    let a = validate_with_evidence(text, &evidence, 0);
    let statuses: Vec<CitationStatus> = a.checks.iter().map(|c| c.status).collect();
    assert_eq!(statuses, vec![CitationStatus::Verified, CitationStatus::Unverified]);
    assert_eq!(a.clean_text, "Zoë \"chose café au lait\" [claim:0000000000000b01]. Fin é.");
}

#[test]
fn extractive_answer_and_retry_decisions() {
    let claims = vec![
        RedactedClaim { id: "a".into(), subject: "rado".into(), predicate: "works_at".into(), object: "hmc".into() },
        RedactedClaim { id: "b".into(), subject: "x".into(), predicate: "y".into(), object: "z".into() },
    ];
    let text = build_extractive_answer(&claims, 1);
    assert!(text.starts_with("Based on indexed claims:\n- rado works_at hmc [claim:a]\n"));
    assert!(!text.contains("[claim:b]"));
    let none = no_claims_answer();
    assert!(none.degraded);
    assert!(!first_answer_stands(&none));
    assert_eq!(after_retry_answer(&none), RetryOutcome::Extractive);
}

#[test]
fn demo_answer_flags_one_verified_three_rejected_one_superseded() {
    let body = "We chose MessagePack for drift's serialization format. The launch is set for March 15. The API uses gRPC streaming. Auth uses short-lived JWTs.";
    let now: i128 = 1_775_001_600_000_000_000;
    let seeds = [
        ("0000000000000a01", "We chose MessagePack for drift's serialization format", false, false),
        ("0000000000000a02", "The launch is set for March 15", false, false),
        ("0000000000000a03", "The API uses gRPC streaming", true, false),
        ("0000000000000a04", "Auth uses short-lived JWTs", false, true),
    ];
    let evidence: Vec<ClaimEvidence> = seeds
        .iter()
        .map(|(id, span, stale, retracted)| ClaimEvidence {
            claim_id: id.to_string(),
            span_fingerprint: if *stale { Claim::compute_fingerprint(&format!("{span} (old)")) } else { Claim::compute_fingerprint(span) },
            span_text: Some(span.to_string()),
            valid_until: if *retracted { Some(now - 30 * 86_400 * 1_000_000_000) } else { None },
        })
        .collect();
    assert!(body.contains(seeds[3].1));
    let lines = [
        ("We chose \"MessagePack\" for drift's serialization format [claim:0000000000000a01].", "0000000000000a01"),
        ("The launch is \"set for April 1\" [claim:0000000000000a02].", "0000000000000a02"),
        ("The stack runs on PostgreSQL with three hot replicas [claim:0000000000dead01].", "0000000000dead01"),
        ("The API \"uses gRPC streaming\" [claim:0000000000000a03].", "0000000000000a03"),
        ("Auth \"uses short-lived JWTs\" [claim:0000000000000a04].", "0000000000000a04"),
    ];
    let text = lines.iter().map(|(t, _)| *t).collect::<Vec<_>>().join(" ");
    let a = validate_with_evidence(&text, &evidence, now);
    let statuses: Vec<CitationStatus> = a.checks.iter().map(|c| c.status).collect();
    assert_eq!(
        statuses,
        vec![
            CitationStatus::Verified,
            CitationStatus::QuoteMismatch,
            CitationStatus::Unverified,
            CitationStatus::FingerprintMismatch,
            CitationStatus::Superseded,
        ]
    );
    assert_eq!((a.verified_count, a.superseded_count), (1, 1));
    assert_eq!(a.unverified_count + a.mismatch_count, 3);
    assert!(!a.clean_text.contains("PostgreSQL"));
}
