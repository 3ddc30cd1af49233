use memora::claims::{Claim, ClaimRelation};
use std::str::FromStr;

#[test]
fn claim_id_is_stable_and_truncated() {
    let id = Claim::compute_id("rado", "works_at", Some("hmc"), "note-1", 12);
    assert_eq!(id.len(), 16);
    assert_eq!(id, Claim::compute_id("rado", "works_at", Some("hmc"), "note-1", 12));
}

#[test]
fn fingerprint_is_full_width_blake3() {
    let fp = Claim::compute_fingerprint("Rado works at HMC");
    assert_eq!(fp.len(), 64);
    assert!(Claim::fingerprint_matches("Rado works at HMC", &fp));
    assert!(!Claim::fingerprint_matches("Rado works at Google", &fp));
}

#[test]
fn fingerprint_matches_accepts_legacy_truncated_fingerprints() {
    let span = "Rado works at HMC";
    let legacy: String = Claim::compute_fingerprint(span).chars().take(16).collect();
    assert_eq!(legacy.len(), 16);
    assert!(Claim::fingerprint_matches(span, &legacy));
    assert!(!Claim::fingerprint_matches("tampered text", &legacy));
}

#[test]
fn relation_round_trip() {
    let relation = ClaimRelation::from_str("co_occurs").expect("parse relation");
    assert_eq!(relation.to_string(), "co_occurs");
}

#[test]
fn fingerprint_is_blake3_of_the_span_bytes() {
    // BLAKE3 of the empty input, as published with the algorithm.
    assert_eq!(
        Claim::compute_fingerprint(""),
        "af1349b9f5f9a1a6a0404dea36dcc9499bcb25c9adc112b7cc9a93cae41f3262"
    );
}

#[test]
fn claim_id_depends_on_every_component() {
    let base = Claim::compute_id("rado", "works_at", Some("hmc"), "note-1", 12);
    assert_ne!(base, Claim::compute_id("rado", "works_at", Some("hmc"), "note-1", 13));
    assert_ne!(base, Claim::compute_id("rado", "works_at", None, "note-1", 12));
    assert!(base.chars().all(|c| c.is_ascii_hexdigit() && !c.is_ascii_uppercase()));
}

#[test]
fn fingerprint_of_other_width_never_matches() {
    assert!(!Claim::fingerprint_matches("Rado works at HMC", "abc"));
}

#[test]
fn invalid_relation_is_refused_with_message() {
    let err = ClaimRelation::from_str("likes").unwrap_err();
    assert_eq!(err, "invalid claim relation: likes");
    for r in ["entails", "contradicts", "supersedes", "derives", "co_occurs"] {
        assert_eq!(ClaimRelation::from_str(r).unwrap().as_str(), r);
    }
}
