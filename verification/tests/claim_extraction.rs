use memora::extract::{
    after_first_attempt, after_retry, reply_is_empty, strip_code_fences, validate_records, ClaimExtractionDisposition, ClaimRecord,
    ExtractionStep, NoteMeta,
};
use memora::privacy::Privacy;
use memora::privacy_markers::parse_privacy_spans;

/// 2026-01-01T00:00:00Z.
const CREATED: i128 = 1_767_225_600_000_000_000;

fn note(id: &str) -> NoteMeta {
    NoteMeta { id: id.to_string(), path: format!("vault/{id}.md"), created: CREATED, privacy: Privacy::Private, wikilinks: vec![] }
}

fn record(subject: &str, predicate: &str, object: Option<&str>, start: i64, end: i64) -> ClaimRecord {
    ClaimRecord {
        subject: Some(subject.to_string()),
        predicate: Some(predicate.to_string()),
        object: object.map(ToString::to_string),
        span_start: start,
        span_end: end,
        valid_from: None,
        valid_until: None,
        confidence_millionths: Some(1_000_000),
    }
}

#[test]
fn two_valid_records_are_accepted() {
    let body = "Rado works at HMC. INTERNORGA had 3500 exhibitors.";
    let first = body.find("Rado works at HMC").unwrap() as i64;
    let second = body.find("INTERNORGA had 3500 exhibitors").unwrap() as i64;
    let records = vec![
        record("Rado", "works_at", Some("HMC"), first, first + 17),
        record("INTERNORGA", "had_exhibitor_count", Some("3500 exhibitors"), second, second + 30),
    ];
    let claims = validate_records(&note("note-1"), body, &parse_privacy_spans(body), &records, "test/extractor", 0);
    assert_eq!(claims.len(), 2);
    assert_eq!(claims[0].valid_from, CREATED);
}

#[test]
fn out_of_bounds_span_is_recovered_at_the_subject() {
    let body = "Rado works at HMC.";
    let claims = validate_records(&note("note-2"), body, &vec![], &vec![record("Rado", "works_at", Some("HMC"), 0, 1000)], "m", 0);
    assert_eq!(claims.len(), 1);
    assert_eq!(claims[0].span_start, body.find("Rado").unwrap());
}

#[test]
fn too_short_span_text_is_rejected() {
    let claims = validate_records(&note("note-3"), "abcde", &vec![], &vec![record("X", "is", Some("Y"), 0, 4)], "m", 0);
    assert!(claims.is_empty());
}

#[test]
fn inline_secret_marker_raises_claim_privacy() {
    let body = "Comp <!--privacy:secret-->salary 95k<!--/privacy--> note";
    let s = body.find("salary 95k").unwrap() as i64;
    let claims = validate_records(&note("note-4"), body, &parse_privacy_spans(body), &vec![record("Comp", "has_salary", Some("95k"), s, s + 10)], "m", 0);
    assert_eq!(claims.len(), 1);
    assert_eq!(claims[0].privacy, Privacy::Secret);
}

#[test]
fn unary_claims_have_no_object() {
    let body = "vault is in early stages for the work.";
    let end = body.len() as i64;
    let a = validate_records(&note("u1"), body, &vec![], &vec![record("vault", "in_early_stages", None, 0, end)], "m", 0);
    assert_eq!(a.len(), 1);
    assert!(a[0].object.is_none());
    let b = validate_records(&note("u2"), body, &vec![], &vec![record("vault", "in_early_stages", Some(""), 0, end)], "m", 0);
    assert_eq!(b.len(), 1);
    assert!(b[0].object.is_none());
}

#[test]
fn invalid_offsets_recover_a_span_after_the_subject() {
    let body = "akmon launched today";
    let claims = validate_records(&note("recover-span"), body, &vec![], &vec![record("akmon", "launched", None, 0, 200)], "m", 0);
    assert_eq!(claims.len(), 1);
    assert_eq!(claims[0].span_start, 0);
    assert_eq!(claims[0].span_end, ("akmon".len() + 80).min(body.len()));
}

#[test]
fn fabricated_subject_is_dropped() {
    let claims = validate_records(&note("fabricated"), "hello world today", &vec![], &vec![record("fabricated-thing", "exists", Some("x"), 0, 11)], "m", 0);
    assert!(claims.is_empty());
}

#[test]
fn retry_happens_once_and_only_when_everything_failed() {
    assert_eq!(after_first_attempt(0, 0), ExtractionStep::Finish(ClaimExtractionDisposition::Empty));
    assert_eq!(after_first_attempt(3, 0), ExtractionStep::Retry);
    assert_eq!(after_first_attempt(3, 1), ExtractionStep::Finish(ClaimExtractionDisposition::Extracted));
    assert_eq!(after_retry(2, 0), ClaimExtractionDisposition::AllInvalidAfterRetry);
    assert_eq!(after_retry(0, 0), ClaimExtractionDisposition::Empty);
}

#[test]
fn code_fences_are_stripped_and_empty_replies_recognised() {
    assert_eq!(strip_code_fences("```json\n[1]\n```"), "[1]");
    assert!(reply_is_empty("  []  "));
    assert!(!reply_is_empty("[{\"subject\":\"a\"}]"));
}
