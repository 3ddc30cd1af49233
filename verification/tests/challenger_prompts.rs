use memora::challenge_report::{contradiction_summary_prompt, frontier_question_prompt, stale_review_prompt};
use memora::claims::Claim;
use memora::privacy::Privacy;

fn claim(id: &str, subject: &str, predicate: &str, object: Option<&str>) -> Claim {
    Claim {
        id: id.to_string(),
        subject: subject.to_string(),
        predicate: predicate.to_string(),
        object: object.map(ToString::to_string),
        note_id: "n".to_string(),
        span_start: 0,
        span_end: 4,
        span_fingerprint: "fp".to_string(),
        valid_from: 0,
        valid_until: None,
        confidence_millionths: 500_000,
        privacy: Privacy::Private,
        extracted_by: "test".to_string(),
        extracted_at: 0,
    }
}

#[test]
fn stale_review_prompt_quotes_source_and_old_claim() {
    let c = claim("c1", "Alice", "works_at", Some("Acme"));
    assert_eq!(
        stale_review_prompt("Alice left Acme.", &c),
        "Given the source note has changed, propose:\n(1) the updated claim, OR (2) 'archive' if no longer applicable.\nSource: 'Alice left Acme.'. Old claim: 'Alice works_at Acme'.\nOutput JSON {\"action\":\"update\"|\"archive\",\"new_claim\"?:{\"s\":\"...\",\"p\":\"...\",\"o\":\"...\"}}"
    );
}

#[test]
fn contradiction_summary_prompt_names_both_claims() {
    let a = claim("a", "db", "uses", Some("postgres"));
    let b = claim("b", "db", "is_deprecated", None);
    assert_eq!(
        contradiction_summary_prompt(&a, &b),
        "Summarize this contradiction in one sentence.\nClaim A: 'db uses postgres'\nClaim B: 'db is_deprecated (unary)'"
    );
}

#[test]
fn frontier_question_prompt_carries_confidence_and_count() {
    assert_eq!(
        frontier_question_prompt("cache", "evicts", "lru", "0.3", 1),
        "Generate one short clarifying question for this uncertain claim:\n'cache evicts lru' (confidence 0.3, predicate occurrences 1)."
    );
    assert!(frontier_question_prompt("a", "b", "c", "0.9", 12).ends_with("occurrences 12)."));
}
