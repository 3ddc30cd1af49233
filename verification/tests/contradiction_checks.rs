use memora::claims::Claim;
use memora::contradict::{canonical_predicate_key, contradiction_prompt, equivalence_prompt, should_compare, starts_with_yes, supersede};
use memora::privacy::Privacy;

fn claim(id: &str, object: Option<&str>, valid_from: i128) -> Claim {
    Claim {
        id: id.to_string(),
        subject: "akmon".to_string(),
        predicate: "uses".to_string(),
        object: object.map(ToString::to_string),
        note_id: "n".to_string(),
        span_start: 0,
        span_end: 1,
        span_fingerprint: "fp".to_string(),
        valid_from,
        valid_until: None,
        confidence_millionths: 1_000_000,
        privacy: Privacy::Public,
        extracted_by: "t".to_string(),
        extracted_at: valid_from,
    }
}

#[test]
fn replies_are_read_as_yes_only_when_they_start_with_yes() {
    assert!(starts_with_yes("  YES, they contradict"));
    assert!(starts_with_yes("yes"));
    assert!(!starts_with_yes("No."));
    assert!(!starts_with_yes("maybe yes"));
}

#[test]
fn predicate_key_is_order_free() {
    assert_eq!(canonical_predicate_key(" Uses ", "employs"), ("employs".to_string(), "uses".to_string()));
    assert_eq!(canonical_predicate_key("employs", "USES"), ("employs".to_string(), "uses".to_string()));
}

#[test]
fn prompts_name_both_sides() {
    assert_eq!(
        equivalence_prompt("akmon", "uses", "employs"),
        "Are these two predicates synonymous in context of akmon?\nA: uses\nB: employs\nReply with 'yes' or 'no'."
    );
    let p = contradiction_prompt(&claim("a", Some("rust"), 1), &claim("b", None, 2));
    assert_eq!(
        p,
        "Do these claims contradict each other?\nA: 'akmon, uses, rust'\nB: 'akmon, uses, (unary)'\nReply with 'yes' or 'no' and a short reason."
    );
}

#[test]
fn candidates_are_compared_once_and_never_with_themselves() {
    let new = claim("new", Some("rust"), 10);
    let mut seen = Vec::new();
    assert!(!should_compare(&new, &claim("new", Some("go"), 1), &mut seen));
    assert!(!should_compare(&new, &claim("same", Some("rust"), 1), &mut seen));
    assert!(should_compare(&new, &claim("old", Some("go"), 1), &mut seen));
    assert_eq!(seen, vec!["old".to_string()]);
    assert!(!should_compare(&new, &claim("old", Some("go"), 1), &mut seen));
}

#[test]
fn supersession_closes_the_older_claim() {
    let (newer, older) = supersede(&claim("new", Some("rust"), 10), &claim("old", Some("go"), 5));
    assert_eq!(newer, "new");
    assert_eq!(older.id, "old");
    assert_eq!(older.valid_until, Some(10));
    let (newer, older) = supersede(&claim("late", Some("rust"), 3), &claim("fresh", Some("go"), 7));
    assert_eq!(newer, "fresh");
    assert_eq!(older.id, "late");
    assert_eq!(older.valid_until, Some(7));
}
