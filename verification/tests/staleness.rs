use memora::stale::stale_claims;
use std::collections::BTreeSet;

fn link(source: &str, derived: &str) -> (String, String) {
    (source.to_string(), derived.to_string())
}

#[test]
fn staleness_propagates_transitively() {
    // A -> B -> C: B derives from A, C derives from B.
    let links = vec![link("claim-a", "claim-b"), link("claim-b", "claim-c")];
    let marked = stale_claims(&vec!["claim-a".to_string()], &links);
    assert_eq!(marked.len(), 2, "both B and C should be marked stale, not just B");
    let stale: BTreeSet<String> = marked.into_iter().collect();
    assert!(stale.contains("claim-b"));
    assert!(stale.contains("claim-c"));
    assert!(!stale.contains("claim-a"), "the edited source itself must not be marked stale");
}

#[test]
fn staleness_terminates_on_cycles() {
    let links = vec![link("x", "y"), link("y", "x")];
    let marked = stale_claims(&vec!["x".to_string()], &links);
    assert_eq!(marked.len(), 1);
}

#[test]
fn staleness_ignores_unrelated_claims_and_marks_each_once() {
    let links = vec![
        link("a", "b"),
        link("a", "c"),
        link("b", "d"),
        link("c", "d"),
        link("z", "q"),
    ];
    let marked = stale_claims(&vec!["a".to_string()], &links);
    let set: BTreeSet<String> = marked.iter().cloned().collect();
    assert_eq!(marked.len(), set.len());
    assert_eq!(set, ["b", "c", "d"].iter().map(|s| s.to_string()).collect());
}

#[test]
fn staleness_of_nothing_is_nothing() {
    assert!(stale_claims(&vec![], &vec![link("a", "b")]).is_empty());
    assert!(stale_claims(&vec!["a".to_string()], &vec![]).is_empty());
}
