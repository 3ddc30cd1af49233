//! Contradiction detection for a newly indexed claim: which stored claims are
//! compared with it, what the model is asked, how its reply is read, and which
//! claim a confirmed contradiction supersedes.
use vstd::prelude::*;
use crate::claims::{Claim, push_str_chars};
use crate::text::{trim, has_prefix, ascii_lower_seq, lex_lt, str_lt, starts_with, string_of, ascii_lowercase, str_eq};
use crate::entailment::trimmed;
use crate::order::texts;

verus! {

/// A reply that begins with `yes`, ignoring surrounding whitespace and ASCII case.
pub open spec fn says_yes(text: Seq<char>) -> bool {
    has_prefix(ascii_lower_seq(trim(text)), "yes"@)
}

/// Whether a model reply answers yes (see `says_yes`).
pub fn starts_with_yes(text: &str) -> (r: bool)
    ensures
        r == says_yes(text@),
{
    let t = trimmed(text);
    let lower = ascii_lowercase(t.as_str());
    starts_with(lower.as_str(), "yes")
}

/// The order-free key of a pair of predicates: both trimmed and ASCII
/// lower-cased, the smaller first.
pub open spec fn predicate_key(a: Seq<char>, b: Seq<char>) -> (Seq<char>, Seq<char>) {
    let x = ascii_lower_seq(trim(a));
    let y = ascii_lower_seq(trim(b));
    if lex_lt(y, x) {
        (y, x)
    } else {
        (x, y)
    }
}

/// The order-free key of a pair of predicates (see `predicate_key`).
pub fn canonical_predicate_key(a: &str, b: &str) -> (r: (String, String))
    ensures
        (r.0@, r.1@) == predicate_key(a@, b@),
{
    let ta = trimmed(a);
    let x = ascii_lowercase(ta.as_str());
    let tb = trimmed(b);
    let y = ascii_lowercase(tb.as_str());
    if str_lt(y.as_str(), x.as_str()) {
        (y, x)
    } else {
        (x, y)
    }
}

/// The question whether two predicates mean the same for a subject.
pub open spec fn equivalence_prompt_text(subject: Seq<char>, a: Seq<char>, b: Seq<char>) -> Seq<char> {
    "Are these two predicates synonymous in context of "@ + subject + "?\nA: "@ + a + "\nB: "@ + b
        + "\nReply with 'yes' or 'no'."@
}

/// The question whether two predicates mean the same for a subject.
pub fn equivalence_prompt(subject: &str, a: &str, b: &str) -> (r: String)
    ensures
        r@ == equivalence_prompt_text(subject@, a@, b@),
{
    let mut out: Vec<char> = Vec::new();
    push_str_chars(&mut out, "Are these two predicates synonymous in context of ");
    push_str_chars(&mut out, subject);
    push_str_chars(&mut out, "?\nA: ");
    push_str_chars(&mut out, a);
    push_str_chars(&mut out, "\nB: ");
    push_str_chars(&mut out, b);
    push_str_chars(&mut out, "\nReply with 'yes' or 'no'.");
    string_of(&out)
}

/// The object of a claim as shown in a question: the object, or `(unary)`.
pub open spec fn object_shown(c: Claim) -> Seq<char> {
    match c.object {
        Some(o) => o@,
        None => "(unary)"@,
    }
}

/// The question whether two claims contradict each other.
pub open spec fn contradiction_prompt_text(a: Claim, b: Claim) -> Seq<char> {
    "Do these claims contradict each other?\nA: '"@ + a.subject@ + ", "@ + a.predicate@ + ", "@
        + object_shown(a) + "'\nB: '"@ + b.subject@ + ", "@ + b.predicate@ + ", "@ + object_shown(b)
        + "'\nReply with 'yes' or 'no' and a short reason."@
}

/// The question whether two claims contradict each other.
pub fn contradiction_prompt(a: &Claim, b: &Claim) -> (r: String)
    ensures
        r@ == contradiction_prompt_text(*a, *b),
{
    let mut out: Vec<char> = Vec::new();
    push_str_chars(&mut out, "Do these claims contradict each other?\nA: '");
    push_str_chars(&mut out, a.subject.as_str());
    push_str_chars(&mut out, ", ");
    push_str_chars(&mut out, a.predicate.as_str());
    push_str_chars(&mut out, ", ");
    let ao = a.object_display();
    push_str_chars(&mut out, ao.as_str());
    push_str_chars(&mut out, "'\nB: '");
    push_str_chars(&mut out, b.subject.as_str());
    push_str_chars(&mut out, ", ");
    push_str_chars(&mut out, b.predicate.as_str());
    push_str_chars(&mut out, ", ");
    let bo = b.object_display();
    push_str_chars(&mut out, bo.as_str());
    push_str_chars(&mut out, "'\nReply with 'yes' or 'no' and a short reason.");
    string_of(&out)
}

/// `Some(s)` by view when the option holds a string.
pub open spec fn opt_text(o: Option<String>) -> Option<Seq<char>> {
    match o {
        Some(s) => Some(s@),
        None => None,
    }
}

/// Whether two optional strings are equal.
fn opt_eq(a: &Option<String>, b: &Option<String>) -> (r: bool)
    ensures
        r == (opt_text(*a) == opt_text(*b)),
{
    match (a, b) {
        (Some(x), Some(y)) => str_eq(x.as_str(), y.as_str()),
        (None, None) => true,
        _ => false,
    }
}

/// A candidate is compared with the new claim unless it is the claim itself,
/// states the same object, or was already compared.
pub open spec fn worth_comparing(claim: Claim, candidate: Claim, seen: Seq<Seq<char>>) -> bool {
    candidate.id@ != claim.id@ && opt_text(candidate.object) != opt_text(claim.object)
        && !seen.contains(candidate.id@)
}

/// Whether a candidate is compared with the new claim (see `worth_comparing`);
/// when it is, its id joins `seen`.
pub fn should_compare(claim: &Claim, candidate: &Claim, seen: &mut Vec<String>) -> (r: bool)
    ensures
        r == worth_comparing(*claim, *candidate, texts(old(seen)@)),
        r ==> texts(final(seen)@) == texts(old(seen)@).push(candidate.id@),
        !r ==> final(seen)@ == old(seen)@,
{
    if str_eq(candidate.id.as_str(), claim.id.as_str()) || opt_eq(&candidate.object, &claim.object) {
        return false;
    }
    if crate::order::holds_text(seen, candidate.id.as_str()) {
        return false;
    }
    seen.push(candidate.id.clone());
    proof {
        assert(texts(seen@) =~= texts(old(seen)@).push(candidate.id@));
    }
    true
}

/// Of two contradicting claims, the newer is the one that became valid last,
/// the new claim on a tie; the older one's validity ends when the newer
/// begins.
pub open spec fn new_claim_is_newer(claim: Claim, candidate: Claim) -> bool {
    claim.valid_from >= candidate.valid_from
}

/// The outcome of a confirmed contradiction: the newer claim's id and the
/// older claim, its validity closed at the newer one's start.
pub fn supersede(claim: &Claim, candidate: &Claim) -> (r: (String, Claim))
    ensures
        new_claim_is_newer(*claim, *candidate) ==> r.0@ == claim.id@ && r.1 == (Claim {
            valid_until: Some(claim.valid_from),
            ..*candidate
        }),
        !new_claim_is_newer(*claim, *candidate) ==> r.0@ == candidate.id@ && r.1 == (Claim {
            valid_until: Some(candidate.valid_from),
            ..*claim
        }),
{
    if claim.valid_from >= candidate.valid_from {
        let mut older = candidate.duplicate();
        older.valid_until = Some(claim.valid_from);
        (claim.id.clone(), older)
    } else {
        let mut older = claim.duplicate();
        older.valid_until = Some(candidate.valid_from);
        (candidate.id.clone(), older)
    }
}

} // verus!
