//! Answering a question from verified claims: the context given to the model,
//! the retry that restricts it to proven claim ids, and the extractive fallback.
//!
//! Retrieval and the model calls happen outside; these functions decide what
//! is sent and what an answer's verdicts lead to.
use vstd::prelude::*;

use crate::cite::{CitationCheck, CitationStatus, CitedAnswer};
use crate::claims::push_str_chars;
use crate::order::texts;
use crate::text::{str_eq, str_lt, string_of};

verus! {

/// A claim as it may be shown to the model: Secret content already redacted.
/// An empty object stands for a unary claim.
#[derive(Debug, Clone)]
pub struct RedactedClaim {
    pub id: String,
    pub subject: String,
    pub predicate: String,
    pub object: String,
}

/// Instructions given with every answering request.
pub open spec fn answer_system_prompt() -> Seq<char> {
    "You answer using ONLY the verified claims. Every factual sentence must end with [claim:ID] for the supporting claim. If no claim supports a statement, omit it. Quote source text where relevant."@
}

/// Instructions given with every answering request.
pub fn answer_system_prompt_text() -> (r: &'static str)
    ensures
        r@ == answer_system_prompt(),
{
    "You answer using ONLY the verified claims. Every factual sentence must end with [claim:ID] for the supporting claim. If no claim supports a statement, omit it. Quote source text where relevant."
}

/// Shown object of a claim: `(unary)` for an empty one.
pub open spec fn shown_object(o: Seq<char>) -> Seq<char> {
    if o.len() == 0 {
        "(unary)"@
    } else {
        o
    }
}

/// Context lines of the first `n` claims.
pub open spec fn context_lines(claims: Seq<RedactedClaim>, n: int) -> Seq<char>
    decreases n,
{
    if n <= 0 {
        Seq::empty()
    } else {
        let c = claims[n - 1];
        context_lines(claims, n - 1) + "- [claim:"@ + c.id@ + "] "@ + c.subject@ + " "@ + c.predicate@
            + " "@ + shown_object(c.object@) + "\n"@
    }
}

fn push_object(out: &mut Vec<char>, o: &String)
    ensures
        final(out)@ == old(out)@ + shown_object(o@),
{
    if o.as_str().is_empty() {
        push_str_chars(out, "(unary)");
    } else {
        push_str_chars(out, o.as_str());
    }
}

/// The claims given to the model, one `[claim:ID]` line each.
pub fn format_claim_context(claims: &Vec<RedactedClaim>) -> (r: String)
    ensures
        r@ == "Verified claims (cite these with [claim:ID] markers):\n"@ + context_lines(
            claims@,
            claims@.len() as int,
        ),
{
    let mut out: Vec<char> = Vec::new();
    push_str_chars(&mut out, "Verified claims (cite these with [claim:ID] markers):\n");
    let ghost head = out@;
    let mut i: usize = 0;
    while i < claims.len()
        invariant
            i <= claims@.len(),
            head == "Verified claims (cite these with [claim:ID] markers):\n"@,
            out@ == head + context_lines(claims@, i as int),
        decreases claims.len() - i,
    {
        let c = &claims[i];
        push_str_chars(&mut out, "- [claim:");
        push_str_chars(&mut out, c.id.as_str());
        push_str_chars(&mut out, "] ");
        push_str_chars(&mut out, c.subject.as_str());
        push_str_chars(&mut out, " ");
        push_str_chars(&mut out, c.predicate.as_str());
        push_str_chars(&mut out, " ");
        push_object(&mut out, &c.object);
        push_str_chars(&mut out, "\n");
        proof {
            assert(out@ =~= head + context_lines(claims@, i + 1));
        }
        i = i + 1;
    }
    string_of(&out)
}

/// Fallback lines of the first `n` claims, each ending with its marker.
pub open spec fn extractive_lines(claims: Seq<RedactedClaim>, n: int) -> Seq<char>
    decreases n,
{
    if n <= 0 {
        Seq::empty()
    } else {
        let c = claims[n - 1];
        extractive_lines(claims, n - 1) + "- "@ + c.subject@ + " "@ + c.predicate@ + " "@ + shown_object(
            c.object@,
        ) + " [claim:"@ + c.id@ + "]\n"@
    }
}

/// An answer built from the first `limit` claims themselves, each cited.
pub fn build_extractive_answer(claims: &Vec<RedactedClaim>, limit: usize) -> (r: String)
    ensures
        r@ == "Based on indexed claims:\n"@ + extractive_lines(
            claims@,
            if claims@.len() < limit {
                claims@.len() as int
            } else {
                limit as int
            },
        ),
{
    let n = if claims.len() < limit {
        claims.len()
    } else {
        limit
    };
    let mut out: Vec<char> = Vec::new();
    push_str_chars(&mut out, "Based on indexed claims:\n");
    let ghost head = out@;
    let mut i: usize = 0;
    while i < n
        invariant
            i <= n <= claims@.len(),
            head == "Based on indexed claims:\n"@,
            out@ == head + extractive_lines(claims@, i as int),
        decreases n - i,
    {
        let c = &claims[i];
        push_str_chars(&mut out, "- ");
        push_str_chars(&mut out, c.subject.as_str());
        push_str_chars(&mut out, " ");
        push_str_chars(&mut out, c.predicate.as_str());
        push_str_chars(&mut out, " ");
        push_object(&mut out, &c.object);
        push_str_chars(&mut out, " [claim:");
        push_str_chars(&mut out, c.id.as_str());
        push_str_chars(&mut out, "]\n");
        proof {
            assert(out@ =~= head + extractive_lines(claims@, i + 1));
        }
        i = i + 1;
    }
    string_of(&out)
}

/// The user message of an answering request.
pub fn answer_request_text(context: &str, query: &str) -> (r: String)
    ensures
        r@ == context@ + "\n\nQuestion: "@ + query@,
{
    let mut out: Vec<char> = Vec::new();
    push_str_chars(&mut out, context);
    push_str_chars(&mut out, "\n\nQuestion: ");
    push_str_chars(&mut out, query);
    string_of(&out)
}

/// Text of the answer given when no claim matched the question.
pub open spec fn no_claims_text() -> Seq<char> {
    "No indexed claims matched this question yet. Try running `memora index --vault <path>` and ensure your notes include valid frontmatter."@
}

/// The degraded answer given when no claim matched the question.
pub fn no_claims_answer() -> (a: CitedAnswer)
    ensures
        a.raw_text@ == no_claims_text(),
        a.clean_text@ == no_claims_text(),
        a.checks@.len() == 0,
        a.verified_count == 0,
        a.unverified_count == 0,
        a.mismatch_count == 0,
        a.superseded_count == 0,
        a.redacted_count == 0,
        a.degraded,
{
    let t = "No indexed claims matched this question yet. Try running `memora index --vault <path>` and ensure your notes include valid frontmatter.";
    CitedAnswer {
        raw_text: t.to_string(),
        clean_text: t.to_string(),
        checks: Vec::new(),
        verified_count: 0,
        unverified_count: 0,
        mismatch_count: 0,
        superseded_count: 0,
        redacted_count: 0,
        degraded: true,
    }
}

/// The first answer stands when some citation was verified and none failed.
pub fn first_answer_stands(a: &CitedAnswer) -> (b: bool)
    ensures
        b == (a.verified_count > 0 && a.unverified_count + a.mismatch_count == 0),
{
    a.verified_count > 0 && a.unverified_count == 0 && a.mismatch_count == 0
}

/// What follows the retry's verdicts.
#[derive(Debug, Clone, Copy, PartialEq, Eq, Structural)]
pub enum RetryOutcome {
    /// Nothing was verified: answer from the claims themselves, degraded.
    Extractive,
    /// Keep the retry's answer, degraded when some citation still failed.
    Keep { degraded: bool },
}

/// What the retry's verdicts lead to (see `RetryOutcome`).
pub fn after_retry_answer(a: &CitedAnswer) -> (r: RetryOutcome)
    ensures
        r == (if a.verified_count == 0 {
            RetryOutcome::Extractive
        } else {
            RetryOutcome::Keep { degraded: a.unverified_count + a.mismatch_count > 0 }
        }),
{
    if a.verified_count == 0 {
        RetryOutcome::Extractive
    } else {
        RetryOutcome::Keep { degraded: a.unverified_count > 0 || a.mismatch_count > 0 }
    }
}

/// Ids of the verified citations, without repeats, in ascending order.
pub open spec fn allowed_ids_spec(checks: Seq<CitationCheck>) -> Seq<Seq<char>> {
    crate::order::sorted_keys(
        checks.map_values(
            |c: CitationCheck| if c.status == CitationStatus::Verified {
                Some(seq![c.claim_id@])
            } else {
                None
            },
        ),
        checks.len() as int,
    ).map_values(|k: Seq<Seq<char>>| k[0])
}

/// The first `n` texts joined by `, `.
pub open spec fn comma_joined(s: Seq<Seq<char>>, n: int) -> Seq<char>
    decreases n,
{
    if n <= 0 {
        Seq::empty()
    } else if n == 1 {
        s[0]
    } else {
        comma_joined(s, n - 1) + ", "@ + s[n - 1]
    }
}

/// Ids of the verified citations, without repeats, in ascending order.
pub fn allowed_claim_ids(checks: &Vec<CitationCheck>) -> (r: Vec<String>)
    ensures
        texts(r@) == allowed_ids_spec(checks@),
{
    let mut keys: Vec<Option<Vec<String>>> = Vec::new();
    let mut i: usize = 0;
    while i < checks.len()
        invariant
            i <= checks@.len(),
            keys@.len() == i,
            forall|j: int|
                0 <= j < i ==> crate::order::opt_key(#[trigger] keys@[j]) == (if checks@[j].status
                    == CitationStatus::Verified {
                    Some(seq![checks@[j].claim_id@])
                } else {
                    None
                }),
        decreases checks.len() - i,
    {
        if checks[i].status == CitationStatus::Verified {
            let mut k: Vec<String> = Vec::new();
            k.push(checks[i].claim_id.clone());
            proof {
                assert(texts(k@) =~= seq![checks@[i as int].claim_id@]);
            }
            keys.push(Some(k));
        } else {
            keys.push(None);
        }
        i = i + 1;
    }
    proof {
        assert(crate::order::opt_keys(keys@) =~= checks@.map_values(
            |c: CitationCheck| if c.status == CitationStatus::Verified {
                Some(seq![c.claim_id@])
            } else {
                None
            },
        ));
    }
    let ks = crate::order::distinct_sorted_keys(&keys);
    let ghost kl = crate::order::key_list(ks@);
    let ghost ko = checks@.map_values(
        |c: CitationCheck| if c.status == CitationStatus::Verified {
            Some(seq![c.claim_id@])
        } else {
            None
        },
    );
    proof {
        assert forall|j: int| 0 <= j < checks@.len() && (#[trigger] ko[j]) is Some implies ko[j]->0.len() == 1 by {
        }
    }
    let mut out: Vec<String> = Vec::new();
    let mut g: usize = 0;
    while g < ks.len()
        invariant
            g <= ks@.len(),
            kl == crate::order::key_list(ks@),
            kl == crate::order::sorted_keys(ko, checks@.len() as int),
            forall|j: int| 0 <= j < checks@.len() && (#[trigger] ko[j]) is Some ==> ko[j]->0.len() == 1,
            ko.len() == checks@.len(),
            out@.len() == g,
            forall|j: int| 0 <= j < g ==> (#[trigger] out@[j])@ == kl[j][0],
        decreases ks.len() - g,
    {
        proof {
            crate::order::lemma_sorted_keys_len(ko, checks@.len() as int, 1, g as int);
            assert(kl[g as int] == texts(ks@[g as int]@));
        }
        let t = ks[g][0].clone();
        out.push(t);
        g = g + 1;
    }
    proof {
        assert(texts(out@) =~= allowed_ids_spec(checks@));
    }
    out
}

/// The retry's instructions: the usual ones, restricted to the given ids.
pub open spec fn retry_prompt(ids: Seq<Seq<char>>) -> Seq<char> {
    answer_system_prompt() + " Use ONLY these claim ids: "@ + comma_joined(ids, ids.len() as int)
        + ". Do not emit any other [claim:...] marker."@
}

/// The retry's instructions (see `retry_prompt`).
pub fn retry_system_prompt(ids: &Vec<String>) -> (r: String)
    ensures
        r@ == retry_prompt(texts(ids@)),
{
    let mut out: Vec<char> = Vec::new();
    push_str_chars(&mut out, answer_system_prompt_text());
    push_str_chars(&mut out, " Use ONLY these claim ids: ");
    let ghost head = out@;
    let mut i: usize = 0;
    while i < ids.len()
        invariant
            i <= ids@.len(),
            out@ == head + comma_joined(texts(ids@), i as int),
        decreases ids.len() - i,
    {
        if i > 0 {
            push_str_chars(&mut out, ", ");
        }
        push_str_chars(&mut out, ids[i].as_str());
        proof {
            assert(texts(ids@)[i as int] == ids@[i as int]@);
            if i == 0 {
                assert(out@ =~= head + comma_joined(texts(ids@), 1));
            } else {
                assert(out@ =~= head + comma_joined(texts(ids@), i + 1));
            }
        }
        i = i + 1;
    }
    push_str_chars(&mut out, ". Do not emit any other [claim:...] marker.");
    string_of(&out)
}

} // verus!
