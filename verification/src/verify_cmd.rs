//! The decisions of `memora verify`: which citations count as problems, when
//! the run fails, what the entailment check is asked, and how its outcome is
//! summarised.
use vstd::prelude::*;
use crate::cite::{CitationCheck, CitationStatus};
use crate::entailment::{Entailment, trimmed};
use crate::validator::{count_status, is_mismatch, statuses};
use crate::text::{trim, string_of};
use crate::claims::{decimal, push_str_chars, usize_decimal};

verus! {

/// The machine-readable name of a citation status.
pub open spec fn status_name(status: CitationStatus) -> Seq<char> {
    match status {
        CitationStatus::Verified => "verified"@,
        CitationStatus::Unverified => "unverified"@,
        CitationStatus::FingerprintMismatch => "fingerprint_mismatch"@,
        CitationStatus::QuoteMismatch => "quote_mismatch"@,
        CitationStatus::Superseded => "superseded"@,
    }
}

/// The machine-readable name of a citation status.
pub fn status_str(status: CitationStatus) -> (r: &'static str)
    ensures
        r@ == status_name(status),
{
    match status {
        CitationStatus::Verified => "verified",
        CitationStatus::Unverified => "unverified",
        CitationStatus::FingerprintMismatch => "fingerprint_mismatch",
        CitationStatus::QuoteMismatch => "quote_mismatch",
        CitationStatus::Superseded => "superseded",
    }
}

/// A citation that fails the run: anything but verified, and superseded only
/// when superseded citations are not allowed.
pub open spec fn is_problem(status: CitationStatus, allow_superseded: bool) -> bool {
    match status {
        CitationStatus::Verified => false,
        CitationStatus::Superseded => !allow_superseded,
        _ => true,
    }
}

/// Number of citations that fail the run (see `is_problem`).
pub fn count_problems(checks: &Vec<CitationCheck>, allow_superseded: bool) -> (r: usize)
    ensures
        r == count_status(statuses(checks@), |x: CitationStatus| is_problem(x, allow_superseded)),
        r == count_status(statuses(checks@), |x: CitationStatus| x == CitationStatus::Unverified)
            + count_status(statuses(checks@), |x: CitationStatus| is_mismatch(x)) + if allow_superseded {
            0
        } else {
            count_status(statuses(checks@), |x: CitationStatus| x == CitationStatus::Superseded)
        },
        r <= checks@.len(),
{
    let mut n: usize = 0;
    let mut i: usize = 0;
    while i < checks.len()
        invariant
            i <= checks@.len(),
            n <= i,
            n == count_status(
                statuses(checks@.take(i as int)),
                |x: CitationStatus| is_problem(x, allow_superseded),
            ),
        decreases checks.len() - i,
    {
        proof {
            assert(statuses(checks@.take(i + 1)).drop_last() =~= statuses(checks@.take(i as int)));
            assert(statuses(checks@.take(i + 1)).last() == checks@[i as int].status);
        }
        let bad = match checks[i].status {
            CitationStatus::Verified => false,
            CitationStatus::Superseded => !allow_superseded,
            _ => true,
        };
        if bad {
            n = n + 1;
        }
        i = i + 1;
    }
    proof {
        assert(checks@.take(checks@.len() as int) =~= checks@);
        lemma_problem_count(checks@, allow_superseded);
    }
    n
}

/// The problems of a run are exactly its unverified citations, its
/// fingerprint and quote mismatches, and, unless superseded citations are
/// allowed, its superseded ones: a citation of an unknown claim always counts.
pub proof fn lemma_problem_count(checks: Seq<CitationCheck>, allow_superseded: bool)
    ensures
        count_status(statuses(checks), |x: CitationStatus| is_problem(x, allow_superseded))
            == count_status(statuses(checks), |x: CitationStatus| x == CitationStatus::Unverified)
            + count_status(statuses(checks), |x: CitationStatus| is_mismatch(x)) + if allow_superseded {
            0
        } else {
            count_status(statuses(checks), |x: CitationStatus| x == CitationStatus::Superseded)
        },
{
    lemma_problem_count_seq(statuses(checks), allow_superseded);
}

proof fn lemma_problem_count_seq(s: Seq<CitationStatus>, allow_superseded: bool)
    ensures
        count_status(s, |x: CitationStatus| is_problem(x, allow_superseded)) == count_status(
            s,
            |x: CitationStatus| x == CitationStatus::Unverified,
        ) + count_status(s, |x: CitationStatus| is_mismatch(x)) + if allow_superseded {
            0
        } else {
            count_status(s, |x: CitationStatus| x == CitationStatus::Superseded)
        },
    decreases s.len(),
{
    if s.len() > 0 {
        lemma_problem_count_seq(s.drop_last(), allow_superseded);
    }
}

/// Whether a citation goes to the entailment check: only those whose source
/// is intact (verified or superseded).
pub fn needs_entailment(status: CitationStatus) -> (r: bool)
    ensures
        r == (status == CitationStatus::Verified || status == CitationStatus::Superseded),
{
    match status {
        CitationStatus::Verified | CitationStatus::Superseded => true,
        _ => false,
    }
}

/// Whether the run exits with failure: any problem citation, or, when asked
/// to, any citation judged unsupported.
pub fn verify_fails(problems: usize, fail_unsupported: bool, unsupported: usize) -> (r: bool)
    ensures
        r == (problems > 0 || (fail_unsupported && unsupported > 0)),
{
    problems > 0 || (fail_unsupported && unsupported > 0)
}

/// A claim as one assertion: `subject predicate object`, trimmed.
pub open spec fn assertion_text(subject: Seq<char>, predicate: Seq<char>, object: Option<Seq<char>>) -> Seq<char> {
    trim(
        subject + " "@ + predicate + " "@ + match object {
            Some(o) => o,
            None => Seq::empty(),
        },
    )
}

/// A claim as one assertion (see `assertion_text`), used as the hypothesis
/// when the answer quotes nothing.
pub fn claim_assertion(subject: &str, predicate: &str, object: Option<&str>) -> (r: String)
    ensures
        r@ == assertion_text(
            subject@,
            predicate@,
            match object {
                Some(o) => Some(o@),
                None => None,
            },
        ),
{
    let mut out: Vec<char> = Vec::new();
    push_str_chars(&mut out, subject);
    push_str_chars(&mut out, " ");
    push_str_chars(&mut out, predicate);
    push_str_chars(&mut out, " ");
    match object {
        Some(o) => push_str_chars(&mut out, o),
        None => {},
    }
    let joined = string_of(&out);
    proof {
        reveal_strlit(" ");
        let o = match object {
            Some(o) => o@,
            None => Seq::<char>::empty(),
        };
        assert(joined@ =~= subject@ + " "@ + predicate@ + " "@ + o);
    }
    trimmed(joined.as_str())
}

/// The hypothesis handed to the entailment check: the citation's quote when it
/// is not blank, else the claim's assertion.
pub open spec fn hypothesis_text(quote: Option<Seq<char>>, assertion: Seq<char>) -> Seq<char> {
    match quote {
        Some(q) => if trim(q).len() > 0 {
            q
        } else {
            assertion
        },
        None => assertion,
    }
}

/// The hypothesis handed to the entailment check (see `hypothesis_text`).
pub fn entailment_hypothesis(quote: &Option<String>, assertion: &str) -> (r: String)
    ensures
        r@ == hypothesis_text(
            match quote {
                Some(q) => Some(q@),
                None => None,
            },
            assertion@,
        ),
{
    match quote {
        Some(q) => {
            let t = trimmed(q.as_str());
            if t.unicode_len() > 0 {
                q.clone()
            } else {
                assertion.to_string()
            }
        },
        None => assertion.to_string(),
    }
}

/// Mark and fixed-width label of an entailment verdict.
pub open spec fn entailment_mark(v: Entailment) -> (Seq<char>, Seq<char>) {
    match v {
        Entailment::Entailed => ("\u{2713}"@, "entailed   "@),
        Entailment::Unsupported => ("\u{2717}"@, "unsupported"@),
        Entailment::Unchecked => ("\u{b7}"@, "unchecked  "@),
    }
}

/// The line shown for one citation's entailment verdict.
pub open spec fn entailment_line_text(v: Entailment, claim_id: Seq<char>) -> Seq<char> {
    "  "@ + entailment_mark(v).0 + " "@ + entailment_mark(v).1 + "  [claim:"@ + claim_id + "]"@
}

/// The line shown for one citation's entailment verdict.
pub fn entailment_line(v: Entailment, claim_id: &str) -> (r: String)
    ensures
        r@ == entailment_line_text(v, claim_id@),
{
    let (mark, label) = match v {
        Entailment::Entailed => ("\u{2713}", "entailed   "),
        Entailment::Unsupported => ("\u{2717}", "unsupported"),
        Entailment::Unchecked => ("\u{b7}", "unchecked  "),
    };
    let mut out: Vec<char> = Vec::new();
    push_str_chars(&mut out, "  ");
    push_str_chars(&mut out, mark);
    push_str_chars(&mut out, " ");
    push_str_chars(&mut out, label);
    push_str_chars(&mut out, "  [claim:");
    push_str_chars(&mut out, claim_id);
    push_str_chars(&mut out, "]");
    string_of(&out)
}

/// Number of verdicts among `s` equal to `v`.
pub open spec fn count_verdict(s: Seq<Entailment>, v: Entailment) -> nat
    decreases s.len(),
{
    if s.len() == 0 {
        0
    } else {
        count_verdict(s.drop_last(), v) + if s.last() == v {
            1nat
        } else {
            0nat
        }
    }
}

/// Number of verdicts equal to `v`.
pub fn count_verdicts(s: &Vec<Entailment>, v: Entailment) -> (r: usize)
    ensures
        r == count_verdict(s@, v),
        r <= s@.len(),
{
    let mut n: usize = 0;
    let mut i: usize = 0;
    while i < s.len()
        invariant
            i <= s@.len(),
            n <= i,
            n == count_verdict(s@.take(i as int), v),
        decreases s.len() - i,
    {
        proof {
            assert(s@.take(i + 1).drop_last() =~= s@.take(i as int));
        }
        if s[i] == v {
            n = n + 1;
        }
        i = i + 1;
    }
    proof {
        assert(s@.take(s@.len() as int) =~= s@);
    }
    n
}

/// The closing line of the entailment summary.
pub open spec fn entailment_totals_text(s: Seq<Entailment>) -> Seq<char> {
    decimal(count_verdict(s, Entailment::Entailed)) + " entailed, "@ + decimal(
        count_verdict(s, Entailment::Unsupported),
    ) + " unsupported, "@ + decimal(count_verdict(s, Entailment::Unchecked)) + " unchecked"@
}

/// The closing line of the entailment summary (see `entailment_totals_text`).
pub fn entailment_totals(verdicts: &Vec<Entailment>) -> (r: String)
    ensures
        r@ == entailment_totals_text(verdicts@),
{
    let e = count_verdicts(verdicts, Entailment::Entailed);
    let u = count_verdicts(verdicts, Entailment::Unsupported);
    let c = count_verdicts(verdicts, Entailment::Unchecked);
    let mut out = usize_decimal(e);
    push_str_chars(&mut out, " entailed, ");
    let mut b = usize_decimal(u);
    out.append(&mut b);
    push_str_chars(&mut out, " unsupported, ");
    let mut d = usize_decimal(c);
    out.append(&mut d);
    push_str_chars(&mut out, " unchecked");
    string_of(&out)
}

} // verus!
