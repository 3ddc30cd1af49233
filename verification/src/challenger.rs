//! Findings over a set of claims: recent decisions, contradictions, stale
//! dependencies and open questions, each grouped by normalized terms and
//! ranked by how many notes support them.
use vstd::prelude::*;

use crate::claims::Claim;
use crate::order::{
    clone_strings, dedup, distinct_sorted_keys, key_list, members, members_of, opt_keys,
    push_unique, rank_order, rank_views, sorted_keys, stable_rank_order, texts, RankKey,
};
use crate::text::{
    byte_len, byte_len_of, ascii_lower_seq, ascii_lowercase, chars_of, ends_with, has_prefix, has_suffix, starts_with,
    str_eq, string_of, string_of_range, trim, trim_bounds,
};

verus! {

/// Trimmed and ASCII-lower-cased.
pub open spec fn norm_term(s: Seq<char>) -> Seq<char> {
    ascii_lower_seq(trim(s))
}

/// A term trimmed and ASCII-lower-cased.
pub fn normalize_term(value: &str) -> (r: String)
    ensures
        r@ == norm_term(value@),
{
    let v = chars_of(value);
    let (a, b) = trim_bounds(&v, 0, v.len());
    proof {
        assert(v@.subrange(0, v@.len() as int) =~= v@);
    }
    let t = string_of_range(&v, a, b);
    ascii_lowercase(t.as_str())
}

/// Predicates that record a decision being made or about to be made.
pub open spec fn recent_decision_pred(predicate: Seq<char>) -> bool {
    let p = ascii_lower_seq(predicate);
    ||| has_prefix(p, "switched_to_"@)
    ||| has_prefix(p, "switched_"@)
    ||| has_prefix(p, "decided_to_"@)
    ||| has_prefix(p, "will_switch_"@)
    ||| has_prefix(p, "planned_switch_"@)
    ||| has_prefix(p, "may_switch_"@)
    ||| has_prefix(p, "chose_"@)
    ||| has_prefix(p, "adopted_"@)
    ||| has_prefix(p, "will_use_"@)
    ||| has_prefix(p, "uses_"@)
    ||| p == "decision_candidate"@
}

/// Whether a predicate records a decision (see `recent_decision_pred`).
pub fn is_recent_decision_predicate(predicate: &str) -> (b: bool)
    ensures
        b == recent_decision_pred(predicate@),
{
    let lower = ascii_lowercase(predicate);
    let p = lower.as_str();
    starts_with(p, "switched_to_") || starts_with(p, "switched_") || starts_with(p, "decided_to_")
        || starts_with(p, "will_switch_") || starts_with(p, "planned_switch_") || starts_with(
        p,
        "may_switch_",
    ) || starts_with(p, "chose_") || starts_with(p, "adopted_") || starts_with(p, "will_use_")
        || starts_with(p, "uses_") || str_eq(p, "decision_candidate")
}

/// Predicates that record a firm decision.
pub open spec fn strong_decision_pred(predicate: Seq<char>) -> bool {
    let p = ascii_lower_seq(predicate);
    ||| p == "switched_to"@
    ||| p == "decided"@
    ||| p == "chose"@
    ||| p == "adopted"@
    ||| has_prefix(p, "switched_to_"@)
    ||| has_prefix(p, "decided_to_"@)
    ||| has_prefix(p, "chose_"@)
    ||| has_prefix(p, "adopted_"@)
    ||| has_prefix(p, "will_switch_"@)
    ||| has_prefix(p, "planned_switch_"@)
}

/// Whether a predicate records a firm decision (see `strong_decision_pred`).
pub fn is_strong_decision_predicate(predicate: &str) -> (b: bool)
    ensures
        b == strong_decision_pred(predicate@),
{
    let lower = ascii_lowercase(predicate);
    let p = lower.as_str();
    str_eq(p, "switched_to") || str_eq(p, "decided") || str_eq(p, "chose") || str_eq(p, "adopted")
        || starts_with(p, "switched_to_") || starts_with(p, "decided_to_") || starts_with(
        p,
        "chose_",
    ) || starts_with(p, "adopted_") || starts_with(p, "will_switch_") || starts_with(
        p,
        "planned_switch_",
    )
}

/// Family of an open-question predicate, by prefix.
pub open spec fn question_family(predicate: Seq<char>) -> Option<Seq<char>> {
    let p = ascii_lower_seq(predicate);
    if has_prefix(p, "decision_pending"@) {
        Some("decision_pending"@)
    } else if has_prefix(p, "design_question"@) {
        Some("design_question"@)
    } else if has_prefix(p, "decision_candidate"@) {
        Some("decision_candidate"@)
    } else if has_prefix(p, "under_review"@) {
        Some("under_review"@)
    } else if has_prefix(p, "evaluating_"@) {
        Some("evaluating"@)
    } else if has_prefix(p, "design_tension"@) {
        Some("design_tension"@)
    } else {
        None
    }
}

fn some_text(s: &str) -> (r: Option<String>)
    ensures
        r matches Some(x) && x@ == s@,
{
    Some(s.to_string())
}

/// Family of an open-question predicate (see `question_family`).
pub fn open_question_family(predicate: &str) -> (r: Option<String>)
    ensures
        match question_family(predicate@) {
            Some(f) => r matches Some(x) && x@ == f,
            None => r is None,
        },
{
    let lower = ascii_lowercase(predicate);
    let p = lower.as_str();
    if starts_with(p, "decision_pending") {
        return some_text("decision_pending");
    }
    if starts_with(p, "design_question") {
        return some_text("design_question");
    }
    if starts_with(p, "decision_candidate") {
        return some_text("decision_candidate");
    }
    if starts_with(p, "under_review") {
        return some_text("under_review");
    }
    if starts_with(p, "evaluating_") {
        return some_text("evaluating");
    }
    if starts_with(p, "design_tension") {
        return some_text("design_tension");
    }
    None
}

/// Predicates whose objects exclude each other: a subject has one language,
/// one architecture, and so on.
pub open spec fn exclusive_pred(p: Seq<char>) -> bool {
    ||| p == "uses_language"@
    ||| p == "implemented_in"@
    ||| p == "uses_architecture"@
    ||| p == "uses_worker_model"@
    ||| p == "uses_client_generator"@
    ||| p == "uses_default_provider"@
    ||| p == "runs_queue_workers_in"@
    ||| p == "language"@
    ||| p == "architecture"@
    ||| has_prefix(p, "switched_to_"@)
    ||| has_prefix(p, "decided_"@)
    ||| has_prefix(p, "chose_"@)
}

/// Whether the objects of a predicate exclude each other (see `exclusive_pred`).
pub fn is_exclusive_predicate(predicate: &str) -> (b: bool)
    ensures
        b == exclusive_pred(predicate@),
{
    let p = predicate;
    str_eq(p, "uses_language") || str_eq(p, "implemented_in") || str_eq(p, "uses_architecture")
        || str_eq(p, "uses_worker_model") || str_eq(p, "uses_client_generator") || str_eq(
        p,
        "uses_default_provider",
    ) || str_eq(p, "runs_queue_workers_in") || str_eq(p, "language") || str_eq(
        p,
        "architecture",
    ) || starts_with(p, "switched_to_") || starts_with(p, "decided_") || starts_with(p, "chose_")
}

/// Predicates whose objects add up rather than compete.
pub open spec fn additive_pred(p: Seq<char>) -> bool {
    ||| p == "appears_in"@
    ||| p == "documented_in"@
    ||| p == "affects"@
    ||| p == "feeds_into"@
    ||| p == "references"@
    ||| p == "uses_tool"@
    ||| has_prefix(p, "has_field_observation_"@)
    ||| has_prefix(p, "appears_in_"@)
    ||| has_prefix(p, "documented_in_"@)
}

/// Whether the objects of a predicate add up (see `additive_pred`).
pub fn is_additive_predicate(predicate: &str) -> (b: bool)
    ensures
        b == additive_pred(predicate@),
{
    let p = predicate;
    str_eq(p, "appears_in") || str_eq(p, "documented_in") || str_eq(p, "affects") || str_eq(
        p,
        "feeds_into",
    ) || str_eq(p, "references") || str_eq(p, "uses_tool") || starts_with(
        p,
        "has_field_observation_",
    ) || starts_with(p, "appears_in_") || starts_with(p, "documented_in_")
}

/// Family under which two claims of a predicate can contradict each other:
/// none for additive or non-exclusive predicates; language and architecture
/// predicates share a family; any other exclusive predicate is its own family.
pub open spec fn contra_family(predicate: Seq<char>) -> Option<Seq<char>> {
    let p = ascii_lower_seq(predicate);
    if additive_pred(p) || !exclusive_pred(p) {
        None
    } else if p == "uses_language"@ || p == "implemented_in"@ || p == "language"@ {
        Some("language"@)
    } else if p == "uses_architecture"@ || p == "uses_worker_model"@ || p == "architecture"@ {
        Some("architecture"@)
    } else {
        Some(p)
    }
}

/// Contradiction family of a predicate (see `contra_family`).
pub fn contradiction_family(predicate: &str) -> (r: Option<String>)
    ensures
        match contra_family(predicate@) {
            Some(f) => r matches Some(x) && x@ == f,
            None => r is None,
        },
{
    let lower = ascii_lowercase(predicate);
    let p = lower.as_str();
    if is_additive_predicate(p) {
        return None;
    }
    if !is_exclusive_predicate(p) {
        return None;
    }
    if str_eq(p, "uses_language") || str_eq(p, "implemented_in") || str_eq(p, "language") {
        return some_text("language");
    }
    if str_eq(p, "uses_architecture") || str_eq(p, "uses_worker_model") || str_eq(
        p,
        "architecture",
    ) {
        return some_text("architecture");
    }
    Some(lower)
}

/// Spaces and underscores turned into dashes.
pub open spec fn dashed(s: Seq<char>) -> Seq<char> {
    s.map_values(|c: char| if c == ' ' || c == '_' { '-' } else { c })
}

/// Runs of dashes collapsed to one dash.
pub open spec fn collapse_dashes(s: Seq<char>) -> Seq<char>
    decreases s.len(),
{
    if s.len() == 0 {
        s
    } else {
        let r = collapse_dashes(s.drop_last());
        if s.last() == '-' && r.len() > 0 && r.last() == '-' {
            r
        } else {
            r.push(s.last())
        }
    }
}

/// Number of leading dashes.
pub open spec fn lead_dashes(s: Seq<char>) -> nat
    decreases s.len(),
{
    if s.len() > 0 && s[0] == '-' {
        1 + lead_dashes(s.drop_first())
    } else {
        0
    }
}

/// Number of trailing dashes.
pub open spec fn trail_dashes(s: Seq<char>) -> nat
    decreases s.len(),
{
    if s.len() > 0 && s.last() == '-' {
        1 + trail_dashes(s.drop_last())
    } else {
        0
    }
}

/// Leading and trailing dashes removed.
pub open spec fn trim_dashes(s: Seq<char>) -> Seq<char> {
    let t = s.skip(lead_dashes(s) as int);
    t.take(t.len() - trail_dashes(t))
}

/// `suffix` removed from the end of `s` as many times as it is there.
pub open spec fn strip_all(s: Seq<char>, suffix: Seq<char>) -> Seq<char>
    decreases s.len(),
{
    if suffix.len() > 0 && s.len() >= suffix.len() && has_suffix(s, suffix) {
        strip_all(s.take(s.len() - suffix.len()), suffix)
    } else {
        s
    }
}

/// A decision object in comparable form: normalized term, spaces and
/// underscores as single dashes, no edge dashes, and the variant suffixes
/// `-templates`, `-generator`, `-default`, `-v2` removed in that order.
pub open spec fn norm_decision_object(value: Seq<char>) -> Seq<char> {
    let n = trim_dashes(collapse_dashes(dashed(norm_term(value))));
    strip_all(strip_all(strip_all(strip_all(n, "-templates"@), "-generator"@), "-default"@), "-v2"@)
}

proof fn lemma_lead_dashes(s: Seq<char>, k: int)
    requires
        0 <= k <= s.len(),
        forall|j: int| 0 <= j < k ==> s[j] == '-',
    ensures
        lead_dashes(s) == k + lead_dashes(s.skip(k)),
    decreases k,
{
    if k == 0 {
        assert(s.skip(0) =~= s);
    } else {
        lemma_lead_dashes(s.drop_first(), k - 1);
        assert(s.drop_first().skip(k - 1) =~= s.skip(k));
    }
}

proof fn lemma_trail_dashes(s: Seq<char>, j: int)
    requires
        0 <= j <= s.len(),
        forall|q: int| j <= q < s.len() ==> s[q] == '-',
    ensures
        trail_dashes(s) == (s.len() - j) + trail_dashes(s.take(j)),
    decreases s.len() - j,
{
    if j == s.len() {
        assert(s.take(j) =~= s);
    } else {
        lemma_trail_dashes(s.drop_last(), j);
        assert(s.drop_last().take(j) =~= s.take(j));
    }
}

fn strip_suffix_all(v: &Vec<char>, lo: usize, hi: usize, suffix: &str) -> (r: usize)
    requires
        lo <= hi <= v@.len(),
    ensures
        lo <= r <= hi,
        v@.subrange(lo as int, r as int) == strip_all(v@.subrange(lo as int, hi as int), suffix@),
{
    let sv = chars_of(suffix);
    let m = sv.len();
    let mut end = hi;
    while m > 0 && end - lo >= m && crate::text::matches_at(v, end - m, suffix)
        invariant
            lo <= end <= hi <= v@.len(),
            m == suffix@.len(),
            strip_all(v@.subrange(lo as int, hi as int), suffix@) == strip_all(
                v@.subrange(lo as int, end as int),
                suffix@,
            ),
        decreases end,
    {
        proof {
            let t = v@.subrange(lo as int, end as int);
            assert(t.subrange(t.len() - m, t.len() as int) =~= v@.subrange(end - m, end as int));
            assert(t.take(t.len() - m) =~= v@.subrange(lo as int, end - m));
        }
        end = end - m;
    }
    proof {
        let t = v@.subrange(lo as int, end as int);
        if m > 0 && t.len() >= m && has_suffix(t, suffix@) {
            assert(t.subrange(t.len() - m, t.len() as int) =~= v@.subrange(end - m, end as int));
        }
    }
    end
}

/// Runs of dashes collapsed and edge dashes removed.
pub fn collapse_trim_dashes(v: &Vec<char>) -> (r: Vec<char>)
    ensures
        r@ == trim_dashes(collapse_dashes(v@)),
{
    let mut c: Vec<char> = Vec::new();
    let mut i: usize = 0;
    while i < v.len()
        invariant
            i <= v@.len(),
            c@ == collapse_dashes(v@.take(i as int)),
        decreases v.len() - i,
    {
        let ch = v[i];
        proof {
            assert(v@.take(i + 1).drop_last() =~= v@.take(i as int));
        }
        if !(ch == '-' && c.len() > 0 && c[c.len() - 1] == '-') {
            c.push(ch);
        }
        i = i + 1;
    }
    proof {
        assert(v@.take(v@.len() as int) =~= v@);
    }
    let mut a: usize = 0;
    while a < c.len() && c[a] == '-'
        invariant
            a <= c@.len(),
            forall|j: int| 0 <= j < a ==> c@[j] == '-',
        decreases c.len() - a,
    {
        a = a + 1;
    }
    proof {
        lemma_lead_dashes(c@, a as int);
        if a < c@.len() {
            assert(c@.skip(a as int)[0] == c@[a as int]);
        }
        assert(lead_dashes(c@.skip(a as int)) == 0);
    }
    let mut b: usize = c.len();
    while b > a && c[b - 1] == '-'
        invariant
            a <= b <= c@.len(),
            forall|j: int| b <= j < c@.len() ==> c@[j] == '-',
        decreases b,
    {
        b = b - 1;
    }
    proof {
        let t = c@.skip(a as int);
        lemma_trail_dashes(t, b - a);
        assert(t.take(b - a) =~= c@.subrange(a as int, b as int));
        if b > a {
            assert(t.take(b - a).last() == c@[b - 1]);
        }
        assert(trail_dashes(t.take(b - a)) == 0);
        assert(trim_dashes(c@) =~= c@.subrange(a as int, b as int));
    }
    let mut out: Vec<char> = Vec::new();
    let mut k = a;
    while k < b
        invariant
            a <= k <= b <= c@.len(),
            out@ == c@.subrange(a as int, k as int),
        decreases b - k,
    {
        out.push(c[k]);
        k = k + 1;
        proof {
            assert(out@ =~= c@.subrange(a as int, k as int));
        }
    }
    out
}

/// A decision object in comparable form (see `norm_decision_object`).
pub fn normalize_decision_object(value: &str) -> (r: String)
    ensures
        r@ == norm_decision_object(value@),
{
    let term = normalize_term(value);
    let v = chars_of(term.as_str());
    let mut d: Vec<char> = Vec::new();
    let mut i: usize = 0;
    while i < v.len()
        invariant
            i <= v@.len(),
            d@ == dashed(v@).take(i as int),
        decreases v.len() - i,
    {
        d.push(if v[i] == ' ' || v[i] == '_' {
            '-'
        } else {
            v[i]
        });
        i = i + 1;
        proof {
            assert(d@ =~= dashed(v@).take(i as int));
        }
    }
    proof {
        assert(dashed(v@).take(v@.len() as int) =~= dashed(v@));
    }
    let c = collapse_trim_dashes(&d);
    let e1 = strip_suffix_all(&c, 0, c.len(), "-templates");
    let e2 = strip_suffix_all(&c, 0, e1, "-generator");
    let e3 = strip_suffix_all(&c, 0, e2, "-default");
    let e4 = strip_suffix_all(&c, 0, e3, "-v2");
    proof {
        assert(c@.subrange(0, c@.len() as int) =~= c@);
    }
    string_of_range(&c, 0, e4)
}

/// Normalized objects of the claims that have one, in order.
pub open spec fn object_terms(entries: Seq<Claim>) -> Seq<Seq<char>>
    decreases entries.len(),
{
    if entries.len() == 0 {
        Seq::empty()
    } else {
        let r = object_terms(entries.drop_last());
        match entries.last().object {
            Some(o) => r.push(norm_term(o@)),
            None => r,
        }
    }
}

/// Occurrences of `x` in `s`.
pub open spec fn count_of(s: Seq<Seq<char>>, x: Seq<char>) -> nat
    decreases s.len(),
{
    if s.len() == 0 {
        0
    } else {
        count_of(s.drop_last(), x) + if s.last() == x {
            1nat
        } else {
            0nat
        }
    }
}

/// `a` is a better representative than `b`: more frequent, then longer in bytes.
pub open spec fn beats(s: Seq<Seq<char>>, a: Seq<char>, b: Seq<char>) -> bool {
    count_of(s, a) > count_of(s, b) || (count_of(s, a) == count_of(s, b) && byte_len(a) > byte_len(
        b,
    ))
}

/// The first of `s[..n]` that nothing later beats.
pub open spec fn best_term(s: Seq<Seq<char>>, n: int) -> Seq<char>
    decreases n,
{
    if n <= 1 {
        s[0]
    } else {
        let b = best_term(s, n - 1);
        if beats(s, s[n - 1], b) {
            s[n - 1]
        } else {
            b
        }
    }
}

/// The object a group of claims agrees on: its most frequent normalized
/// object, the longest (in bytes) among equally frequent ones, or `(unary)`.
pub open spec fn canonical_object(entries: Seq<Claim>) -> Seq<char> {
    let t = object_terms(entries);
    if t.len() == 0 {
        "(unary)"@
    } else {
        best_term(t, t.len() as int)
    }
}

proof fn lemma_best_term(s: Seq<Seq<char>>, n: int)
    requires
        1 <= n <= s.len(),
    ensures
        s.take(n).contains(best_term(s, n)),
        forall|j: int| 0 <= j < n ==> !beats(s, #[trigger] s[j], best_term(s, n)),
    decreases n,
{
    if n == 1 {
        assert(s.take(1)[0] == s[0]);
    } else {
        lemma_best_term(s, n - 1);
        let b = best_term(s, n - 1);
        let w = choose|w: int| 0 <= w < s.take(n - 1).len() && #[trigger] s.take(n - 1)[w] == b;
        assert(s.take(n)[w] == b);
        assert(s.take(n)[n - 1] == s[n - 1]);
    }
}

/// The claims at the given positions.
pub open spec fn picked(claims: Seq<Claim>, idx: Seq<usize>) -> Seq<Claim> {
    idx.map_values(|i: usize| claims[i as int])
}

/// The object a group of claims agrees on (see `canonical_object`); nothing
/// in the group is more frequent, or as frequent and longer.
pub fn canonical_decision_object(claims: &Vec<Claim>, idx: &Vec<usize>) -> (r: String)
    requires
        forall|j: int| 0 <= j < idx@.len() ==> idx@[j] < claims@.len(),
    ensures
        r@ == canonical_object(picked(claims@, idx@)),
        ({
            let t = object_terms(picked(claims@, idx@));
            t.len() > 0 ==> t.contains(r@) && forall|j: int| 0 <= j < t.len() ==> !beats(t, #[trigger] t[j], r@)
        }),
{
    let ghost entries = picked(claims@, idx@);
    let mut terms: Vec<String> = Vec::new();
    let mut i: usize = 0;
    while i < idx.len()
        invariant
            i <= idx@.len(),
            forall|j: int| 0 <= j < idx@.len() ==> idx@[j] < claims@.len(),
            entries == picked(claims@, idx@),
            texts(terms@) == object_terms(entries.take(i as int)),
        decreases idx.len() - i,
    {
        let c = &claims[idx[i]];
        proof {
            assert(entries.take(i + 1).drop_last() =~= entries.take(i as int));
            assert(entries.take(i + 1).last() == *c);
        }
        match &c.object {
            Some(o) => {
                let t = normalize_term(o.as_str());
                let ghost before = terms@;
                terms.push(t);
                proof {
                    assert(texts(terms@) =~= texts(before).push(norm_term(o@)));
                }
            },
            None => {},
        }
        i = i + 1;
    }
    proof {
        assert(entries.take(idx@.len() as int) =~= entries);
    }
    let ghost t = texts(terms@);
    if terms.len() == 0 {
        return "(unary)".to_string();
    }
    // Occurrence counts.
    let mut counts: Vec<usize> = Vec::new();
    let mut a: usize = 0;
    while a < terms.len()
        invariant
            a <= terms@.len(),
            t == texts(terms@),
            counts@.len() == a,
            forall|j: int| 0 <= j < a ==> #[trigger] counts@[j] == count_of(t, t[j]),
        decreases terms.len() - a,
    {
        let mut n: usize = 0;
        let mut b: usize = 0;
        while b < terms.len()
            invariant
                b <= terms@.len(),
                a < terms@.len(),
                t == texts(terms@),
                n == count_of(t.take(b as int), t[a as int]),
                n <= b,
            decreases terms.len() - b,
        {
            proof {
                assert(t.take(b + 1).drop_last() =~= t.take(b as int));
            }
            if str_eq(terms[b].as_str(), terms[a].as_str()) {
                n = n + 1;
            }
            b = b + 1;
        }
        proof {
            assert(t.take(terms@.len() as int) =~= t);
        }
        counts.push(n);
        a = a + 1;
    }
    let mut best: usize = 0;
    let mut k: usize = 1;
    while k < terms.len()
        invariant
            1 <= k <= terms@.len(),
            best < k,
            t == texts(terms@),
            counts@.len() == terms@.len(),
            forall|j: int| 0 <= j < terms@.len() ==> #[trigger] counts@[j] == count_of(t, t[j]),
            t[best as int] == best_term(t, k as int),
        decreases terms.len() - k,
    {
        let ck = counts[k];
        let cb = counts[best];
        let lk = byte_len_of(terms[k].as_str());
        let lb = byte_len_of(terms[best].as_str());
        if ck > cb || (ck == cb && lk > lb) {
            best = k;
        }
        k = k + 1;
    }
    proof {
        lemma_best_term(t, t.len() as int);
        assert(t.take(t.len() as int) =~= t);
    }
    terms[best].clone()
}

/// Note ids of a group of claims, first seen first, without repeats.
pub open spec fn note_ids_of(entries: Seq<Claim>) -> Seq<Seq<char>> {
    dedup(entries.map_values(|c: Claim| c.note_id@))
}

/// Claim ids of a group of claims, first seen first, without repeats.
pub open spec fn claim_ids_of(entries: Seq<Claim>) -> Seq<Seq<char>> {
    dedup(entries.map_values(|c: Claim| c.id@))
}

/// Note ids of the claims at the given positions, first seen first.
pub fn unique_note_ids(claims: &Vec<Claim>, idx: &Vec<usize>) -> (r: Vec<String>)
    requires
        forall|j: int| 0 <= j < idx@.len() ==> idx@[j] < claims@.len(),
    ensures
        texts(r@) == note_ids_of(picked(claims@, idx@)),
{
    let ghost entries = picked(claims@, idx@);
    let mut out: Vec<String> = Vec::new();
    let mut i: usize = 0;
    while i < idx.len()
        invariant
            i <= idx@.len(),
            forall|j: int| 0 <= j < idx@.len() ==> idx@[j] < claims@.len(),
            entries == picked(claims@, idx@),
            texts(out@) == dedup(entries.take(i as int).map_values(|c: Claim| c.note_id@)),
        decreases idx.len() - i,
    {
        proof {
            assert(entries.take(i + 1).map_values(|c: Claim| c.note_id@).drop_last() =~= entries.take(
                i as int,
            ).map_values(|c: Claim| c.note_id@));
        }
        push_unique(&mut out, &claims[idx[i]].note_id);
        i = i + 1;
    }
    proof {
        assert(entries.take(idx@.len() as int) =~= entries);
    }
    out
}

/// Claim ids of the claims at the given positions, first seen first.
pub fn unique_claim_ids(claims: &Vec<Claim>, idx: &Vec<usize>) -> (r: Vec<String>)
    requires
        forall|j: int| 0 <= j < idx@.len() ==> idx@[j] < claims@.len(),
    ensures
        texts(r@) == claim_ids_of(picked(claims@, idx@)),
{
    let ghost entries = picked(claims@, idx@);
    let mut out: Vec<String> = Vec::new();
    let mut i: usize = 0;
    while i < idx.len()
        invariant
            i <= idx@.len(),
            forall|j: int| 0 <= j < idx@.len() ==> idx@[j] < claims@.len(),
            entries == picked(claims@, idx@),
            texts(out@) == dedup(entries.take(i as int).map_values(|c: Claim| c.id@)),
        decreases idx.len() - i,
    {
        proof {
            assert(entries.take(i + 1).map_values(|c: Claim| c.id@).drop_last() =~= entries.take(
                i as int,
            ).map_values(|c: Claim| c.id@));
        }
        push_unique(&mut out, &claims[idx[i]].id);
        i = i + 1;
    }
    proof {
        assert(entries.take(idx@.len() as int) =~= entries);
    }
    out
}

/// A decision that one or more notes record.
#[derive(Debug, Clone)]
pub struct Decision {
    pub subject: String,
    pub object: String,
    pub source_note_ids: Vec<String>,
    pub supporting_claim_ids: Vec<String>,
}

/// Two notes disagreeing on an exclusive fact about a subject.
#[derive(Debug, Clone)]
pub struct Contradiction {
    pub subject: String,
    pub family: String,
    pub left_object: String,
    pub right_object: String,
    pub left_source_note_ids: Vec<String>,
    pub right_source_note_ids: Vec<String>,
    pub left_claim_ids: Vec<String>,
    pub right_claim_ids: Vec<String>,
}

/// A subject that depends on something since superseded.
#[derive(Debug, Clone)]
pub struct StaleDep {
    pub dependent_subject: String,
    pub stale_subject: String,
    pub superseded_by: String,
    pub depends_on_source_note_ids: Vec<String>,
    pub superseded_source_note_ids: Vec<String>,
    pub depends_on_claim_ids: Vec<String>,
    pub superseded_claim_ids: Vec<String>,
}

/// A question still open about a subject.
#[derive(Debug, Clone)]
pub struct OpenQuestion {
    pub subject: String,
    pub family: String,
    pub object: String,
    pub source_note_ids: Vec<String>,
    pub supporting_claim_ids: Vec<String>,
}

/// Claims grouped under key `k`, in input order.
pub open spec fn group_of(
    claims: Seq<Claim>,
    keys: Seq<Option<Seq<Seq<char>>>>,
    k: Seq<Seq<char>>,
) -> Seq<Claim> {
    members(keys, k, claims.len() as int).map_values(|i: int| claims[i])
}

pub(crate) fn keys_of_members(claims: &Vec<Claim>, keys: &Vec<Option<Vec<String>>>, k: &Vec<String>) -> (r: Vec<usize>)
    requires
        keys@.len() == claims@.len(),
    ensures
        picked(claims@, r@) == group_of(claims@, opt_keys(keys@), texts(k@)),
        forall|j: int| 0 <= j < r@.len() ==> r@[j] < claims@.len(),
        r@.len() <= claims@.len(),
{
    let r = members_of(keys, k);
    proof {
        assert(picked(claims@, r@) =~= group_of(claims@, opt_keys(keys@), texts(k@)));
        crate::order::lemma_members_len(opt_keys(keys@), texts(k@), keys@.len() as int);
    }
    r
}

/// The grouping key of a claim for decisions: its normalized subject and
/// decision object, for decision predicates with a non-empty object.
pub open spec fn decision_key(c: Claim) -> Option<Seq<Seq<char>>> {
    match c.object {
        Some(o) => if recent_decision_pred(c.predicate@) && norm_decision_object(o@).len() > 0 {
            Some(seq![norm_term(c.subject@), norm_decision_object(o@)])
        } else {
            None
        },
        None => None,
    }
}

/// Decision keys of all claims.
pub open spec fn decision_keys(claims: Seq<Claim>) -> Seq<Option<Seq<Seq<char>>>> {
    claims.map_values(|c: Claim| decision_key(c))
}

/// A decision as plain values: subject, object, source notes, supporting claims.
pub open spec fn decision_view(d: Decision) -> (Seq<char>, Seq<char>, Seq<Seq<char>>, Seq<Seq<char>>) {
    (d.subject@, d.object@, texts(d.source_note_ids@), texts(d.supporting_claim_ids@))
}

/// The decision recorded under key `k`, if its support is enough: two
/// distinct claims, or one firm decision predicate.
pub open spec fn decision_for(claims: Seq<Claim>, k: Seq<Seq<char>>) -> Option<
    (Seq<char>, Seq<char>, Seq<Seq<char>>, Seq<Seq<char>>),
> {
    let entries = group_of(claims, decision_keys(claims), k);
    let ids = claim_ids_of(entries);
    if ids.len() < 2 && !(exists|j: int|
        0 <= j < entries.len() && strong_decision_pred(#[trigger] entries[j].predicate@)) {
        None
    } else {
        Some((k[0], canonical_object(entries), note_ids_of(entries), ids))
    }
}

/// Decisions for the first `n` keys, in key order.
pub open spec fn decision_candidates(claims: Seq<Claim>, ks: Seq<Seq<Seq<char>>>, n: int) -> Seq<
    (Seq<char>, Seq<char>, Seq<Seq<char>>, Seq<Seq<char>>),
>
    decreases n,
{
    if n <= 0 {
        Seq::empty()
    } else {
        let prev = decision_candidates(claims, ks, n - 1);
        match decision_for(claims, ks[n - 1]) {
            Some(d) => prev.push(d),
            None => prev,
        }
    }
}

/// Recent decisions: one per (subject, decision object) with enough support,
/// ranked by number of source notes (most first), then subject, then object.
pub open spec fn recent_decisions(claims: Seq<Claim>) -> Seq<
    (Seq<char>, Seq<char>, Seq<Seq<char>>, Seq<Seq<char>>),
> {
    let ks = sorted_keys(decision_keys(claims), claims.len() as int);
    let cands = decision_candidates(claims, ks, ks.len() as int);
    let ranks = cands.map_values(
        |d: (Seq<char>, Seq<char>, Seq<Seq<char>>, Seq<Seq<char>>)| (d.2.len() as int, d.0, d.1),
    );
    rank_order(ranks, cands.len() as int).map_values(|j: int| cands[j])
}

fn decision_key_of(c: &Claim) -> (r: Option<Vec<String>>)
    ensures
        crate::order::opt_key(r) == decision_key(*c),
{
    match &c.object {
        None => None,
        Some(o) => {
            if !is_recent_decision_predicate(c.predicate.as_str()) {
                return None;
            }
            let obj = normalize_decision_object(o.as_str());
            if obj.as_str().is_empty() {
                return None;
            }
            let mut k: Vec<String> = Vec::new();
            k.push(normalize_term(c.subject.as_str()));
            k.push(obj);
            proof {
                assert(texts(k@) =~= seq![norm_term(c.subject@), norm_decision_object(o@)]);
            }
            Some(k)
        },
    }
}

pub(crate) fn clone_decision(d: &Decision) -> (r: Decision)
    ensures
        decision_view(r) == decision_view(*d),
{
    Decision {
        subject: d.subject.clone(),
        object: d.object.clone(),
        source_note_ids: clone_strings(&d.source_note_ids),
        supporting_claim_ids: clone_strings(&d.supporting_claim_ids),
    }
}

fn any_strong(claims: &Vec<Claim>, idx: &Vec<usize>) -> (b: bool)
    requires
        forall|j: int| 0 <= j < idx@.len() ==> idx@[j] < claims@.len(),
    ensures
        b == exists|j: int|
            0 <= j < picked(claims@, idx@).len() && strong_decision_pred(
                #[trigger] picked(claims@, idx@)[j].predicate@,
            ),
{
    let ghost e = picked(claims@, idx@);
    let mut i: usize = 0;
    while i < idx.len()
        invariant
            i <= idx@.len(),
            e == picked(claims@, idx@),
            forall|j: int| 0 <= j < idx@.len() ==> idx@[j] < claims@.len(),
            forall|j: int| 0 <= j < i ==> !strong_decision_pred(#[trigger] e[j].predicate@),
        decreases idx.len() - i,
    {
        if is_strong_decision_predicate(claims[idx[i]].predicate.as_str()) {
            assert(e[i as int] == claims@[idx@[i as int] as int]);
            return true;
        }
        i = i + 1;
    }
    false
}

fn decision_keys_of(claims: &Vec<Claim>) -> (keys: Vec<Option<Vec<String>>>)
    ensures
        opt_keys(keys@) == decision_keys(claims@),
        keys@.len() == claims@.len(),
{
    let mut keys: Vec<Option<Vec<String>>> = Vec::new();
    let mut i: usize = 0;
    while i < claims.len()
        invariant
            i <= claims@.len(),
            keys@.len() == i,
            forall|j: int| 0 <= j < i ==> crate::order::opt_key(#[trigger] keys@[j]) == decision_key(claims@[j]),
        decreases claims.len() - i,
    {
        let k = decision_key_of(&claims[i]);
        keys.push(k);
        i = i + 1;
    }
    assert(opt_keys(keys@) =~= decision_keys(claims@));
    keys
}

/// Recent decisions found in `claims` (see `recent_decisions`).
pub fn detect_recent_decisions(claims: &Vec<Claim>) -> (out: Vec<Decision>)
    ensures
        out@.map_values(|d: Decision| decision_view(d)) == recent_decisions(claims@),
{
    let keys = decision_keys_of(claims);
    let ks = distinct_sorted_keys(&keys);
    let ghost kl = key_list(ks@);
    let mut cands: Vec<Decision> = Vec::new();
    let mut ranks: Vec<RankKey> = Vec::new();
    let mut g: usize = 0;
    while g < ks.len()
        invariant
            g <= ks@.len(),
            keys@.len() == claims@.len(),
            opt_keys(keys@) == decision_keys(claims@),
            kl == key_list(ks@),
            kl == sorted_keys(decision_keys(claims@), claims@.len() as int),
            cands@.map_values(|d: Decision| decision_view(d)) == decision_candidates(claims@, kl, g as int),
            ranks@.len() == cands@.len(),
            forall|j: int|
                0 <= j < ranks@.len() ==> crate::order::rank_view(#[trigger] ranks@[j]) == (
                    texts(cands@[j].source_note_ids@).len() as int,
                    cands@[j].subject@,
                    cands@[j].object@,
                ),
        decreases ks.len() - g,
    {
        let k = &ks[g];
        let idx = keys_of_members(claims, &keys, k);
        let ghost entries = picked(claims@, idx@);
        let ids = unique_claim_ids(claims, &idx);
        let strong = any_strong(claims, &idx);
        let ghost before = cands@;
        proof {
            assert(kl[g as int] == texts(k@));
        }
        if ids.len() >= 2 || strong {
            let object = canonical_decision_object(claims, &idx);
            let notes = unique_note_ids(claims, &idx);
            proof {
                assert forall|i: int|
                    0 <= i < claims@.len() && (#[trigger] decision_keys(claims@)[i]) is Some implies decision_keys(
                    claims@,
                )[i]->0.len() == 2 by {
                    assert(decision_keys(claims@)[i] == decision_key(claims@[i]));
                }
                crate::order::lemma_sorted_keys_len(
                    decision_keys(claims@),
                    claims@.len() as int,
                    2,
                    g as int,
                );
                assert(texts(k@).len() == 2);
            }
            let subject = k[0].clone();
            let count = notes.len();
            ranks.push(RankKey { count, first: subject.clone(), second: object.clone() });
            cands.push(
                Decision { subject, object, source_note_ids: notes, supporting_claim_ids: ids },
            );
            proof {
                assert(cands@.map_values(|d: Decision| decision_view(d)) =~= before.map_values(
                    |d: Decision| decision_view(d),
                ).push(decision_for(claims@, kl[g as int])->0));
            }
        } else {
            proof {
                assert(decision_for(claims@, kl[g as int]) is None);
            }
        }
        g = g + 1;
    }
    let order = stable_rank_order(&ranks);
    let ghost cv = cands@.map_values(|d: Decision| decision_view(d));
    proof {
        assert(rank_views(ranks@) =~= cv.map_values(
            |d: (Seq<char>, Seq<char>, Seq<Seq<char>>, Seq<Seq<char>>)| (d.2.len() as int, d.0, d.1),
        ));
    }
    let mut out: Vec<Decision> = Vec::new();
    let mut i: usize = 0;
    while i < order.len()
        invariant
            i <= order@.len(),
            order@.len() == ranks@.len(),
            ranks@.len() == cands@.len(),
            cv == cands@.map_values(|d: Decision| decision_view(d)),
            forall|j: int|
                0 <= j < order@.len() ==> #[trigger] order@[j] == rank_order(rank_views(ranks@), ranks@.len() as int)[j]
                    && order@[j] < ranks@.len(),
            out@.len() == i,
            forall|j: int| 0 <= j < i ==> decision_view(#[trigger] out@[j]) == cv[order@[j] as int],
        decreases order.len() - i,
    {
        let d = clone_decision(&cands[order[i]]);
        out.push(d);
        i = i + 1;
    }
    proof {
        assert(out@.map_values(|d: Decision| decision_view(d)) =~= recent_decisions(claims@));
    }
    out
}

/// The grouping key of a claim for open questions: normalized subject,
/// question family, and normalized object (`(unary)` when absent).
pub open spec fn question_key(c: Claim) -> Option<Seq<Seq<char>>> {
    match question_family(c.predicate@) {
        Some(f) => Some(
            seq![
                norm_term(c.subject@),
                f,
                norm_term(
                    match c.object {
                        Some(o) => o@,
                        None => "(unary)"@,
                    },
                ),
            ],
        ),
        None => None,
    }
}

/// Open-question keys of all claims.
pub open spec fn question_keys(claims: Seq<Claim>) -> Seq<Option<Seq<Seq<char>>>> {
    claims.map_values(|c: Claim| question_key(c))
}

/// An open question as plain values.
pub open spec fn question_view(q: OpenQuestion) -> (
    Seq<char>,
    Seq<char>,
    Seq<char>,
    Seq<Seq<char>>,
    Seq<Seq<char>>,
) {
    (q.subject@, q.family@, q.object@, texts(q.source_note_ids@), texts(q.supporting_claim_ids@))
}

/// Open questions for the first `n` keys, in key order.
pub open spec fn question_candidates(claims: Seq<Claim>, ks: Seq<Seq<Seq<char>>>, n: int) -> Seq<
    (Seq<char>, Seq<char>, Seq<char>, Seq<Seq<char>>, Seq<Seq<char>>),
>
    decreases n,
{
    if n <= 0 {
        Seq::empty()
    } else {
        let k = ks[n - 1];
        let entries = group_of(claims, question_keys(claims), k);
        question_candidates(claims, ks, n - 1).push(
            (k[0], k[1], k[2], note_ids_of(entries), claim_ids_of(entries)),
        )
    }
}

/// Open questions: one per (subject, family, object), ranked by number of
/// source notes (most first), then subject, then object.
pub open spec fn open_questions(claims: Seq<Claim>) -> Seq<
    (Seq<char>, Seq<char>, Seq<char>, Seq<Seq<char>>, Seq<Seq<char>>),
> {
    let ks = sorted_keys(question_keys(claims), claims.len() as int);
    let cands = question_candidates(claims, ks, ks.len() as int);
    let ranks = cands.map_values(
        |q: (Seq<char>, Seq<char>, Seq<char>, Seq<Seq<char>>, Seq<Seq<char>>)|
            (q.3.len() as int, q.0, q.2),
    );
    rank_order(ranks, cands.len() as int).map_values(|j: int| cands[j])
}

fn question_key_of(c: &Claim) -> (r: Option<Vec<String>>)
    ensures
        crate::order::opt_key(r) == question_key(*c),
{
    match open_question_family(c.predicate.as_str()) {
        None => None,
        Some(f) => {
            let obj = match &c.object {
                Some(o) => normalize_term(o.as_str()),
                None => normalize_term("(unary)"),
            };
            let mut k: Vec<String> = Vec::new();
            k.push(normalize_term(c.subject.as_str()));
            k.push(f);
            k.push(obj);
            proof {
                assert(texts(k@) =~= question_key(*c)->0);
            }
            Some(k)
        },
    }
}

fn question_keys_of(claims: &Vec<Claim>) -> (keys: Vec<Option<Vec<String>>>)
    ensures
        opt_keys(keys@) == question_keys(claims@),
        keys@.len() == claims@.len(),
{
    let mut keys: Vec<Option<Vec<String>>> = Vec::new();
    let mut i: usize = 0;
    while i < claims.len()
        invariant
            i <= claims@.len(),
            keys@.len() == i,
            forall|j: int| 0 <= j < i ==> crate::order::opt_key(#[trigger] keys@[j]) == question_key(claims@[j]),
        decreases claims.len() - i,
    {
        let k = question_key_of(&claims[i]);
        keys.push(k);
        i = i + 1;
    }
    assert(opt_keys(keys@) =~= question_keys(claims@));
    keys
}

pub(crate) fn clone_question(q: &OpenQuestion) -> (r: OpenQuestion)
    ensures
        question_view(r) == question_view(*q),
{
    OpenQuestion {
        subject: q.subject.clone(),
        family: q.family.clone(),
        object: q.object.clone(),
        source_note_ids: clone_strings(&q.source_note_ids),
        supporting_claim_ids: clone_strings(&q.supporting_claim_ids),
    }
}

/// Open questions found in `claims` (see `open_questions`).
pub fn detect_open_questions(claims: &Vec<Claim>) -> (out: Vec<OpenQuestion>)
    ensures
        out@.map_values(|q: OpenQuestion| question_view(q)) == open_questions(claims@),
{
    let keys = question_keys_of(claims);
    let ks = distinct_sorted_keys(&keys);
    let ghost kl = key_list(ks@);
    proof {
        assert forall|i: int|
            0 <= i < claims@.len() && (#[trigger] question_keys(claims@)[i]) is Some implies question_keys(
            claims@,
        )[i]->0.len() == 3 by {
            assert(question_keys(claims@)[i] == question_key(claims@[i]));
        }
    }
    let mut cands: Vec<OpenQuestion> = Vec::new();
    let mut ranks: Vec<RankKey> = Vec::new();
    let mut g: usize = 0;
    while g < ks.len()
        invariant
            g <= ks@.len(),
            keys@.len() == claims@.len(),
            opt_keys(keys@) == question_keys(claims@),
            kl == key_list(ks@),
            kl == sorted_keys(question_keys(claims@), claims@.len() as int),
            forall|i: int|
                0 <= i < claims@.len() && (#[trigger] question_keys(claims@)[i]) is Some ==> question_keys(
                    claims@,
                )[i]->0.len() == 3,
            cands@.map_values(|q: OpenQuestion| question_view(q)) == question_candidates(claims@, kl, g as int),
            ranks@.len() == cands@.len(),
            forall|j: int|
                0 <= j < ranks@.len() ==> crate::order::rank_view(#[trigger] ranks@[j]) == (
                    texts(cands@[j].source_note_ids@).len() as int,
                    cands@[j].subject@,
                    cands@[j].object@,
                ),
        decreases ks.len() - g,
    {
        let k = &ks[g];
        proof {
            assert(kl[g as int] == texts(k@));
            crate::order::lemma_sorted_keys_len(question_keys(claims@), claims@.len() as int, 3, g as int);
            assert(texts(k@).len() == 3);
        }
        let idx = keys_of_members(claims, &keys, k);
        let ids = unique_claim_ids(claims, &idx);
        let notes = unique_note_ids(claims, &idx);
        let ghost before = cands@;
        let count = notes.len();
        ranks.push(RankKey { count, first: k[0].clone(), second: k[2].clone() });
        cands.push(
            OpenQuestion {
                subject: k[0].clone(),
                family: k[1].clone(),
                object: k[2].clone(),
                source_note_ids: notes,
                supporting_claim_ids: ids,
            },
        );
        proof {
            assert(cands@.map_values(|q: OpenQuestion| question_view(q)) =~= before.map_values(
                |q: OpenQuestion| question_view(q),
            ).push(question_candidates(claims@, kl, g + 1).last()));
        }
        g = g + 1;
    }
    let order = stable_rank_order(&ranks);
    let ghost cv = cands@.map_values(|q: OpenQuestion| question_view(q));
    proof {
        assert(rank_views(ranks@) =~= cv.map_values(
            |q: (Seq<char>, Seq<char>, Seq<char>, Seq<Seq<char>>, Seq<Seq<char>>)|
                (q.3.len() as int, q.0, q.2),
        ));
    }
    let mut out: Vec<OpenQuestion> = Vec::new();
    let mut i: usize = 0;
    while i < order.len()
        invariant
            i <= order@.len(),
            order@.len() == ranks@.len(),
            ranks@.len() == cands@.len(),
            cv == cands@.map_values(|q: OpenQuestion| question_view(q)),
            forall|j: int|
                0 <= j < order@.len() ==> #[trigger] order@[j] == rank_order(rank_views(ranks@), ranks@.len() as int)[j]
                    && order@[j] < ranks@.len(),
            out@.len() == i,
            forall|j: int| 0 <= j < i ==> question_view(#[trigger] out@[j]) == cv[order@[j] as int],
        decreases order.len() - i,
    {
        let q = clone_question(&cands[order[i]]);
        out.push(q);
        i = i + 1;
    }
    proof {
        assert(out@.map_values(|q: OpenQuestion| question_view(q)) =~= open_questions(claims@));
    }
    out
}

/// The grouping key of a claim for contradictions: normalized subject,
/// contradiction family and decision object.
pub open spec fn contra_key(c: Claim) -> Option<Seq<Seq<char>>> {
    match contra_family(c.predicate@) {
        Some(f) => match c.object {
            Some(o) => if norm_decision_object(o@).len() > 0 {
                Some(seq![norm_term(c.subject@), f, norm_decision_object(o@)])
            } else {
                None
            },
            None => None,
        },
        None => None,
    }
}

/// Contradiction keys of all claims.
pub open spec fn contra_keys(claims: Seq<Claim>) -> Seq<Option<Seq<Seq<char>>>> {
    claims.map_values(|c: Claim| contra_key(c))
}

/// A contradiction as plain values.
pub open spec fn contradiction_view(c: Contradiction) -> (Seq<char>, Seq<char>, Seq<char>, Seq<char>, Seq<Seq<char>>, Seq<Seq<char>>, Seq<Seq<char>>, Seq<Seq<char>>) {
    (
        c.subject@,
        c.family@,
        c.left_object@,
        c.right_object@,
        texts(c.left_source_note_ids@),
        texts(c.right_source_note_ids@),
        texts(c.left_claim_ids@),
        texts(c.right_claim_ids@),
    )
}

/// The contradiction between the object groups under keys `ka` and `kb`
/// (same subject and family, different objects), if both have sources.
pub open spec fn contradiction_for(claims: Seq<Claim>, ka: Seq<Seq<char>>, kb: Seq<Seq<char>>) -> Option<(Seq<char>, Seq<char>, Seq<char>, Seq<char>, Seq<Seq<char>>, Seq<Seq<char>>, Seq<Seq<char>>, Seq<Seq<char>>)> {
    let left = group_of(claims, contra_keys(claims), ka);
    let right = group_of(claims, contra_keys(claims), kb);
    if note_ids_of(left).len() == 0 || note_ids_of(right).len() == 0 {
        None
    } else {
        Some(
            (
                ka[0],
                ka[1],
                canonical_object(left),
                canonical_object(right),
                note_ids_of(left),
                note_ids_of(right),
                claim_ids_of(left),
                claim_ids_of(right),
            ),
        )
    }
}

/// Two keys share subject and family.
pub open spec fn same_topic(a: Seq<Seq<char>>, b: Seq<Seq<char>>) -> bool {
    a[0] == b[0] && a[1] == b[1]
}

/// Contradictions pairing key `a` with the keys after it below `b`.
pub open spec fn contradiction_row(claims: Seq<Claim>, ks: Seq<Seq<Seq<char>>>, a: int, b: int) -> Seq<(Seq<char>, Seq<char>, Seq<char>, Seq<char>, Seq<Seq<char>>, Seq<Seq<char>>, Seq<Seq<char>>, Seq<Seq<char>>)>
    decreases b - a,
{
    if b <= a + 1 {
        Seq::empty()
    } else {
        let prev = contradiction_row(claims, ks, a, b - 1);
        if same_topic(ks[a], ks[b - 1]) {
            match contradiction_for(claims, ks[a], ks[b - 1]) {
                Some(v) => prev.push(v),
                None => prev,
            }
        } else {
            prev
        }
    }
}

/// Contradictions for the pairs whose first key is below `a`, pair by pair.
pub open spec fn contradiction_pairs(claims: Seq<Claim>, ks: Seq<Seq<Seq<char>>>, a: int) -> Seq<(Seq<char>, Seq<char>, Seq<char>, Seq<char>, Seq<Seq<char>>, Seq<Seq<char>>, Seq<Seq<char>>, Seq<Seq<char>>)>
    decreases a,
{
    if a <= 0 {
        Seq::empty()
    } else {
        contradiction_pairs(claims, ks, a - 1) + contradiction_row(claims, ks, a - 1, ks.len() as int)
    }
}

/// Contradictions: every pair of different decision objects recorded for the
/// same subject and family, ranked by total source notes (most first), then
/// subject, then family.
pub open spec fn contradictions(claims: Seq<Claim>) -> Seq<(Seq<char>, Seq<char>, Seq<char>, Seq<char>, Seq<Seq<char>>, Seq<Seq<char>>, Seq<Seq<char>>, Seq<Seq<char>>)> {
    let ks = sorted_keys(contra_keys(claims), claims.len() as int);
    let cands = contradiction_pairs(claims, ks, ks.len() as int);
    let ranks = cands.map_values(|c: (Seq<char>, Seq<char>, Seq<char>, Seq<char>, Seq<Seq<char>>, Seq<Seq<char>>, Seq<Seq<char>>, Seq<Seq<char>>)| ((c.4.len() + c.5.len()) as int, c.0, c.1));
    rank_order(ranks, cands.len() as int).map_values(|j: int| cands[j])
}

/// The (lower-case) predicate `p` belongs to contradiction family `family`:
/// the language predicates share the family "language", the architecture
/// predicates the family "architecture", and each other predicate whose
/// objects exclude each other is a family of its own.
pub open spec fn family_member(family: Seq<char>, p: Seq<char>) -> bool {
    ||| family == "language"@ && (p == "uses_language"@ || p == "implemented_in"@ || p == "language"@)
    ||| family == "architecture"@ && (p == "uses_architecture"@ || p == "uses_worker_model"@ || p
        == "architecture"@)
    ||| family == p && (p == "uses_client_generator"@ || p == "uses_default_provider"@ || p
        == "runs_queue_workers_in"@ || has_prefix(p, "switched_to_"@) || has_prefix(p, "decided_"@)
        || has_prefix(p, "chose_"@))
}

proof fn lemma_own_family(predicate: Seq<char>)
    requires
        ({
            let p = ascii_lower_seq(predicate);
            p == "uses_client_generator"@ || p == "uses_default_provider"@ || p
                == "runs_queue_workers_in"@ || has_prefix(p, "switched_to_"@) || has_prefix(
                p,
                "decided_"@,
            ) || has_prefix(p, "chose_"@)
        }),
    ensures
        contra_family(predicate) == Some(ascii_lower_seq(predicate)),
{
    reveal_strlit("language");
    reveal_strlit("uses_language");
    reveal_strlit("implemented_in");
    reveal_strlit("architecture");
    reveal_strlit("uses_architecture");
    reveal_strlit("uses_worker_model");
    reveal_strlit("uses_client_generator");
    reveal_strlit("uses_default_provider");
    reveal_strlit("runs_queue_workers_in");
    reveal_strlit("switched_to_");
    reveal_strlit("decided_");
    reveal_strlit("chose_");
    reveal_strlit("appears_in");
    reveal_strlit("documented_in");
    reveal_strlit("affects");
    reveal_strlit("feeds_into");
    reveal_strlit("references");
    reveal_strlit("uses_tool");
    reveal_strlit("has_field_observation_");
    reveal_strlit("appears_in_");
    reveal_strlit("documented_in_");
    let p = ascii_lower_seq(predicate);
    if has_prefix(p, "switched_to_"@) {
        assert(p[0] == p.subrange(0, 12)[0]);
        assert(p[0] == 's');
    } else if has_prefix(p, "decided_"@) {
        assert(p[0] == p.subrange(0, 8)[0]);
        assert(p[1] == p.subrange(0, 8)[1]);
        assert(p[0] == 'd' && p[1] == 'e');
    } else if has_prefix(p, "chose_"@) {
        assert(p[0] == p.subrange(0, 6)[0]);
        assert(p[0] == 'c');
    } else {
        assert(p.len() == 21);
    }
    assert(!has_prefix(p, "appears_in_"@)) by {
        if has_prefix(p, "appears_in_"@) {
            assert(p.subrange(0, 11)[0] == p[0]);
            assert(p.subrange(0, 11)[1] == p[1]);
        }
    }
    assert(!has_prefix(p, "documented_in_"@)) by {
        if has_prefix(p, "documented_in_"@) {
            assert(p.subrange(0, 14)[0] == p[0]);
            assert(p.subrange(0, 14)[1] == p[1]);
        }
    }
    assert(!has_prefix(p, "has_field_observation_"@)) by {
        if has_prefix(p, "has_field_observation_"@) {
            assert(p.subrange(0, 22)[0] == p[0]);
        }
    }
    assert(p != "appears_in"@ && p != "documented_in"@ && p != "affects"@ && p != "feeds_into"@
        && p != "references"@ && p != "uses_tool"@) by {
        if p == "appears_in"@ || p == "affects"@ {
            assert(p[0] == 'a');
        }
        if p == "documented_in"@ {
            assert(p[1] == 'o');
        }
        if p == "feeds_into"@ {
            assert(p[0] == 'f');
        }
        if p == "references"@ {
            assert(p[0] == 'r');
        }
        if p == "uses_tool"@ {
            assert(p.len() == 9);
        }
    }
    assert(!additive_pred(p));
    assert(exclusive_pred(p));
    assert(p != "uses_language"@ && p != "implemented_in"@ && p != "language"@ && p
        != "uses_architecture"@ && p != "uses_worker_model"@ && p != "architecture"@) by {
        if p == "uses_language"@ || p == "uses_architecture"@ || p == "uses_worker_model"@ {
            assert(p[0] == 'u' && p.len() != 21);
        }
        if p == "implemented_in"@ {
            assert(p[0] == 'i');
        }
        if p == "language"@ {
            assert(p[0] == 'l');
        }
        if p == "architecture"@ {
            assert(p[0] == 'a');
        }
    }
}

proof fn lemma_family_member(family: Seq<char>, predicate: Seq<char>)
    requires
        family_member(family, ascii_lower_seq(predicate)),
    ensures
        contra_family(predicate) == Some(family),
{
    let p0 = ascii_lower_seq(predicate);
    if family == p0 && (p0 == "uses_client_generator"@ || p0 == "uses_default_provider"@ || p0
        == "runs_queue_workers_in"@ || has_prefix(p0, "switched_to_"@) || has_prefix(p0, "decided_"@)
        || has_prefix(p0, "chose_"@)) {
        lemma_own_family(predicate);
    } else {
        lemma_shared_family(family, predicate);
    }
}

proof fn lemma_shared_family(family: Seq<char>, predicate: Seq<char>)
    requires
        ({
            let p = ascii_lower_seq(predicate);
            ||| family == "language"@ && (p == "uses_language"@ || p == "implemented_in"@ || p
                == "language"@)
            ||| family == "architecture"@ && (p == "uses_architecture"@ || p == "uses_worker_model"@
                || p == "architecture"@)
        }),
    ensures
        contra_family(predicate) == Some(family),
{
    reveal_strlit("language");
    reveal_strlit("uses_language");
    reveal_strlit("implemented_in");
    reveal_strlit("architecture");
    reveal_strlit("uses_architecture");
    reveal_strlit("uses_worker_model");
    reveal_strlit("appears_in");
    reveal_strlit("documented_in");
    reveal_strlit("affects");
    reveal_strlit("feeds_into");
    reveal_strlit("references");
    reveal_strlit("uses_tool");
    reveal_strlit("has_field_observation_");
    reveal_strlit("appears_in_");
    reveal_strlit("documented_in_");
    let p = ascii_lower_seq(predicate);
    assert(p.len() >= 8 && p.len() <= 17);
    assert(p[0] == 'u' || p[0] == 'i' || p[0] == 'l' || p[0] == 'a');
    assert(p[0] == 'a' ==> p.len() == 12 && p[1] == 'r');
    assert(!has_prefix(p, "appears_in_"@)) by {
        if has_prefix(p, "appears_in_"@) {
            assert(p.subrange(0, 11)[1] == p[1]);
        }
    }
    assert(!has_prefix(p, "documented_in_"@)) by {
        if has_prefix(p, "documented_in_"@) {
            assert(p.subrange(0, 14)[0] == p[0]);
        }
    }
    assert(!has_prefix(p, "has_field_observation_"@));
    assert(p != "appears_in"@) by {
        if p == "appears_in"@ {
            assert(p[1] == 'p');
        }
    }
    assert(p != "documented_in"@) by {
        if p == "documented_in"@ {
            assert(p[0] == 'd');
        }
    }
    assert(p != "affects"@);
    assert(p != "feeds_into"@) by {
        if p == "feeds_into"@ {
            assert(p[0] == 'f');
        }
    }
    assert(p != "references"@) by {
        if p == "references"@ {
            assert(p[0] == 'r');
        }
    }
    assert(p != "uses_tool"@);
    assert(!additive_pred(p));
    assert(exclusive_pred(p));
}

proof fn lemma_dedup_nonempty(s: Seq<Seq<char>>)
    requires
        s.len() > 0,
    ensures
        dedup(s).len() > 0,
{
    let r = dedup(s.drop_last());
    if r.contains(s.last()) {
        assert(r.len() > 0);
    }
}

proof fn lemma_row_keeps(
    claims: Seq<Claim>,
    ks: Seq<Seq<Seq<char>>>,
    a: int,
    b: int,
    c: int,
    v: (Seq<char>, Seq<char>, Seq<char>, Seq<char>, Seq<Seq<char>>, Seq<Seq<char>>, Seq<Seq<char>>, Seq<Seq<char>>),
)
    requires
        a < b < c,
        same_topic(ks[a], ks[b]),
        contradiction_for(claims, ks[a], ks[b]) == Some(v),
    ensures
        contradiction_row(claims, ks, a, c).contains(v),
    decreases c - b,
{
    let prev = contradiction_row(claims, ks, a, c - 1);
    if c == b + 1 {
        assert(contradiction_row(claims, ks, a, c) == prev.push(v));
        assert(prev.push(v)[prev.len() as int] == v);
    } else {
        lemma_row_keeps(claims, ks, a, b, c - 1, v);
        let w = choose|w: int| 0 <= w < prev.len() && prev[w] == v;
        let r = contradiction_row(claims, ks, a, c);
        if r != prev {
            assert(r[w] == v);
        }
    }
}

proof fn lemma_pairs_keep(
    claims: Seq<Claim>,
    ks: Seq<Seq<Seq<char>>>,
    a: int,
    d: int,
    v: (Seq<char>, Seq<char>, Seq<char>, Seq<char>, Seq<Seq<char>>, Seq<Seq<char>>, Seq<Seq<char>>, Seq<Seq<char>>),
)
    requires
        0 <= a < d,
        contradiction_row(claims, ks, a, ks.len() as int).contains(v),
    ensures
        contradiction_pairs(claims, ks, d).contains(v),
    decreases d - a,
{
    let prev = contradiction_pairs(claims, ks, d - 1);
    let row = contradiction_row(claims, ks, d - 1, ks.len() as int);
    assert(contradiction_pairs(claims, ks, d) == prev + row);
    if d == a + 1 {
        let w = choose|w: int| 0 <= w < row.len() && row[w] == v;
        assert((prev + row)[prev.len() + w] == v);
    } else {
        lemma_pairs_keep(claims, ks, a, d - 1, v);
        let w = choose|w: int| 0 <= w < prev.len() && prev[w] == v;
        assert((prev + row)[w] == v);
    }
}

/// Two claims on the same subject whose predicates fall in one contradiction
/// family (language, architecture, or an exclusive predicate of its own) and
/// whose decision objects differ contradict each other: the findings hold a
/// contradiction on that subject and family.
pub proof fn lemma_family_claims_contradict(claims: Seq<Claim>, family: Seq<char>, i: int, j: int)
    requires
        0 <= i < claims.len(),
        0 <= j < claims.len(),
        family_member(family, ascii_lower_seq(claims[i].predicate@)),
        family_member(family, ascii_lower_seq(claims[j].predicate@)),
        norm_term(claims[i].subject@) == norm_term(claims[j].subject@),
        claims[i].object is Some,
        claims[j].object is Some,
        norm_decision_object(claims[i].object->0@).len() > 0,
        norm_decision_object(claims[j].object->0@).len() > 0,
        norm_decision_object(claims[i].object->0@) != norm_decision_object(claims[j].object->0@),
    ensures
        exists|r: int|
            0 <= r < contradictions(claims).len() && (#[trigger] contradictions(claims)[r]).0
                == norm_term(claims[i].subject@) && contradictions(claims)[r].1 == family,
{
    let n = claims.len() as int;
    let keys = contra_keys(claims);
    lemma_family_member(family, claims[i].predicate@);
    lemma_family_member(family, claims[j].predicate@);
    let ki = seq![norm_term(claims[i].subject@), family, norm_decision_object(claims[i].object->0@)];
    let kj = seq![norm_term(claims[j].subject@), family, norm_decision_object(claims[j].object->0@)];
    assert(keys[i] == contra_key(claims[i]));
    assert(keys[j] == contra_key(claims[j]));
    assert(keys[i] == Some(ki));
    assert(keys[j] == Some(kj));
    assert(ki[2] != kj[2]);
    let ks = sorted_keys(keys, n);
    crate::order::lemma_sorted_keys_listed(keys, n, i);
    crate::order::lemma_sorted_keys_listed(keys, n, j);
    let pi = choose|p: int| 0 <= p < ks.len() && ks[p] == ki;
    let pj = choose|p: int| 0 <= p < ks.len() && ks[p] == kj;
    let a = if pi < pj { pi } else { pj };
    let b = if pi < pj { pj } else { pi };
    assert(a < b);
    let ka = ks[a];
    let kb = ks[b];
    assert(same_topic(ka, kb));
    crate::order::lemma_members_complete(keys, ka, n, if pi < pj { i } else { j });
    crate::order::lemma_members_complete(keys, kb, n, if pi < pj { j } else { i });
    let left = group_of(claims, keys, ka);
    let right = group_of(claims, keys, kb);
    lemma_dedup_nonempty(left.map_values(|c: Claim| c.note_id@));
    lemma_dedup_nonempty(right.map_values(|c: Claim| c.note_id@));
    let v = contradiction_for(claims, ka, kb)->0;
    assert(contradiction_for(claims, ka, kb) == Some(v));
    assert(v.0 == ka[0] && v.1 == ka[1]);
    lemma_row_keeps(claims, ks, a, b, ks.len() as int, v);
    lemma_pairs_keep(claims, ks, a, ks.len() as int, v);
    let cands = contradiction_pairs(claims, ks, ks.len() as int);
    let ranks = cands.map_values(|c: (Seq<char>, Seq<char>, Seq<char>, Seq<char>, Seq<Seq<char>>, Seq<Seq<char>>, Seq<Seq<char>>, Seq<Seq<char>>)| ((c.4.len() + c.5.len()) as int, c.0, c.1));
    let t = choose|t: int| 0 <= t < cands.len() && cands[t] == v;
    crate::order::lemma_rank_order_covers(ranks, cands.len() as int, t);
    let order = rank_order(ranks, cands.len() as int);
    let r = choose|r: int| 0 <= r < order.len() && order[r] == t;
    assert(contradictions(claims) == order.map_values(|x: int| cands[x]));
    assert(contradictions(claims)[r] == v);
}

fn contra_key_of(c: &Claim) -> (r: Option<Vec<String>>)
    ensures
        crate::order::opt_key(r) == contra_key(*c),
{
    match contradiction_family(c.predicate.as_str()) {
        None => None,
        Some(f) => match &c.object {
            None => None,
            Some(o) => {
                let obj = normalize_decision_object(o.as_str());
                if obj.as_str().is_empty() {
                    return None;
                }
                let mut k: Vec<String> = Vec::new();
                k.push(normalize_term(c.subject.as_str()));
                k.push(f);
                k.push(obj);
                proof {
                    assert(texts(k@) =~= contra_key(*c)->0);
                }
                Some(k)
            },
        },
    }
}

fn contra_keys_of(claims: &Vec<Claim>) -> (keys: Vec<Option<Vec<String>>>)
    ensures
        opt_keys(keys@) == contra_keys(claims@),
        keys@.len() == claims@.len(),
{
    let mut keys: Vec<Option<Vec<String>>> = Vec::new();
    let mut i: usize = 0;
    while i < claims.len()
        invariant
            i <= claims@.len(),
            keys@.len() == i,
            forall|j: int| 0 <= j < i ==> crate::order::opt_key(#[trigger] keys@[j]) == contra_key(claims@[j]),
        decreases claims.len() - i,
    {
        let k = contra_key_of(&claims[i]);
        keys.push(k);
        i = i + 1;
    }
    assert(opt_keys(keys@) =~= contra_keys(claims@));
    keys
}

pub(crate) fn clone_contradiction(c: &Contradiction) -> (r: Contradiction)
    ensures
        contradiction_view(r) == contradiction_view(*c),
{
    Contradiction {
        subject: c.subject.clone(),
        family: c.family.clone(),
        left_object: c.left_object.clone(),
        right_object: c.right_object.clone(),
        left_source_note_ids: clone_strings(&c.left_source_note_ids),
        right_source_note_ids: clone_strings(&c.right_source_note_ids),
        left_claim_ids: clone_strings(&c.left_claim_ids),
        right_claim_ids: clone_strings(&c.right_claim_ids),
    }
}

/// Contradictions found in `claims` (see `contradictions`).
///
/// The list of claims must fit twice in a `usize`, as any list in memory does.
pub fn detect_contradictions(claims: &Vec<Claim>) -> (out: Vec<Contradiction>)
    requires
        claims@.len() <= usize::MAX / 2,
    ensures
        out@.map_values(|c: Contradiction| contradiction_view(c)) == contradictions(claims@),
{
    let keys = contra_keys_of(claims);
    let ks = distinct_sorted_keys(&keys);
    let ghost kl = key_list(ks@);
    proof {
        assert forall|i: int|
            0 <= i < claims@.len() && (#[trigger] contra_keys(claims@)[i]) is Some implies contra_keys(
            claims@,
        )[i]->0.len() == 3 by {
            assert(contra_keys(claims@)[i] == contra_key(claims@[i]));
        }
    }
    let mut cands: Vec<Contradiction> = Vec::new();
    let mut ranks: Vec<RankKey> = Vec::new();
    let mut a: usize = 0;
    while a < ks.len()
        invariant
            a <= ks@.len(),
            claims@.len() <= usize::MAX / 2,
            keys@.len() == claims@.len(),
            opt_keys(keys@) == contra_keys(claims@),
            kl == key_list(ks@),
            kl == sorted_keys(contra_keys(claims@), claims@.len() as int),
            forall|i: int|
                0 <= i < claims@.len() && (#[trigger] contra_keys(claims@)[i]) is Some ==> contra_keys(
                    claims@,
                )[i]->0.len() == 3,
            cands@.map_values(|c: Contradiction| contradiction_view(c)) == contradiction_pairs(claims@, kl, a as int),
            ranks@.len() == cands@.len(),
            forall|j: int|
                0 <= j < ranks@.len() ==> crate::order::rank_view(#[trigger] ranks@[j]) == (
                    (texts(cands@[j].left_source_note_ids@).len() + texts(cands@[j].right_source_note_ids@).len()) as int,
                    cands@[j].subject@,
                    cands@[j].family@,
                ),
        decreases ks.len() - a,
    {
        let ka = &ks[a];
        proof {
            assert(kl[a as int] == texts(ka@));
            crate::order::lemma_sorted_keys_len(contra_keys(claims@), claims@.len() as int, 3, a as int);
        }
        let ghost start = cands@.map_values(|c: Contradiction| contradiction_view(c));
        let mut b: usize = a + 1;
        while b < ks.len()
            invariant
                a < b <= ks@.len(),
                claims@.len() <= usize::MAX / 2,
                keys@.len() == claims@.len(),
                opt_keys(keys@) == contra_keys(claims@),
                kl == key_list(ks@),
                kl == sorted_keys(contra_keys(claims@), claims@.len() as int),
                forall|i: int|
                    0 <= i < claims@.len() && (#[trigger] contra_keys(claims@)[i]) is Some ==> contra_keys(
                        claims@,
                    )[i]->0.len() == 3,
                texts(ka@) == kl[a as int],
                texts(ka@).len() == 3,
                start == contradiction_pairs(claims@, kl, a as int),
                cands@.map_values(|c: Contradiction| contradiction_view(c)) == start + contradiction_row(claims@, kl, a as int, b as int),
                ranks@.len() == cands@.len(),
                forall|j: int|
                    0 <= j < ranks@.len() ==> crate::order::rank_view(#[trigger] ranks@[j]) == (
                        (texts(cands@[j].left_source_note_ids@).len() + texts(cands@[j].right_source_note_ids@).len()) as int,
                        cands@[j].subject@,
                        cands@[j].family@,
                    ),
            decreases ks.len() - b,
        {
            let kb = &ks[b];
            proof {
                assert(kl[b as int] == texts(kb@));
                crate::order::lemma_sorted_keys_len(contra_keys(claims@), claims@.len() as int, 3, b as int);
            }
            let ghost before = cands@;
            if str_eq(ka[0].as_str(), kb[0].as_str()) && str_eq(ka[1].as_str(), kb[1].as_str()) {
                let left = keys_of_members(claims, &keys, ka);
                let right = keys_of_members(claims, &keys, kb);
                let left_notes = unique_note_ids(claims, &left);
                let right_notes = unique_note_ids(claims, &right);
                if left_notes.len() > 0 && right_notes.len() > 0 {
                    let left_object = canonical_decision_object(claims, &left);
                    let right_object = canonical_decision_object(claims, &right);
                    let left_ids = unique_claim_ids(claims, &left);
                    let right_ids = unique_claim_ids(claims, &right);
                    proof {
                        crate::order::lemma_dedup_len(picked(claims@, left@).map_values(|c: Claim| c.note_id@));
                        crate::order::lemma_dedup_len(picked(claims@, right@).map_values(|c: Claim| c.note_id@));
                    }
                    let count = left_notes.len() + right_notes.len();
                    ranks.push(RankKey { count, first: ka[0].clone(), second: ka[1].clone() });
                    cands.push(
                        Contradiction {
                            subject: ka[0].clone(),
                            family: ka[1].clone(),
                            left_object,
                            right_object,
                            left_source_note_ids: left_notes,
                            right_source_note_ids: right_notes,
                            left_claim_ids: left_ids,
                            right_claim_ids: right_ids,
                        },
                    );
                    proof {
                        assert(cands@.map_values(|c: Contradiction| contradiction_view(c)) =~= before.map_values(
                            |c: Contradiction| contradiction_view(c),
                        ).push(contradiction_for(claims@, kl[a as int], kl[b as int])->0));
                    }
                }
            }
            b = b + 1;
        }
        a = a + 1;
    }
    let order = stable_rank_order(&ranks);
    let ghost cv = cands@.map_values(|c: Contradiction| contradiction_view(c));
    proof {
        assert(rank_views(ranks@) =~= cv.map_values(
            |c: (Seq<char>, Seq<char>, Seq<char>, Seq<char>, Seq<Seq<char>>, Seq<Seq<char>>, Seq<Seq<char>>, Seq<Seq<char>>)| ((c.4.len() + c.5.len()) as int, c.0, c.1),
        ));
    }
    let mut out: Vec<Contradiction> = Vec::new();
    let mut i: usize = 0;
    while i < order.len()
        invariant
            i <= order@.len(),
            order@.len() == ranks@.len(),
            ranks@.len() == cands@.len(),
            cv == cands@.map_values(|c: Contradiction| contradiction_view(c)),
            forall|j: int|
                0 <= j < order@.len() ==> #[trigger] order@[j] == rank_order(rank_views(ranks@), ranks@.len() as int)[j]
                    && order@[j] < ranks@.len(),
            out@.len() == i,
            forall|j: int| 0 <= j < i ==> contradiction_view(#[trigger] out@[j]) == cv[order@[j] as int],
        decreases order.len() - i,
    {
        let c = clone_contradiction(&cands[order[i]]);
        out.push(c);
        i = i + 1;
    }
    proof {
        assert(out@.map_values(|c: Contradiction| contradiction_view(c)) =~= contradictions(claims@));
    }
    out
}

/// Key of a `superseded_by` claim: its normalized subject and replacement.
pub open spec fn superseded_key(c: Claim) -> Option<Seq<Seq<char>>> {
    match c.object {
        Some(o) => if c.predicate@ == "superseded_by"@ {
            Some(seq![norm_term(c.subject@), norm_term(o@)])
        } else {
            None
        },
        None => None,
    }
}

/// Key of a `depends_on` claim: its normalized subject and dependency.
pub open spec fn depends_key(c: Claim) -> Option<Seq<Seq<char>>> {
    match c.object {
        Some(o) => if c.predicate@ == "depends_on"@ {
            Some(seq![norm_term(c.subject@), norm_term(o@)])
        } else {
            None
        },
        None => None,
    }
}

/// `superseded_by` keys of all claims.
pub open spec fn superseded_keys(claims: Seq<Claim>) -> Seq<Option<Seq<Seq<char>>>> {
    claims.map_values(|c: Claim| superseded_key(c))
}

/// `depends_on` keys of all claims.
pub open spec fn depends_keys(claims: Seq<Claim>) -> Seq<Option<Seq<Seq<char>>>> {
    claims.map_values(|c: Claim| depends_key(c))
}

/// A stale dependency as plain values.
pub open spec fn stale_view(d: StaleDep) -> (Seq<char>, Seq<char>, Seq<char>, Seq<Seq<char>>, Seq<Seq<char>>, Seq<Seq<char>>, Seq<Seq<char>>) {
    (
        d.dependent_subject@,
        d.stale_subject@,
        d.superseded_by@,
        texts(d.depends_on_source_note_ids@),
        texts(d.superseded_source_note_ids@),
        texts(d.depends_on_claim_ids@),
        texts(d.superseded_claim_ids@),
    )
}

/// The stale dependency of dependency key `kd` on replacement key `ks`.
pub open spec fn stale_for(claims: Seq<Claim>, kd: Seq<Seq<char>>, ks: Seq<Seq<char>>) -> (Seq<char>, Seq<char>, Seq<char>, Seq<Seq<char>>, Seq<Seq<char>>, Seq<Seq<char>>, Seq<Seq<char>>) {
    let dep = group_of(claims, depends_keys(claims), kd);
    let sup = group_of(claims, superseded_keys(claims), ks);
    (kd[0], kd[1], ks[1], note_ids_of(dep), note_ids_of(sup), claim_ids_of(dep), claim_ids_of(sup))
}

/// Stale dependencies of dependency key `ds[a]` on the replacements below `b`.
pub open spec fn stale_row(
    claims: Seq<Claim>,
    ds: Seq<Seq<Seq<char>>>,
    ss: Seq<Seq<Seq<char>>>,
    a: int,
    b: int,
) -> Seq<(Seq<char>, Seq<char>, Seq<char>, Seq<Seq<char>>, Seq<Seq<char>>, Seq<Seq<char>>, Seq<Seq<char>>)>
    decreases b,
{
    if b <= 0 {
        Seq::empty()
    } else {
        let prev = stale_row(claims, ds, ss, a, b - 1);
        if ss[b - 1][0] == ds[a][1] {
            prev.push(stale_for(claims, ds[a], ss[b - 1]))
        } else {
            prev
        }
    }
}

/// Stale dependencies of the dependency keys below `a`.
pub open spec fn stale_pairs(claims: Seq<Claim>, ds: Seq<Seq<Seq<char>>>, ss: Seq<Seq<Seq<char>>>, a: int) -> Seq<(Seq<char>, Seq<char>, Seq<char>, Seq<Seq<char>>, Seq<Seq<char>>, Seq<Seq<char>>, Seq<Seq<char>>)>
    decreases a,
{
    if a <= 0 {
        Seq::empty()
    } else {
        stale_pairs(claims, ds, ss, a - 1) + stale_row(claims, ds, ss, a - 1, ss.len() as int)
    }
}

/// Stale dependencies: a subject depending on something later superseded,
/// one per (dependent, stale subject, replacement), ranked by total source
/// notes (most first), then dependent subject. Ties keep key order.
pub open spec fn stale_dependencies(claims: Seq<Claim>) -> Seq<(Seq<char>, Seq<char>, Seq<char>, Seq<Seq<char>>, Seq<Seq<char>>, Seq<Seq<char>>, Seq<Seq<char>>)> {
    let ds = sorted_keys(depends_keys(claims), claims.len() as int);
    let ss = sorted_keys(superseded_keys(claims), claims.len() as int);
    let cands = stale_pairs(claims, ds, ss, ds.len() as int);
    let ranks = cands.map_values(|d: (Seq<char>, Seq<char>, Seq<char>, Seq<Seq<char>>, Seq<Seq<char>>, Seq<Seq<char>>, Seq<Seq<char>>)| ((d.3.len() + d.4.len()) as int, d.0, Seq::<char>::empty()));
    rank_order(ranks, cands.len() as int).map_values(|j: int| cands[j])
}

fn pair_key(a: &str, b: &str) -> (k: Vec<String>)
    ensures
        texts(k@) == seq![norm_term(a@), norm_term(b@)],
{
    let mut k: Vec<String> = Vec::new();
    k.push(normalize_term(a));
    k.push(normalize_term(b));
    assert(texts(k@) =~= seq![norm_term(a@), norm_term(b@)]);
    k
}

fn link_keys_of(claims: &Vec<Claim>, predicate: &str) -> (keys: Vec<Option<Vec<String>>>)
    requires
        predicate@ == "superseded_by"@ || predicate@ == "depends_on"@,
    ensures
        predicate@ == "superseded_by"@ ==> opt_keys(keys@) == superseded_keys(claims@),
        predicate@ == "depends_on"@ ==> opt_keys(keys@) == depends_keys(claims@),
        keys@.len() == claims@.len(),
{
    let mut keys: Vec<Option<Vec<String>>> = Vec::new();
    let mut i: usize = 0;
    while i < claims.len()
        invariant
            i <= claims@.len(),
            predicate@ == "superseded_by"@ || predicate@ == "depends_on"@,
            keys@.len() == i,
            forall|j: int|
                0 <= j < i ==> crate::order::opt_key(#[trigger] keys@[j]) == if predicate@ == "superseded_by"@ {
                    superseded_key(claims@[j])
                } else {
                    depends_key(claims@[j])
                },
        decreases claims.len() - i,
    {
        let c = &claims[i];
        let k = match &c.object {
            Some(o) => if str_eq(c.predicate.as_str(), predicate) {
                Some(pair_key(c.subject.as_str(), o.as_str()))
            } else {
                None
            },
            None => None,
        };
        proof {
            reveal_strlit("superseded_by");
            reveal_strlit("depends_on");
        }
        keys.push(k);
        i = i + 1;
    }
    proof {
        reveal_strlit("superseded_by");
        reveal_strlit("depends_on");
        if predicate@ == "superseded_by"@ {
            assert(opt_keys(keys@) =~= superseded_keys(claims@));
        } else {
            assert(opt_keys(keys@) =~= depends_keys(claims@));
        }
    }
    keys
}

pub(crate) fn clone_stale(d: &StaleDep) -> (r: StaleDep)
    ensures
        stale_view(r) == stale_view(*d),
{
    StaleDep {
        dependent_subject: d.dependent_subject.clone(),
        stale_subject: d.stale_subject.clone(),
        superseded_by: d.superseded_by.clone(),
        depends_on_source_note_ids: clone_strings(&d.depends_on_source_note_ids),
        superseded_source_note_ids: clone_strings(&d.superseded_source_note_ids),
        depends_on_claim_ids: clone_strings(&d.depends_on_claim_ids),
        superseded_claim_ids: clone_strings(&d.superseded_claim_ids),
    }
}

/// Stale dependencies found in `claims` (see `stale_dependencies`).
///
/// The list of claims must fit twice in a `usize`, as any list in memory does.
pub fn detect_stale_dependencies(claims: &Vec<Claim>) -> (out: Vec<StaleDep>)
    requires
        claims@.len() <= usize::MAX / 2,
    ensures
        out@.map_values(|d: StaleDep| stale_view(d)) == stale_dependencies(claims@),
{
    let sup_keys = link_keys_of(claims, "superseded_by");
    let dep_keys = link_keys_of(claims, "depends_on");
    let ds = distinct_sorted_keys(&dep_keys);
    let ss = distinct_sorted_keys(&sup_keys);
    let ghost dl = key_list(ds@);
    let ghost sl = key_list(ss@);
    proof {
        reveal_strlit("superseded_by");
        reveal_strlit("depends_on");
        assert forall|i: int|
            0 <= i < claims@.len() && (#[trigger] depends_keys(claims@)[i]) is Some implies depends_keys(
            claims@,
        )[i]->0.len() == 2 by {
            assert(depends_keys(claims@)[i] == depends_key(claims@[i]));
        }
        assert forall|i: int|
            0 <= i < claims@.len() && (#[trigger] superseded_keys(claims@)[i]) is Some implies superseded_keys(
            claims@,
        )[i]->0.len() == 2 by {
            assert(superseded_keys(claims@)[i] == superseded_key(claims@[i]));
        }
    }
    let mut cands: Vec<StaleDep> = Vec::new();
    let mut ranks: Vec<RankKey> = Vec::new();
    let mut a: usize = 0;
    while a < ds.len()
        invariant
            a <= ds@.len(),
            claims@.len() <= usize::MAX / 2,
            dep_keys@.len() == claims@.len(),
            sup_keys@.len() == claims@.len(),
            opt_keys(dep_keys@) == depends_keys(claims@),
            opt_keys(sup_keys@) == superseded_keys(claims@),
            dl == key_list(ds@),
            sl == key_list(ss@),
            dl == sorted_keys(depends_keys(claims@), claims@.len() as int),
            sl == sorted_keys(superseded_keys(claims@), claims@.len() as int),
            forall|i: int|
                0 <= i < claims@.len() && (#[trigger] depends_keys(claims@)[i]) is Some ==> depends_keys(
                    claims@,
                )[i]->0.len() == 2,
            forall|i: int|
                0 <= i < claims@.len() && (#[trigger] superseded_keys(claims@)[i]) is Some ==> superseded_keys(
                    claims@,
                )[i]->0.len() == 2,
            cands@.map_values(|d: StaleDep| stale_view(d)) == stale_pairs(claims@, dl, sl, a as int),
            ranks@.len() == cands@.len(),
            forall|j: int|
                0 <= j < ranks@.len() ==> crate::order::rank_view(#[trigger] ranks@[j]) == (
                    (texts(cands@[j].depends_on_source_note_ids@).len() + texts(cands@[j].superseded_source_note_ids@).len()) as int,
                    cands@[j].dependent_subject@,
                    Seq::<char>::empty(),
                ),
        decreases ds.len() - a,
    {
        let kd = &ds[a];
        proof {
            assert(dl[a as int] == texts(kd@));
            crate::order::lemma_sorted_keys_len(depends_keys(claims@), claims@.len() as int, 2, a as int);
        }
        let dep = keys_of_members(claims, &dep_keys, kd);
        let dep_notes = unique_note_ids(claims, &dep);
        let dep_ids = unique_claim_ids(claims, &dep);
        proof {
            crate::order::lemma_dedup_len(picked(claims@, dep@).map_values(|c: Claim| c.note_id@));
        }
        let ghost start = cands@.map_values(|d: StaleDep| stale_view(d));
        let mut b: usize = 0;
        while b < ss.len()
            invariant
                a < ds@.len(),
                b <= ss@.len(),
                claims@.len() <= usize::MAX / 2,
                sup_keys@.len() == claims@.len(),
                opt_keys(sup_keys@) == superseded_keys(claims@),
                dl == key_list(ds@),
                sl == key_list(ss@),
                sl == sorted_keys(superseded_keys(claims@), claims@.len() as int),
                forall|i: int|
                    0 <= i < claims@.len() && (#[trigger] superseded_keys(claims@)[i]) is Some ==> superseded_keys(
                        claims@,
                    )[i]->0.len() == 2,
                texts(kd@) == dl[a as int],
                texts(kd@).len() == 2,
                texts(dep_notes@) == note_ids_of(group_of(claims@, depends_keys(claims@), dl[a as int])),
                texts(dep_ids@) == claim_ids_of(group_of(claims@, depends_keys(claims@), dl[a as int])),
                dep_notes@.len() <= claims@.len(),
                start == stale_pairs(claims@, dl, sl, a as int),
                cands@.map_values(|d: StaleDep| stale_view(d)) == start + stale_row(claims@, dl, sl, a as int, b as int),
                ranks@.len() == cands@.len(),
                forall|j: int|
                    0 <= j < ranks@.len() ==> crate::order::rank_view(#[trigger] ranks@[j]) == (
                        (texts(cands@[j].depends_on_source_note_ids@).len() + texts(cands@[j].superseded_source_note_ids@).len()) as int,
                        cands@[j].dependent_subject@,
                        Seq::<char>::empty(),
                    ),
            decreases ss.len() - b,
        {
            let kx = &ss[b];
            proof {
                assert(sl[b as int] == texts(kx@));
                crate::order::lemma_sorted_keys_len(superseded_keys(claims@), claims@.len() as int, 2, b as int);
            }
            let ghost before = cands@;
            if str_eq(kx[0].as_str(), kd[1].as_str()) {
                let sup = keys_of_members(claims, &sup_keys, kx);
                let sup_notes = unique_note_ids(claims, &sup);
                let sup_ids = unique_claim_ids(claims, &sup);
                proof {
                    crate::order::lemma_dedup_len(picked(claims@, sup@).map_values(|c: Claim| c.note_id@));
                }
                let count = dep_notes.len() + sup_notes.len();
                ranks.push(RankKey { count, first: kd[0].clone(), second: String::new() });
                cands.push(
                    StaleDep {
                        dependent_subject: kd[0].clone(),
                        stale_subject: kd[1].clone(),
                        superseded_by: kx[1].clone(),
                        depends_on_source_note_ids: clone_strings(&dep_notes),
                        superseded_source_note_ids: sup_notes,
                        depends_on_claim_ids: clone_strings(&dep_ids),
                        superseded_claim_ids: sup_ids,
                    },
                );
                proof {
                    assert(cands@.map_values(|d: StaleDep| stale_view(d)) =~= before.map_values(
                        |d: StaleDep| stale_view(d),
                    ).push(stale_for(claims@, dl[a as int], sl[b as int])));
                }
            }
            b = b + 1;
        }
        a = a + 1;
    }
    let order = stable_rank_order(&ranks);
    let ghost cv = cands@.map_values(|d: StaleDep| stale_view(d));
    proof {
        assert(rank_views(ranks@) =~= cv.map_values(
            |d: (Seq<char>, Seq<char>, Seq<char>, Seq<Seq<char>>, Seq<Seq<char>>, Seq<Seq<char>>, Seq<Seq<char>>)| ((d.3.len() + d.4.len()) as int, d.0, Seq::<char>::empty()),
        ));
    }
    let mut out: Vec<StaleDep> = Vec::new();
    let mut i: usize = 0;
    while i < order.len()
        invariant
            i <= order@.len(),
            order@.len() == ranks@.len(),
            ranks@.len() == cands@.len(),
            cv == cands@.map_values(|d: StaleDep| stale_view(d)),
            forall|j: int|
                0 <= j < order@.len() ==> #[trigger] order@[j] == rank_order(rank_views(ranks@), ranks@.len() as int)[j]
                    && order@[j] < ranks@.len(),
            out@.len() == i,
            forall|j: int| 0 <= j < i ==> stale_view(#[trigger] out@[j]) == cv[order@[j] as int],
        decreases order.len() - i,
    {
        let d = clone_stale(&cands[order[i]]);
        out.push(d);
        i = i + 1;
    }
    proof {
        assert(out@.map_values(|d: StaleDep| stale_view(d)) =~= stale_dependencies(claims@));
    }
    out
}

/// Recent decisions come out with the most sourced first: each decision has
/// at least as many source notes as the one after it.
pub proof fn lemma_decisions_by_source_count(claims: Seq<Claim>)
    ensures
        ({
            let out = recent_decisions(claims);
            forall|i: int, j: int|
                #![trigger out[i], out[j]]
                0 <= i && j == i + 1 && j < out.len() ==> out[j].2.len() <= out[i].2.len()
        }),
{
    let ks = sorted_keys(decision_keys(claims), claims.len() as int);
    let cands = decision_candidates(claims, ks, ks.len() as int);
    let ranks = cands.map_values(
        |d: (Seq<char>, Seq<char>, Seq<Seq<char>>, Seq<Seq<char>>)| (d.2.len() as int, d.0, d.1),
    );
    let order = rank_order(ranks, cands.len() as int);
    crate::order::lemma_rank_order_sorted(ranks, cands.len() as int);
    crate::order::lemma_rank_order_bounds(ranks, cands.len() as int);
    let out = recent_decisions(claims);
    assert(out == order.map_values(|j: int| cands[j]));
    assert forall|i: int, j: int|
        #![trigger out[i], out[j]]
        0 <= i && j == i + 1 && j < out.len() implies out[j].2.len() <= out[i].2.len() by {
        assert(out[i] == cands[order[i]] && out[j] == cands[order[j]]);
        assert(!crate::order::rank_before(ranks[order[j]], ranks[order[i]]));
        assert(ranks[order[j]].0 == cands[order[j]].2.len());
        assert(ranks[order[i]].0 == cands[order[i]].2.len());
    }
}

/// Contradictions come out with the most sourced first: each has at least as
/// many source notes, over both sides, as the one after it.
pub proof fn lemma_contradictions_by_source_count(claims: Seq<Claim>)
    ensures
        ({
            let out = contradictions(claims);
            forall|i: int, j: int|
                #![trigger out[i], out[j]]
                0 <= i && j == i + 1 && j < out.len() ==> out[j].4.len() + out[j].5.len() <= out[i].4.len()
                    + out[i].5.len()
        }),
{
    let ks = sorted_keys(contra_keys(claims), claims.len() as int);
    let cands = contradiction_pairs(claims, ks, ks.len() as int);
    let ranks = cands.map_values(|c: (Seq<char>, Seq<char>, Seq<char>, Seq<char>, Seq<Seq<char>>, Seq<Seq<char>>, Seq<Seq<char>>, Seq<Seq<char>>)| ((c.4.len() + c.5.len()) as int, c.0, c.1));
    let order = rank_order(ranks, cands.len() as int);
    crate::order::lemma_rank_order_sorted(ranks, cands.len() as int);
    crate::order::lemma_rank_order_bounds(ranks, cands.len() as int);
    let out = contradictions(claims);
    assert(out == order.map_values(|j: int| cands[j]));
    assert forall|i: int, j: int|
        #![trigger out[i], out[j]]
        0 <= i && j == i + 1 && j < out.len() implies out[j].4.len() + out[j].5.len() <= out[i].4.len()
            + out[i].5.len() by {
        assert(out[i] == cands[order[i]] && out[j] == cands[order[j]]);
        assert(!crate::order::rank_before(ranks[order[j]], ranks[order[i]]));
    }
}

/// Open questions come out with the most sourced first.
pub proof fn lemma_open_questions_by_source_count(claims: Seq<Claim>)
    ensures
        ({
            let out = open_questions(claims);
            forall|i: int, j: int|
                #![trigger out[i], out[j]]
                0 <= i && j == i + 1 && j < out.len() ==> out[j].3.len() <= out[i].3.len()
        }),
{
    let ks = sorted_keys(question_keys(claims), claims.len() as int);
    let cands = question_candidates(claims, ks, ks.len() as int);
    let ranks = cands.map_values(
        |q: (Seq<char>, Seq<char>, Seq<char>, Seq<Seq<char>>, Seq<Seq<char>>)|
            (q.3.len() as int, q.0, q.2),
    );
    let order = rank_order(ranks, cands.len() as int);
    crate::order::lemma_rank_order_sorted(ranks, cands.len() as int);
    crate::order::lemma_rank_order_bounds(ranks, cands.len() as int);
    let out = open_questions(claims);
    assert(out == order.map_values(|j: int| cands[j]));
    assert forall|i: int, j: int|
        #![trigger out[i], out[j]]
        0 <= i && j == i + 1 && j < out.len() implies out[j].3.len() <= out[i].3.len() by {
        assert(out[i] == cands[order[i]] && out[j] == cands[order[j]]);
        assert(!crate::order::rank_before(ranks[order[j]], ranks[order[i]]));
    }
}

/// Stale dependencies come out with the most sourced first, over both sides.
pub proof fn lemma_stale_dependencies_by_source_count(claims: Seq<Claim>)
    ensures
        ({
            let out = stale_dependencies(claims);
            forall|i: int, j: int|
                #![trigger out[i], out[j]]
                0 <= i && j == i + 1 && j < out.len() ==> out[j].3.len() + out[j].4.len() <= out[i].3.len()
                    + out[i].4.len()
        }),
{
    let ds = sorted_keys(depends_keys(claims), claims.len() as int);
    let ss = sorted_keys(superseded_keys(claims), claims.len() as int);
    let cands = stale_pairs(claims, ds, ss, ds.len() as int);
    let ranks = cands.map_values(|d: (Seq<char>, Seq<char>, Seq<char>, Seq<Seq<char>>, Seq<Seq<char>>, Seq<Seq<char>>, Seq<Seq<char>>)| ((d.3.len() + d.4.len()) as int, d.0, Seq::<char>::empty()));
    let order = rank_order(ranks, cands.len() as int);
    crate::order::lemma_rank_order_sorted(ranks, cands.len() as int);
    crate::order::lemma_rank_order_bounds(ranks, cands.len() as int);
    let out = stale_dependencies(claims);
    assert(out == order.map_values(|j: int| cands[j]));
    assert forall|i: int, j: int|
        #![trigger out[i], out[j]]
        0 <= i && j == i + 1 && j < out.len() implies out[j].3.len() + out[j].4.len() <= out[i].3.len()
            + out[i].4.len() by {
        assert(out[i] == cands[order[i]] && out[j] == cands[order[j]]);
        assert(!crate::order::rank_before(ranks[order[j]], ranks[order[i]]));
    }
}

} // verus!
