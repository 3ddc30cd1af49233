//! Per-citation verdicts: a citation is verified when the cited span still
//! hashes to the stored fingerprint and holds the quoted text.
use vstd::prelude::*;

use crate::cite::{
    extract_quote_before, holds_id, kept_text, marker_id, markers, opt_view, parse_claim_markers,
    quote_before, rewrite_with_only_verified, sentence_ends, tidy_paragraphs_from, CitationCheck,
    CitationStatus, CitedAnswer, lemma_marker_positions,
};
use crate::claims::{blake3_hex, fingerprint_match, Claim};
use crate::report::{superseded_at, is_superseded_at};
use crate::text::{
    byte_len, byte_offset, chars_of, collapse_ws, normalize_text, str_eq, unicode_lowercase,
};

verus! {

/// What the claim store and the vault hold for one claim: its stored span
/// fingerprint, when the note and the span could be read the span text, and
/// the end of the claim's validity (nanoseconds since the Unix epoch), if any.
#[derive(Debug, Clone)]
pub struct ClaimEvidence {
    pub claim_id: String,
    pub span_fingerprint: String,
    pub span_text: Option<String>,
    pub valid_until: Option<i128>,
}

/// `needle` occurs as a contiguous run of `hay`.
pub open spec fn contains_seq(hay: Seq<char>, needle: Seq<char>) -> bool {
    exists|i: int|
        0 <= i && i + needle.len() <= hay.len() && #[trigger] hay.subrange(i, i + needle.len())
            == needle
}

/// Lower-cased, whitespace-collapsed form used to compare quotes with spans.
pub open spec fn normalized(s: Seq<char>) -> Seq<char> {
    collapse_ws(unicode_lowercase(s))
}

/// A quote fits a span when it is absent, normalizes to nothing, or its
/// normalized form occurs in the normalized span.
pub open spec fn quote_fits(span: Seq<char>, quote: Option<Seq<char>>) -> bool {
    match quote {
        None => true,
        Some(q) => normalized(q).len() == 0 || contains_seq(normalized(span), normalized(q)),
    }
}

/// The span matches the stored fingerprint: in full, or, for a legacy
/// 16-digit fingerprint, on its first 16 digits (see `fingerprint_match`).
pub open spec fn span_matches(span: Seq<char>, stored_fingerprint: Seq<char>) -> bool {
    fingerprint_match(
        blake3_hex(vstd::utf8::encode_utf8(span)),
        stored_fingerprint,
        byte_len(stored_fingerprint),
    )
}

/// Verdict on a known claim, given the text of its span (if readable), its
/// stored fingerprint, the quote that precedes the citation, and whether the
/// claim has been retracted (its validity ended): a retracted claim whose
/// span and quote still hold is `Superseded`.
pub open spec fn claim_status(
    span: Option<Seq<char>>,
    stored_fingerprint: Seq<char>,
    quote: Option<Seq<char>>,
    retracted: bool,
) -> CitationStatus {
    match span {
        None => CitationStatus::Unverified,
        Some(t) => if !span_matches(t, stored_fingerprint) {
            CitationStatus::FingerprintMismatch
        } else if !quote_fits(t, quote) {
            CitationStatus::QuoteMismatch
        } else if retracted {
            CitationStatus::Superseded
        } else {
            CitationStatus::Verified
        },
    }
}

/// The first evidence entry at or after `i` whose claim id is `id`.
pub open spec fn lookup_evidence(ev: Seq<ClaimEvidence>, id: Seq<char>, i: int) -> Option<
    ClaimEvidence,
>
    decreases ev.len() - i,
{
    if i < 0 || i >= ev.len() {
        None
    } else if ev[i].claim_id@ == id {
        Some(ev[i])
    } else {
        lookup_evidence(ev, id, i + 1)
    }
}

/// Verdict at time `now` on the citation whose marker starts at character
/// `p` of `text`.
pub open spec fn citation_verdict(ev: Seq<ClaimEvidence>, text: Seq<char>, p: int, now: i128) -> CitationStatus {
    match lookup_evidence(ev, marker_id(text, p), 0) {
        None => CitationStatus::Unverified,
        Some(e) => claim_status(
            opt_view(e.span_text),
            e.span_fingerprint@,
            quote_before(text, byte_offset(text, p) as int),
            superseded_at(e.valid_until, now),
        ),
    }
}

/// The span text reported for the citation at character `p`.
pub open spec fn citation_source(ev: Seq<ClaimEvidence>, text: Seq<char>, p: int) -> Option<
    Seq<char>,
> {
    match lookup_evidence(ev, marker_id(text, p), 0) {
        None => None,
        Some(e) => opt_view(e.span_text),
    }
}

/// One of the first `n` citations in `text` cites `id` and was verified.
pub open spec fn verified_before(ev: Seq<ClaimEvidence>, text: Seq<char>, n: int, id: Seq<char>, now: i128) -> bool {
    exists|k: int|
        0 <= k < n && marker_id(text, #[trigger] markers(text)[k]) == id
            && citation_verdict(ev, text, markers(text)[k], now) == CitationStatus::Verified
}

/// Some citation of `id` in `text` was verified.
pub open spec fn verified_somewhere(ev: Seq<ClaimEvidence>, text: Seq<char>, id: Seq<char>, now: i128) -> bool {
    verified_before(ev, text, markers(text).len() as int, id, now)
}

proof fn lemma_verified_ids_step(
    ev: Seq<ClaimEvidence>,
    text: Seq<char>,
    k: int,
    old_ids: Seq<String>,
    new_ids: Seq<String>,
    now: i128,
)
    requires
        0 <= k < markers(text).len(),
        forall|x: Seq<char>| holds_id(old_ids, x) <==> verified_before(ev, text, k, x, now),
        citation_verdict(ev, text, markers(text)[k], now) == CitationStatus::Verified ==> new_ids
            == old_ids.push(new_ids.last()) && new_ids.last()@ == marker_id(text, markers(text)[k]),
        citation_verdict(ev, text, markers(text)[k], now) != CitationStatus::Verified ==> new_ids
            == old_ids,
    ensures
        forall|x: Seq<char>| holds_id(new_ids, x) <==> verified_before(ev, text, k + 1, x, now),
{
    let ok = citation_verdict(ev, text, markers(text)[k], now) == CitationStatus::Verified;
    assert forall|x: Seq<char>| holds_id(new_ids, x) <==> verified_before(ev, text, k + 1, x, now) by {
        if holds_id(new_ids, x) {
            let w = choose|w: int| 0 <= w < new_ids.len() && (#[trigger] new_ids[w])@ == x;
            if w < old_ids.len() {
                assert(old_ids[w] == new_ids[w]);
                assert(holds_id(old_ids, x));
            } else {
                assert(ok);
                assert(marker_id(text, markers(text)[k]) == x);
            }
        }
        if verified_before(ev, text, k + 1, x, now) {
            let j = choose|j: int|
                0 <= j < k + 1 && marker_id(text, #[trigger] markers(text)[j]) == x
                    && citation_verdict(ev, text, markers(text)[j], now) == CitationStatus::Verified;
            if j < k {
                assert(verified_before(ev, text, k, x, now));
                assert(holds_id(old_ids, x));
                let w = choose|w: int| 0 <= w < old_ids.len() && (#[trigger] old_ids[w])@ == x;
                assert(new_ids[w] == old_ids[w]);
                assert(holds_id(new_ids, x));
            } else {
                assert(ok);
                assert(new_ids[old_ids.len() as int]@ == x);
                assert(holds_id(new_ids, x));
            }
        }
    }
}

/// Number of statuses among `s` that satisfy `f`.
pub open spec fn count_status(s: Seq<CitationStatus>, f: spec_fn(CitationStatus) -> bool) -> nat
    decreases s.len(),
{
    if s.len() == 0 {
        0
    } else {
        count_status(s.drop_last(), f) + if f(s.last()) {
            1nat
        } else {
            0nat
        }
    }
}

/// The cited span no longer matches: its fingerprint or the quote differs.
pub open spec fn is_mismatch(x: CitationStatus) -> bool {
    x == CitationStatus::FingerprintMismatch || x == CitationStatus::QuoteMismatch
}

/// Statuses of a list of checks, in order.
pub open spec fn statuses(c: Seq<CitationCheck>) -> Seq<CitationStatus> {
    c.map_values(|x: CitationCheck| x.status)
}

/// Whether `hay` holds `needle` as a contiguous run.
pub fn contains_chars(hay: &Vec<char>, needle: &Vec<char>) -> (b: bool)
    ensures
        b == contains_seq(hay@, needle@),
{
    let n = needle.len();
    if n == 0 {
        assert(hay@.subrange(0, 0 + needle@.len() as int) =~= needle@);
        return true;
    }
    if n > hay.len() {
        return false;
    }
    let last = hay.len() - n;
    let mut i: usize = 0;
    while i <= last
        invariant
            n == needle@.len(),
            1 <= n <= hay@.len(),
            hay@.len() <= usize::MAX,
            last == hay@.len() - n,
            i <= last + 1,
            forall|j: int| 0 <= j < i ==> #[trigger] hay@.subrange(j, j + n) != needle@,
        decreases last + 1 - i,
    {
        let mut k: usize = 0;
        let mut same = true;
        while k < n
            invariant
                hay@.len() <= usize::MAX,
                n == needle@.len(),
                i <= last,
                last == hay@.len() - n,
                1 <= n <= hay@.len(),
                k <= n,
                same == (forall|t: int| 0 <= t < k ==> hay@[i + t] == needle@[t]),
            decreases n - k,
        {
            if hay[i + k] != needle[k] {
                same = false;
            }
            k = k + 1;
        }
        if same {
            assert(hay@.subrange(i as int, i + n) =~= needle@);
            return true;
        }
        proof {
            assert forall|t: int| 0 <= t < n && hay@.subrange(i as int, i + n) == needle@ implies hay@[i + t] == needle@[t] by {
                assert(hay@.subrange(i as int, i + n)[t] == hay@[i + t]);
            }
        }
        i = i + 1;
    }
    false
}

/// Lower-cases `input` and collapses whitespace runs to single spaces.
fn collapse_ws_lower(input: &str) -> (r: Vec<char>)
    ensures
        r@ == normalized(input@),
{
    let s = normalize_text(input);
    chars_of(s.as_str())
}

/// Verdict at time `now` on a known claim: `Unverified` when its span could
/// not be read, `FingerprintMismatch` when the span no longer matches the
/// stored fingerprint (a legacy 16-digit one on its first 16 digits),
/// `QuoteMismatch` when the quote is not in the span, `Superseded` when the
/// claim's validity ended at or before `now`, else `Verified`.
pub fn verify_claim(
    span_text: &Option<String>,
    stored_fingerprint: &str,
    quote: &Option<String>,
    valid_until: Option<i128>,
    now: i128,
) -> (s: CitationStatus)
    ensures
        s == claim_status(
            opt_view(*span_text),
            stored_fingerprint@,
            opt_view(*quote),
            superseded_at(valid_until, now),
        ),
{
    let t = match span_text {
        None => return CitationStatus::Unverified,
        Some(t) => t,
    };
    if !Claim::fingerprint_matches(t.as_str(), stored_fingerprint) {
        return CitationStatus::FingerprintMismatch;
    }
    if let Some(q) = quote {
        let nq = collapse_ws_lower(q.as_str());
        let ns = collapse_ws_lower(t.as_str());
        if nq.len() != 0 && !contains_chars(&ns, &nq) {
            return CitationStatus::QuoteMismatch;
        }
    }
    if is_superseded_at(valid_until, now) {
        return CitationStatus::Superseded;
    }
    CitationStatus::Verified
}

/// Index of the first evidence entry for `id`.
fn find_evidence(ev: &Vec<ClaimEvidence>, id: &String) -> (r: Option<usize>)
    ensures
        match r {
            None => lookup_evidence(ev@, id@, 0) is None,
            Some(i) => i < ev@.len() && lookup_evidence(ev@, id@, 0) == Some(ev@[i as int]),
        },
{
    let mut i: usize = 0;
    while i < ev.len()
        invariant
            i <= ev@.len(),
            lookup_evidence(ev@, id@, 0) == lookup_evidence(ev@, id@, i as int),
        decreases ev.len() - i,
    {
        if str_eq(ev[i].claim_id.as_str(), id.as_str()) {
            return Some(i);
        }
        i = i + 1;
    }
    None
}

fn clone_opt_string(o: &Option<String>) -> (r: Option<String>)
    ensures
        opt_view(r) == opt_view(*o),
{
    match o {
        Some(s) => Some(s.clone()),
        None => None,
    }
}

/// Verdict on one citation of `id` whose marker starts at byte `start` of `text`.
fn check_citation(text: &str, start: usize, id: &String, evidence: &Vec<ClaimEvidence>, now: i128) -> (c:
    CitationCheck)
    ensures
        c.claim_id@ == id@,
        opt_view(c.quote) == quote_before(text@, start as int),
        c.status == (match lookup_evidence(evidence@, id@, 0) {
            None => CitationStatus::Unverified,
            Some(e) => claim_status(
                opt_view(e.span_text),
                e.span_fingerprint@,
                quote_before(text@, start as int),
                superseded_at(e.valid_until, now),
            ),
        }),
        opt_view(c.source_text) == (match lookup_evidence(evidence@, id@, 0) {
            None => None,
            Some(e) => opt_view(e.span_text),
        }),
{
    let quote = extract_quote_before(text, start);
    match find_evidence(evidence, id) {
        None => CitationCheck {
            claim_id: id.clone(),
            status: CitationStatus::Unverified,
            source_text: None,
            quote,
        },
        Some(i) => {
            let e = &evidence[i];
            let status = verify_claim(&e.span_text, e.span_fingerprint.as_str(), &quote, e.valid_until, now);
            CitationCheck {
                claim_id: id.clone(),
                status,
                source_text: clone_opt_string(&e.span_text),
                quote,
            }
        },
    }
}

/// Checks every citation of a model answer against the evidence gathered for
/// the cited claims, and keeps only the sentences whose citations all hold.
///
/// A citation of a claim with no evidence entry is `Unverified`.
pub fn validate_with_evidence(llm_text: &str, evidence: &Vec<ClaimEvidence>, now: i128) -> (a: CitedAnswer)
    ensures
        a.raw_text@ == llm_text@,
        a.checks@.len() == markers(llm_text@).len(),
        forall|k: int|
            0 <= k < a.checks@.len() ==> {
                let p = #[trigger] markers(llm_text@)[k];
                &&& a.checks@[k].claim_id@ == marker_id(llm_text@, p)
                &&& a.checks@[k].status == citation_verdict(evidence@, llm_text@, p, now)
                &&& opt_view(a.checks@[k].source_text) == citation_source(evidence@, llm_text@, p)
                &&& opt_view(a.checks@[k].quote) == quote_before(
                    llm_text@,
                    byte_offset(llm_text@, p) as int,
                )
            },
        a.verified_count == count_status(
            statuses(a.checks@),
            |x: CitationStatus| x == CitationStatus::Verified,
        ),
        a.unverified_count == count_status(
            statuses(a.checks@),
            |x: CitationStatus| x == CitationStatus::Unverified,
        ),
        a.mismatch_count == count_status(statuses(a.checks@), |x: CitationStatus| is_mismatch(x)),
        a.superseded_count == count_status(
            statuses(a.checks@),
            |x: CitationStatus| x == CitationStatus::Superseded,
        ),
        a.redacted_count == 0,
        !a.degraded,
        a.clean_text@ == tidy_paragraphs_from(
            kept_text(
                llm_text@,
                |id: Seq<char>| verified_somewhere(evidence@, llm_text@, id, now),
                sentence_ends(llm_text@).len() as int,
            ),
            0,
        ),
{
    let marks = parse_claim_markers(llm_text);
    let ghost text = llm_text@;
    let ghost mk = markers(text);
    proof {
        lemma_marker_positions(text, text.len() as int);
    }
    let mut checks: Vec<CitationCheck> = Vec::new();
    let mut verified_ids: Vec<String> = Vec::new();
    let mut vc: usize = 0;
    let mut uc: usize = 0;
    let mut mc: usize = 0;
    let mut sc: usize = 0;
    let mut k: usize = 0;
    while k < marks.len()
        invariant
            k <= marks@.len(),
            marks@.len() == mk.len(),
            mk == markers(text),
            text == llm_text@,
            forall|j: int|
                0 <= j < marks@.len() ==> {
                    let p = #[trigger] mk[j];
                    &&& marks@[j].0 == byte_offset(text, p)
                    &&& marks@[j].2@ == marker_id(text, p)
                },
            checks@.len() == k,
            forall|j: int|
                0 <= j < k ==> {
                    let p = #[trigger] mk[j];
                    &&& checks@[j].claim_id@ == marker_id(text, p)
                    &&& checks@[j].status == citation_verdict(evidence@, text, p, now)
                    &&& opt_view(checks@[j].source_text) == citation_source(evidence@, text, p)
                    &&& opt_view(checks@[j].quote) == quote_before(text, byte_offset(text, p) as int)
                },
            vc == count_status(statuses(checks@), |x: CitationStatus| x == CitationStatus::Verified),
            uc == count_status(statuses(checks@), |x: CitationStatus| x == CitationStatus::Unverified),
            mc == count_status(statuses(checks@), |x: CitationStatus| is_mismatch(x)),
            sc == count_status(statuses(checks@), |x: CitationStatus| x == CitationStatus::Superseded),
            vc <= k,
            sc <= k,
            uc <= k,
            mc <= k,
            forall|id: Seq<char>|
                holds_id(verified_ids@, id) <==> verified_before(evidence@, text, k as int, id, now),
        decreases marks.len() - k,
    {
        let check = check_citation(llm_text, marks[k].0, &marks[k].2, evidence, now);
        let status = check.status;
        let id = check.claim_id.clone();
        let ghost old_checks = checks@;
        let ghost old_ids = verified_ids@;
        if status == CitationStatus::Verified {
            verified_ids.push(id);
            proof {
                assert(verified_ids@ == old_ids.push(verified_ids@.last()));
            }
            vc = vc + 1;
        } else if status == CitationStatus::Unverified {
            uc = uc + 1;
        } else if status == CitationStatus::FingerprintMismatch || status
            == CitationStatus::QuoteMismatch {
            assert(is_mismatch(status));
            mc = mc + 1;
        } else if status == CitationStatus::Superseded {
            sc = sc + 1;
        }
        checks.push(check);
        proof {
            assert(statuses(checks@).drop_last() =~= statuses(old_checks));
            assert(statuses(checks@).last() == status);
            lemma_verified_ids_step(evidence@, text, k as int, old_ids, verified_ids@, now);
        }
        k = k + 1;
    }
    let clean_text = rewrite_with_only_verified(llm_text, &verified_ids);
    proof {
        assert((|id: Seq<char>| holds_id(verified_ids@, id)) =~= (|id: Seq<char>|
            verified_somewhere(evidence@, llm_text@, id, now)));
    }
    CitedAnswer {
        raw_text: llm_text.to_string(),
        clean_text,
        checks,
        verified_count: vc,
        unverified_count: uc,
        mismatch_count: mc,
        superseded_count: sc,
        redacted_count: 0,
        degraded: false,
    }
}

/// A citation is verified exactly when its claim is known, its source span
/// can be read, the span's current text matches the stored fingerprint (a
/// legacy 16-digit one on its first 16 digits), any quote before the citation
/// occurs in the span, and the claim's validity has not ended; it is
/// superseded exactly when all of that holds but the validity has ended. A
/// citation of an unknown id is never verified.
pub proof fn lemma_verified_iff_proven(ev: Seq<ClaimEvidence>, text: Seq<char>, p: int, now: i128)
    ensures
        lookup_evidence(ev, marker_id(text, p), 0) is None ==> citation_verdict(ev, text, p, now)
            == CitationStatus::Unverified,
        ({
            let f = lookup_evidence(ev, marker_id(text, p), 0);
            f is Some && f->0.claim_id@ == marker_id(text, p) && f->0.span_text is Some
                && span_matches(f->0.span_text->0@, f->0.span_fingerprint@) && quote_fits(
                f->0.span_text->0@,
                quote_before(text, byte_offset(text, p) as int),
            ) && !superseded_at(f->0.valid_until, now)
        }) <==> citation_verdict(ev, text, p, now) == CitationStatus::Verified,
        ({
            let f = lookup_evidence(ev, marker_id(text, p), 0);
            f is Some && f->0.claim_id@ == marker_id(text, p) && f->0.span_text is Some
                && span_matches(f->0.span_text->0@, f->0.span_fingerprint@) && quote_fits(
                f->0.span_text->0@,
                quote_before(text, byte_offset(text, p) as int),
            ) && superseded_at(f->0.valid_until, now)
        }) <==> citation_verdict(ev, text, p, now) == CitationStatus::Superseded,
{
    lemma_lookup_found(ev, marker_id(text, p), 0);
}

proof fn lemma_lookup_found(ev: Seq<ClaimEvidence>, id: Seq<char>, i: int)
    ensures
        lookup_evidence(ev, id, i) is Some ==> lookup_evidence(ev, id, i)->0.claim_id@ == id,
    decreases ev.len() - i,
{
    if 0 <= i < ev.len() && ev[i].claim_id@ != id {
        lemma_lookup_found(ev, id, i + 1);
    }
}

} // verus!
