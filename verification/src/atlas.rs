//! The atlas page of a region: its subjects with their deduplicated claims,
//! and the findings that concern the region.
use vstd::prelude::*;

use crate::challenger::{
    decision_view, norm_decision_object, normalize_decision_object, normalize_term, question_view,
    contradiction_view, stale_view, canonical_object, claim_ids_of, group_of, note_ids_of, norm_term, picked, Contradiction,
    Decision, OpenQuestion, StaleDep,
};
use crate::claims::{decimal, push_str_chars, usize_decimal, Claim};
use crate::order::{
    clone_strings, dedup, distinct_sorted_keys, key_list, members_of, opt_keys, push_unique,
    rank_order, rank_views, sorted_keys, stable_rank_order, texts, RankKey,
};
use crate::privacy::{spec_max_privacy, Privacy};
use crate::text::{byte_len, byte_len_of, chars_of, find_chars, find_from, lex_lt, str_eq, str_lt, string_of};

verus! {

/// Appends the decimal digits of `n`.
pub fn push_decimal(out: &mut Vec<char>, n: usize)
    ensures
        final(out)@ == old(out)@ + decimal(n as nat),
{
    let d = usize_decimal(n);
    let mut k: usize = 0;
    while k < d.len()
        invariant
            k <= d@.len(),
            out@ == old(out)@ + d@.take(k as int),
        decreases d.len() - k,
    {
        out.push(d[k]);
        k = k + 1;
        proof {
            assert(d@.take(k as int) =~= d@.take(k - 1).push(d@[k - 1]));
        }
    }
    proof {
        assert(d@.take(d@.len() as int) =~= d@);
    }
}

/// A note id as a wiki link.
pub open spec fn bracketed(n: Seq<char>) -> Seq<char> {
    "[["@ + n + "]]"@
}

/// The first `n` notes as wiki links, comma separated.
pub open spec fn joined_links(notes: Seq<Seq<char>>, n: int) -> Seq<char>
    decreases n,
{
    if n <= 0 {
        Seq::empty()
    } else if n == 1 {
        bracketed(notes[0])
    } else {
        joined_links(notes, n - 1) + ", "@ + bracketed(notes[n - 1])
    }
}

fn push_links(out: &mut Vec<char>, notes: &Vec<String>, n: usize)
    requires
        n <= notes@.len(),
    ensures
        final(out)@ == old(out)@ + joined_links(texts(notes@), n as int),
{
    let mut i: usize = 0;
    while i < n
        invariant
            i <= n <= notes@.len(),
            out@ == old(out)@ + joined_links(texts(notes@), i as int),
        decreases n - i,
    {
        let ghost before = out@;
        if i > 0 {
            push_str_chars(out, ", ");
        }
        push_str_chars(out, "[[");
        push_str_chars(out, notes[i].as_str());
        push_str_chars(out, "]]");
        proof {
            assert(texts(notes@)[i as int] == notes@[i as int]@);
            if i == 0 {
                assert(out@ =~= before + bracketed(texts(notes@)[0]));
                assert(old(out)@ + joined_links(texts(notes@), 1) =~= out@);
            } else {
                assert(out@ =~= old(out)@ + (joined_links(texts(notes@), i as int) + ", "@
                    + bracketed(texts(notes@)[i as int])));
            }
        }
        i = i + 1;
    }
}

/// Up to three notes as wiki links, then how many more there are.
pub open spec fn source_list(notes: Seq<Seq<char>>) -> Seq<char> {
    if notes.len() <= 3 {
        joined_links(notes, notes.len() as int)
    } else {
        joined_links(notes, 3) + ", and "@ + decimal((notes.len() - 3) as nat) + " more"@
    }
}

/// Appends up to three notes as wiki links (see `source_list`).
pub fn push_source_note_list(out: &mut Vec<char>, notes: &Vec<String>)
    ensures
        final(out)@ == old(out)@ + source_list(texts(notes@)),
{
    if notes.len() <= 3 {
        push_links(out, notes, notes.len());
    } else {
        let ghost base = out@;
        push_links(out, notes, 3);
        push_str_chars(out, ", and ");
        push_decimal(out, notes.len() - 3);
        push_str_chars(out, " more");
        proof {
            assert(out@ =~= base + source_list(texts(notes@)));
        }
    }
}

/// Up to three notes as wiki links, then how many more there are.
pub fn source_note_list(notes: &Vec<String>) -> (r: String)
    ensures
        r@ == source_list(texts(notes@)),
{
    let mut out: Vec<char> = Vec::new();
    push_source_note_list(&mut out, notes);
    string_of(&out)
}

/// The sources of a claim line: the one source note, or the count and up to
/// ten links when there are more than twelve, all links otherwise.
pub open spec fn sources_suffix(notes: Seq<Seq<char>>) -> Seq<char> {
    if notes.len() == 1 {
        "(source note: "@ + bracketed(notes[0]) + ")"@
    } else {
        let shown: int = if notes.len() > 12 {
            10
        } else {
            notes.len() as int
        };
        let more = if notes.len() > 12 {
            ", ... ("@ + decimal((notes.len() - 10) as nat) + " more)"@
        } else {
            Seq::empty()
        };
        "("@ + decimal(notes.len()) + " sources: "@ + joined_links(notes, shown) + more + ")"@
    }
}

fn push_sources_suffix(out: &mut Vec<char>, notes: &Vec<String>)
    ensures
        final(out)@ == old(out)@ + sources_suffix(texts(notes@)),
{
    let ghost base = out@;
    if notes.len() == 1 {
        push_str_chars(out, "(source note: ");
        push_str_chars(out, "[[");
        push_str_chars(out, notes[0].as_str());
        push_str_chars(out, "]]");
        push_str_chars(out, ")");
        proof {
            assert(texts(notes@)[0] == notes@[0]@);
            assert(out@ =~= base + sources_suffix(texts(notes@)));
        }
    } else {
        push_str_chars(out, "(");
        push_decimal(out, notes.len());
        push_str_chars(out, " sources: ");
        if notes.len() > 12 {
            push_links(out, notes, 10);
            push_str_chars(out, ", ... (");
            push_decimal(out, notes.len() - 10);
            push_str_chars(out, " more)");
        } else {
            push_links(out, notes, notes.len());
        }
        push_str_chars(out, ")");
        proof {
            assert(out@ =~= base + sources_suffix(texts(notes@)));
        }
    }
}

/// Dashes read as spaces.
pub open spec fn humanized(s: Seq<char>) -> Seq<char> {
    s.map_values(|c: char| if c == '-' { ' ' } else { c })
}

/// Appends `s` with every `from` character replaced by a space.
fn push_spaced(out: &mut Vec<char>, s: &str, from: char)
    ensures
        final(out)@ == old(out)@ + s@.map_values(|c: char| if c == from { ' ' } else { c }),
{
    let v = chars_of(s);
    let mut i: usize = 0;
    while i < v.len()
        invariant
            v@ == s@,
            i <= v@.len(),
            out@ == old(out)@ + v@.take(i as int).map_values(|c: char| if c == from { ' ' } else { c }),
        decreases v.len() - i,
    {
        let c = v[i];
        out.push(if c == from { ' ' } else { c });
        proof {
            assert(v@.take(i + 1).map_values(|c: char| if c == from { ' ' } else { c }) =~= v@.take(
                i as int,
            ).map_values(|c: char| if c == from { ' ' } else { c }).push(if c == from { ' ' } else { c }));
        }
        i = i + 1;
    }
    proof {
        assert(v@.take(v@.len() as int) =~= v@);
    }
}

/// A term with dashes read as spaces.
pub fn humanize_term(value: &str) -> (r: String)
    ensures
        r@ == humanized(value@),
{
    let mut out: Vec<char> = Vec::new();
    push_spaced(&mut out, value, '-');
    string_of(&out)
}

/// The notes of `left` then of `right`, first seen first, without repeats.
pub open spec fn merged(left: Seq<Seq<char>>, right: Seq<Seq<char>>) -> Seq<Seq<char>> {
    dedup(left + right)
}

/// The notes of `left` then of `right`, first seen first, without repeats.
pub fn merged_sources(left: &Vec<String>, right: &Vec<String>) -> (r: Vec<String>)
    ensures
        texts(r@) == merged(texts(left@), texts(right@)),
{
    let ghost all = texts(left@) + texts(right@);
    let mut out: Vec<String> = Vec::new();
    let mut i: usize = 0;
    while i < left.len()
        invariant
            i <= left@.len(),
            all == texts(left@) + texts(right@),
            texts(out@) == dedup(all.take(i as int)),
        decreases left.len() - i,
    {
        proof {
            assert(all.take(i + 1).drop_last() =~= all.take(i as int));
            assert(all[i as int] == left@[i as int]@);
        }
        push_unique(&mut out, &left[i]);
        i = i + 1;
    }
    let mut j: usize = 0;
    while j < right.len()
        invariant
            j <= right@.len(),
            all == texts(left@) + texts(right@),
            texts(out@) == dedup(all.take(left@.len() + j)),
        decreases right.len() - j,
    {
        proof {
            assert(all.take(left@.len() + j + 1).drop_last() =~= all.take(left@.len() + j));
            assert(all[left@.len() + j] == right@[j as int]@);
        }
        push_unique(&mut out, &right[j]);
        j = j + 1;
    }
    proof {
        assert(all.take(all.len() as int) =~= all);
    }
    out
}

/// Claims of one subject that say the same thing, shown once.
#[derive(Debug, Clone)]
pub struct ClaimTuple {
    pub predicate: String,
    pub object: Option<String>,
    pub representative_claim_id: String,
    pub source_notes: Vec<String>,
    pub privacy: Privacy,
}

/// Grouping key of a claim line: predicate, then the object with absent
/// objects first.
pub open spec fn tuple_key(c: Claim) -> Seq<Seq<char>> {
    match c.object {
        Some(o) => seq![c.predicate@, "1"@, o@],
        None => seq![c.predicate@, Seq::empty(), Seq::empty()],
    }
}

/// Claim-line keys of all claims.
pub open spec fn tuple_keys(claims: Seq<Claim>) -> Seq<Option<Seq<Seq<char>>>> {
    claims.map_values(|c: Claim| Some(tuple_key(c)))
}

/// The smallest of the first `n` texts.
pub open spec fn min_text(s: Seq<Seq<char>>, n: int) -> Seq<char>
    decreases n,
{
    if n <= 1 {
        s[0]
    } else {
        let m = min_text(s, n - 1);
        if lex_lt(s[n - 1], m) {
            s[n - 1]
        } else {
            m
        }
    }
}

/// The most restrictive level among the first `n` claims.
pub open spec fn max_privacy(e: Seq<Claim>, n: int) -> Privacy
    decreases n,
{
    if n <= 0 {
        Privacy::Public
    } else {
        spec_max_privacy(max_privacy(e, n - 1), e[n - 1].privacy)
    }
}

/// A claim line as plain values.
pub open spec fn tuple_view(t: ClaimTuple) -> (Seq<char>, Option<Seq<char>>, Seq<char>, Seq<Seq<char>>, Privacy) {
    (
        t.predicate@,
        match t.object {
            Some(o) => Some(o@),
            None => None,
        },
        t.representative_claim_id@,
        texts(t.source_notes@),
        t.privacy,
    )
}

/// The line for the claims under key `k`: smallest claim id as representative,
/// source notes first seen first, and the most restrictive level.
pub open spec fn tuple_for(claims: Seq<Claim>, k: Seq<Seq<char>>) -> (Seq<char>, Option<Seq<char>>, Seq<char>, Seq<Seq<char>>, Privacy) {
    let e = group_of(claims, tuple_keys(claims), k);
    (
        k[0],
        if k[1] == "1"@ {
            Some(k[2])
        } else {
            None
        },
        min_text(e.map_values(|c: Claim| c.id@), e.len() as int),
        note_ids_of(e),
        max_privacy(e, e.len() as int),
    )
}

/// Claim lines for the first `n` keys.
pub open spec fn tuple_candidates(claims: Seq<Claim>, ks: Seq<Seq<Seq<char>>>, n: int) -> Seq<(Seq<char>, Option<Seq<char>>, Seq<char>, Seq<Seq<char>>, Privacy)>
    decreases n,
{
    if n <= 0 {
        Seq::empty()
    } else {
        tuple_candidates(claims, ks, n - 1).push(tuple_for(claims, ks[n - 1]))
    }
}

/// The claim lines of a subject: one per (predicate, object), ranked by
/// number of source notes (most first), then predicate, then object.
pub open spec fn claim_tuples(claims: Seq<Claim>) -> Seq<(Seq<char>, Option<Seq<char>>, Seq<char>, Seq<Seq<char>>, Privacy)> {
    let ks = sorted_keys(tuple_keys(claims), claims.len() as int);
    let cands = tuple_candidates(claims, ks, ks.len() as int);
    let ranks = cands.map_values(
        |t: (Seq<char>, Option<Seq<char>>, Seq<char>, Seq<Seq<char>>, Privacy)| (
            t.3.len() as int,
            t.0,
            match t.1 {
                Some(o) => o,
                None => Seq::empty(),
            },
        ),
    );
    rank_order(ranks, cands.len() as int).map_values(|j: int| cands[j])
}

fn tuple_key_of(c: &Claim) -> (r: Vec<String>)
    ensures
        texts(r@) == tuple_key(*c),
{
    let mut k: Vec<String> = Vec::new();
    k.push(c.predicate.clone());
    match &c.object {
        Some(o) => {
            k.push("1".to_string());
            k.push(o.clone());
        },
        None => {
            k.push(String::new());
            k.push(String::new());
        },
    }
    assert(texts(k@) =~= tuple_key(*c));
    k
}

fn clone_tuple(t: &ClaimTuple) -> (r: ClaimTuple)
    ensures
        tuple_view(r) == tuple_view(*t),
{
    ClaimTuple {
        predicate: t.predicate.clone(),
        object: match &t.object {
            Some(o) => Some(o.clone()),
            None => None,
        },
        representative_claim_id: t.representative_claim_id.clone(),
        source_notes: clone_strings(&t.source_notes),
        privacy: t.privacy,
    }
}

fn smallest_id(claims: &Vec<Claim>, idx: &Vec<usize>) -> (r: String)
    requires
        idx@.len() > 0,
        forall|j: int| 0 <= j < idx@.len() ==> idx@[j] < claims@.len(),
    ensures
        r@ == min_text(picked(claims@, idx@).map_values(|c: Claim| c.id@), idx@.len() as int),
{
    let ghost s = picked(claims@, idx@).map_values(|c: Claim| c.id@);
    let mut best: usize = 0;
    let mut k: usize = 1;
    while k < idx.len()
        invariant
            1 <= k <= idx@.len(),
            best < k,
            forall|j: int| 0 <= j < idx@.len() ==> idx@[j] < claims@.len(),
            s == picked(claims@, idx@).map_values(|c: Claim| c.id@),
            s[best as int] == min_text(s, k as int),
        decreases idx.len() - k,
    {
        assert(s[k as int] == claims@[idx@[k as int] as int].id@);
        assert(s[best as int] == claims@[idx@[best as int] as int].id@);
        if str_lt(claims[idx[k]].id.as_str(), claims[idx[best]].id.as_str()) {
            best = k;
        }
        k = k + 1;
    }
    assert(s[best as int] == claims@[idx@[best as int] as int].id@);
    claims[idx[best]].id.clone()
}

fn strictest(claims: &Vec<Claim>, idx: &Vec<usize>) -> (r: Privacy)
    requires
        forall|j: int| 0 <= j < idx@.len() ==> idx@[j] < claims@.len(),
    ensures
        r == max_privacy(picked(claims@, idx@), idx@.len() as int),
{
    let ghost e = picked(claims@, idx@);
    let mut level = Privacy::Public;
    let mut k: usize = 0;
    while k < idx.len()
        invariant
            k <= idx@.len(),
            forall|j: int| 0 <= j < idx@.len() ==> idx@[j] < claims@.len(),
            e == picked(claims@, idx@),
            level == max_privacy(e, k as int),
        decreases idx.len() - k,
    {
        level = level.max_level(claims[idx[k]].privacy);
        k = k + 1;
    }
    level
}

/// Claim `c` falls under line `t`: same predicate and same object.
pub open spec fn claim_on_line(c: Claim, t: (Seq<char>, Option<Seq<char>>, Seq<char>, Seq<Seq<char>>, Privacy)) -> bool {
    &&& c.predicate@ == t.0
    &&& match c.object {
        Some(o) => t.1 == Some(o@),
        None => t.1 is None,
    }
}

proof fn lemma_max_privacy_bounds(e: Seq<Claim>, n: int)
    requires
        0 <= n <= e.len(),
    ensures
        forall|t: int| 0 <= t < n ==> max_privacy(e, n).spec_rank() >= (#[trigger] e[t]).privacy.spec_rank(),
        n > 0 ==> exists|t: int| 0 <= t < n && max_privacy(e, n) == (#[trigger] e[t]).privacy,
    decreases n,
{
    if n > 0 {
        lemma_max_privacy_bounds(e, n - 1);
        if n > 1 && max_privacy(e, n) != e[n - 1].privacy {
            let t = choose|t: int| 0 <= t < n - 1 && max_privacy(e, n - 1) == (#[trigger] e[t]).privacy;
            assert(max_privacy(e, n) == e[t].privacy);
        }
    }
}

proof fn lemma_tuple_candidates(claims: Seq<Claim>, ks: Seq<Seq<Seq<char>>>, n: int)
    requires
        0 <= n,
    ensures
        tuple_candidates(claims, ks, n).len() == n,
        forall|g: int| 0 <= g < n ==> #[trigger] tuple_candidates(claims, ks, n)[g] == tuple_for(claims, ks[g]),
    decreases n,
{
    if n > 0 {
        lemma_tuple_candidates(claims, ks, n - 1);
    }
}

/// Each claim line of a subject is as restrictive as every claim it stands
/// for, and exactly as restrictive as one of them: a Secret claim makes its
/// line Secret, whatever other claims share the line.
pub proof fn lemma_line_privacy_strictest(claims: Seq<Claim>, j: int)
    requires
        0 <= j < claim_tuples(claims).len(),
    ensures
        forall|i: int|
            0 <= i < claims.len() && claim_on_line(#[trigger] claims[i], claim_tuples(claims)[j])
                ==> claim_tuples(claims)[j].4.spec_rank() >= claims[i].privacy.spec_rank(),
        exists|i: int|
            0 <= i < claims.len() && claim_on_line(#[trigger] claims[i], claim_tuples(claims)[j])
                && claim_tuples(claims)[j].4 == claims[i].privacy,
{
    reveal_strlit("1");
    let keys = tuple_keys(claims);
    let n = claims.len() as int;
    let ks = sorted_keys(keys, n);
    let cands = tuple_candidates(claims, ks, ks.len() as int);
    let ranks = cands.map_values(
        |t: (Seq<char>, Option<Seq<char>>, Seq<char>, Seq<Seq<char>>, Privacy)| (
            t.3.len() as int,
            t.0,
            match t.1 {
                Some(o) => o,
                None => Seq::empty(),
            },
        ),
    );
    lemma_tuple_candidates(claims, ks, ks.len() as int);
    crate::order::lemma_rank_order_bounds(ranks, cands.len() as int);
    let g = rank_order(ranks, cands.len() as int)[j];
    assert(claim_tuples(claims)[j] == cands[g]);
    let line = claim_tuples(claims)[j];
    let k = ks[g];
    assert(line == tuple_for(claims, k));
    assert forall|i: int| 0 <= i < n && (#[trigger] keys[i]) is Some implies keys[i]->0.len() == 3 by {
        assert(keys[i] == Some(tuple_key(claims[i])));
    }
    crate::order::lemma_sorted_keys_len(keys, n, 3, g);
    crate::order::lemma_sorted_keys_present(keys, n, g);
    let i0 = choose|i: int| 0 <= i < n && keys[i] == Some(k);
    assert(keys[i0] == Some(tuple_key(claims[i0])));
    let m = crate::order::members(keys, k, n);
    let e = group_of(claims, keys, k);
    assert(e == m.map_values(|x: int| claims[x]));
    crate::order::lemma_members_sound(keys, k, n);
    lemma_max_privacy_bounds(e, e.len() as int);
    assert(line.4 == max_privacy(e, e.len() as int));
    assert forall|i: int|
        0 <= i < claims.len() && claim_on_line(#[trigger] claims[i], line)
            implies line.4.spec_rank() >= claims[i].privacy.spec_rank() by {
        assert(keys[i] == Some(tuple_key(claims[i])));
        match claims[i].object {
            Some(o) => {
                assert(tuple_key(claims[i]) =~= k);
            },
            None => {
                assert(claims[i0].object is None);
                assert(tuple_key(claims[i]) =~= k);
            },
        }
        crate::order::lemma_members_complete(keys, k, n, i);
        let p = choose|p: int| 0 <= p < m.len() && #[trigger] m[p] == i;
        assert(e[p] == claims[i]);
    }
    let t = choose|t: int| 0 <= t < e.len() && max_privacy(e, e.len() as int) == (#[trigger] e[t]).privacy;
    let w = m[t];
    assert(e[t] == claims[w]);
    assert(keys[w] == Some(k));
    assert(keys[w] == Some(tuple_key(claims[w])));
    match claims[w].object {
        Some(o) => {
            assert(k[1] == "1"@);
            assert(k[2] == o@);
        },
        None => {
            assert(k[1].len() == 0);
            assert(k[1] != "1"@);
        },
    }
    assert(claim_on_line(claims[w], line));
}

/// The claim lines of a subject (see `claim_tuples`).
pub fn deduped_claim_tuples(claims: &Vec<Claim>) -> (out: Vec<ClaimTuple>)
    ensures
        out@.map_values(|t: ClaimTuple| tuple_view(t)) == claim_tuples(claims@),
{
    let mut keys: Vec<Option<Vec<String>>> = Vec::new();
    let mut i: usize = 0;
    while i < claims.len()
        invariant
            i <= claims@.len(),
            keys@.len() == i,
            forall|j: int| 0 <= j < i ==> crate::order::opt_key(#[trigger] keys@[j]) == Some(tuple_key(claims@[j])),
        decreases claims.len() - i,
    {
        let k = tuple_key_of(&claims[i]);
        keys.push(Some(k));
        i = i + 1;
    }
    assert(opt_keys(keys@) =~= tuple_keys(claims@));
    let ks = distinct_sorted_keys(&keys);
    let ghost kl = key_list(ks@);
    proof {
        assert forall|i: int|
            0 <= i < claims@.len() && (#[trigger] tuple_keys(claims@)[i]) is Some implies tuple_keys(
            claims@,
        )[i]->0.len() == 3 by {
            assert(tuple_keys(claims@)[i] == Some(tuple_key(claims@[i])));
        }
    }
    let mut cands: Vec<ClaimTuple> = Vec::new();
    let mut ranks: Vec<RankKey> = Vec::new();
    let mut g: usize = 0;
    while g < ks.len()
        invariant
            g <= ks@.len(),
            keys@.len() == claims@.len(),
            opt_keys(keys@) == tuple_keys(claims@),
            kl == key_list(ks@),
            kl == sorted_keys(tuple_keys(claims@), claims@.len() as int),
            forall|i: int|
                0 <= i < claims@.len() && (#[trigger] tuple_keys(claims@)[i]) is Some ==> tuple_keys(
                    claims@,
                )[i]->0.len() == 3,
            cands@.map_values(|t: ClaimTuple| tuple_view(t)) == tuple_candidates(claims@, kl, g as int),
            ranks@.len() == cands@.len(),
            forall|j: int|
                0 <= j < ranks@.len() ==> crate::order::rank_view(#[trigger] ranks@[j]) == (
                    texts(cands@[j].source_notes@).len() as int,
                    cands@[j].predicate@,
                    match cands@[j].object {
                        Some(o) => o@,
                        None => Seq::<char>::empty(),
                    },
                ),
        decreases ks.len() - g,
    {
        let k = &ks[g];
        proof {
            assert(kl[g as int] == texts(k@));
            crate::order::lemma_sorted_keys_len(tuple_keys(claims@), claims@.len() as int, 3, g as int);
            // The key of an existing group is carried by at least one claim.
            crate::order::lemma_sorted_keys_present(tuple_keys(claims@), claims@.len() as int, g as int);
        }
        let idx = crate::challenger::keys_of_members(claims, &keys, k);
        proof {
            assert(picked(claims@, idx@).len() == idx@.len());
            assert(group_of(claims@, tuple_keys(claims@), kl[g as int]).len() == crate::order::members(
                tuple_keys(claims@),
                kl[g as int],
                claims@.len() as int,
            ).len());
        }
        let rep = smallest_id(claims, &idx);
        let notes = crate::challenger::unique_note_ids(claims, &idx);
        let level = strictest(claims, &idx);
        let object = if str_eq(k[1].as_str(), "1") {
            Some(k[2].clone())
        } else {
            None
        };
        let second = match &object {
            Some(o) => o.clone(),
            None => String::new(),
        };
        let ghost before = cands@;
        let count = notes.len();
        ranks.push(RankKey { count, first: k[0].clone(), second });
        cands.push(
            ClaimTuple {
                predicate: k[0].clone(),
                object,
                representative_claim_id: rep,
                source_notes: notes,
                privacy: level,
            },
        );
        proof {
            assert(cands@.map_values(|t: ClaimTuple| tuple_view(t)) =~= before.map_values(
                |t: ClaimTuple| tuple_view(t),
            ).push(tuple_for(claims@, kl[g as int])));
        }
        g = g + 1;
    }
    let order = stable_rank_order(&ranks);
    let ghost cv = cands@.map_values(|t: ClaimTuple| tuple_view(t));
    proof {
        assert(rank_views(ranks@) =~= cv.map_values(
            |t: (Seq<char>, Option<Seq<char>>, Seq<char>, Seq<Seq<char>>, Privacy)| (
                t.3.len() as int,
                t.0,
                match t.1 {
                    Some(o) => o,
                    None => Seq::empty(),
                },
            ),
        ));
    }
    let mut out: Vec<ClaimTuple> = Vec::new();
    let mut i: usize = 0;
    while i < order.len()
        invariant
            i <= order@.len(),
            order@.len() == ranks@.len(),
            ranks@.len() == cands@.len(),
            cv == cands@.map_values(|t: ClaimTuple| tuple_view(t)),
            forall|j: int|
                0 <= j < order@.len() ==> #[trigger] order@[j] == rank_order(rank_views(ranks@), ranks@.len() as int)[j]
                    && order@[j] < ranks@.len(),
            out@.len() == i,
            forall|j: int| 0 <= j < i ==> tuple_view(#[trigger] out@[j]) == cv[order@[j] as int],
        decreases order.len() - i,
    {
        let t = clone_tuple(&cands[order[i]]);
        out.push(t);
        i = i + 1;
    }
    proof {
        assert(out@.map_values(|t: ClaimTuple| tuple_view(t)) =~= claim_tuples(claims@));
    }
    out
}

/// One claim line of the atlas; Secret claims show neither predicate nor object.
pub open spec fn tuple_line(t: (Seq<char>, Option<Seq<char>>, Seq<char>, Seq<Seq<char>>, Privacy)) -> Seq<char> {
    if t.4 == Privacy::Secret {
        "- [claim:"@ + t.2 + "] [redacted] [redacted] "@ + sources_suffix(t.3) + "\n"@
    } else {
        "- [claim:"@ + t.2 + "] "@ + t.0 + " "@ + (match t.1 {
            Some(o) => o,
            None => "(unary)"@,
        }) + " "@ + sources_suffix(t.3) + "\n"@
    }
}

/// The first `n` claim lines.
pub open spec fn tuple_lines(ts: Seq<(Seq<char>, Option<Seq<char>>, Seq<char>, Seq<Seq<char>>, Privacy)>, n: int) -> Seq<char>
    decreases n,
{
    if n <= 0 {
        Seq::empty()
    } else {
        tuple_lines(ts, n - 1) + tuple_line(ts[n - 1])
    }
}

/// The claims listed for subject `s`: the first entry with that subject, from `i`.
pub open spec fn lookup_claims(cbs: Seq<(String, Vec<Claim>)>, s: Seq<char>, i: int) -> Option<Seq<Claim>>
    decreases cbs.len() - i,
{
    if i < 0 || i >= cbs.len() {
        None
    } else if cbs[i].0@ == s {
        Some(cbs[i].1@)
    } else {
        lookup_claims(cbs, s, i + 1)
    }
}

/// The block of one subject: its heading and its claim lines.
pub open spec fn subject_block(cbs: Seq<(String, Vec<Claim>)>, s: Seq<char>) -> Seq<char> {
    "### "@ + s + "\n"@ + (match lookup_claims(cbs, s, 0) {
        Some(c) => tuple_lines(claim_tuples(c), claim_tuples(c).len() as int),
        None => Seq::empty(),
    }) + "\n"@
}

/// The blocks of the first `n` subjects.
pub open spec fn subject_blocks(subjects: Seq<String>, cbs: Seq<(String, Vec<Claim>)>, n: int) -> Seq<char>
    decreases n,
{
    if n <= 0 {
        Seq::empty()
    } else {
        subject_blocks(subjects, cbs, n - 1) + subject_block(cbs, subjects[n - 1]@)
    }
}

fn push_tuple_line(out: &mut Vec<char>, t: &ClaimTuple)
    ensures
        final(out)@ == old(out)@ + tuple_line(tuple_view(*t)),
{
    let ghost base = out@;
    push_str_chars(out, "- [claim:");
    push_str_chars(out, t.representative_claim_id.as_str());
    if t.privacy == Privacy::Secret {
        push_str_chars(out, "] [redacted] [redacted] ");
    } else {
        push_str_chars(out, "] ");
        push_str_chars(out, t.predicate.as_str());
        push_str_chars(out, " ");
        match &t.object {
            Some(o) => push_str_chars(out, o.as_str()),
            None => push_str_chars(out, "(unary)"),
        }
        push_str_chars(out, " ");
    }
    push_sources_suffix(out, &t.source_notes);
    push_str_chars(out, "\n");
    proof {
        assert(out@ =~= base + tuple_line(tuple_view(*t)));
    }
}

fn find_subject_claims(cbs: &Vec<(String, Vec<Claim>)>, s: &String) -> (r: Option<usize>)
    ensures
        match lookup_claims(cbs@, s@, 0) {
            Some(c) => r matches Some(i) && i < cbs@.len() && cbs@[i as int].1@ == c,
            None => r is None,
        },
{
    let mut i: usize = 0;
    while i < cbs.len()
        invariant
            i <= cbs@.len(),
            lookup_claims(cbs@, s@, 0) == lookup_claims(cbs@, s@, i as int),
        decreases cbs.len() - i,
    {
        if str_eq(cbs[i].0.as_str(), s.as_str()) {
            return Some(i);
        }
        i = i + 1;
    }
    None
}

fn push_subject_blocks(out: &mut Vec<char>, subjects: &Vec<String>, cbs: &Vec<(String, Vec<Claim>)>)
    ensures
        final(out)@ == old(out)@ + subject_blocks(subjects@, cbs@, subjects@.len() as int),
{
    let mut i: usize = 0;
    while i < subjects.len()
        invariant
            i <= subjects@.len(),
            out@ == old(out)@ + subject_blocks(subjects@, cbs@, i as int),
        decreases subjects.len() - i,
    {
        let ghost before = out@;
        let subject = &subjects[i];
        push_str_chars(out, "### ");
        push_str_chars(out, subject.as_str());
        push_str_chars(out, "\n");
        let ghost mid = out@;
        match find_subject_claims(cbs, subject) {
            Some(j) => {
                let tuples = deduped_claim_tuples(&cbs[j].1);
                let ghost tv = tuples@.map_values(|t: ClaimTuple| tuple_view(t));
                let mut k: usize = 0;
                while k < tuples.len()
                    invariant
                        k <= tuples@.len(),
                        tv == tuples@.map_values(|t: ClaimTuple| tuple_view(t)),
                        out@ == mid + tuple_lines(tv, k as int),
                    decreases tuples.len() - k,
                {
                    push_tuple_line(out, &tuples[k]);
                    k = k + 1;
                }
            },
            None => {},
        }
        push_str_chars(out, "\n");
        proof {
            assert(out@ =~= before + subject_block(cbs@, subjects@[i as int]@));
            assert(out@ =~= old(out)@ + subject_blocks(subjects@, cbs@, i + 1));
        }
        i = i + 1;
    }
}

/// Underscores read as spaces.
pub open spec fn unscored(s: Seq<char>) -> Seq<char> {
    s.map_values(|c: char| if c == '_' { ' ' } else { c })
}

/// Atlas line of a decision.
pub open spec fn decision_line(d: (Seq<char>, Seq<char>, Seq<Seq<char>>, Seq<Seq<char>>)) -> Seq<char> {
    "- **"@ + humanized(d.0) + " -> "@ + humanized(d.1) + "** ("@ + decimal(d.2.len())
        + " supporting claims across "@ + source_list(d.2) + ")\n"@
}

/// Atlas line of a stale dependency.
pub open spec fn stale_line(d: (Seq<char>, Seq<char>, Seq<char>, Seq<Seq<char>>, Seq<Seq<char>>, Seq<Seq<char>>, Seq<Seq<char>>)) -> Seq<char> {
    "- **"@ + humanized(d.0) + "** depends on `"@ + d.1 + "` which is superseded by `"@ + d.2 + "` ("@
        + decimal(d.3.len()) + " depends_on sources; "@ + decimal(d.4.len())
        + " superseded_by sources: "@ + source_list(merged(d.3, d.4)) + ")\n"@
}

/// Atlas line of a contradiction.
pub open spec fn contradiction_line(c: (Seq<char>, Seq<char>, Seq<char>, Seq<char>, Seq<Seq<char>>, Seq<Seq<char>>, Seq<Seq<char>>, Seq<Seq<char>>)) -> Seq<char> {
    "- **"@ + humanized(c.0) + ": "@ + c.1 + " disagreement** - "@ + c.2 + " ("@ + decimal(c.4.len())
        + " sources) vs "@ + c.3 + " ("@ + decimal(c.5.len()) + " sources) ["@ + source_list(
        merged(c.4, c.5),
    ) + "]\n"@
}

/// Atlas line of an open question.
pub open spec fn question_line(q: (Seq<char>, Seq<char>, Seq<char>, Seq<Seq<char>>, Seq<Seq<char>>)) -> Seq<char> {
    "- **"@ + humanized(q.0) + ": "@ + q.2 + "** - "@ + unscored(q.1) + " ("@ + decimal(q.3.len())
        + " supporting claims across "@ + source_list(q.3) + ")\n"@
}

/// Lines of the first `n` decisions.
pub open spec fn decision_lines(ds: Seq<Decision>, n: int) -> Seq<char>
    decreases n,
{
    if n <= 0 {
        Seq::empty()
    } else {
        decision_lines(ds, n - 1) + decision_line(crate::challenger::decision_view(ds[n - 1]))
    }
}

/// Lines of the first `n` stale dependencies.
pub open spec fn stale_lines(ds: Seq<StaleDep>, n: int) -> Seq<char>
    decreases n,
{
    if n <= 0 {
        Seq::empty()
    } else {
        stale_lines(ds, n - 1) + stale_line(crate::challenger::stale_view(ds[n - 1]))
    }
}

/// Lines of the first `n` contradictions.
pub open spec fn contradiction_lines(cs: Seq<Contradiction>, n: int) -> Seq<char>
    decreases n,
{
    if n <= 0 {
        Seq::empty()
    } else {
        contradiction_lines(cs, n - 1) + contradiction_line(
            crate::challenger::contradiction_view(cs[n - 1]),
        )
    }
}

/// Lines of the first `n` open questions.
pub open spec fn question_lines(qs: Seq<OpenQuestion>, n: int) -> Seq<char>
    decreases n,
{
    if n <= 0 {
        Seq::empty()
    } else {
        question_lines(qs, n - 1) + question_line(crate::challenger::question_view(qs[n - 1]))
    }
}

/// A findings section: its lines, or `- none` when there are none.
pub open spec fn section(count: nat, lines: Seq<char>) -> Seq<char> {
    if count == 0 {
        "- none\n"@
    } else {
        lines
    }
}

/// Findings that concern a region.
#[derive(Debug, Clone)]
pub struct AtlasFindings {
    pub decisions: Vec<Decision>,
    pub stale: Vec<StaleDep>,
    pub contradictions: Vec<Contradiction>,
    pub open_questions: Vec<OpenQuestion>,
}

/// The atlas page of a region: title, overview, a block per subject, then
/// its recent decisions, stale dependencies, contradictions and open questions.
pub open spec fn atlas_markdown(
    region: Seq<char>,
    overview: Seq<char>,
    subjects: Seq<String>,
    cbs: Seq<(String, Vec<Claim>)>,
    f: AtlasFindings,
) -> Seq<char> {
    "# Atlas: "@ + region + "\n\n_"@ + overview + "_\n\n## Subjects\n"@ + subject_blocks(
        subjects,
        cbs,
        subjects.len() as int,
    ) + "## Recent decisions\n"@ + section(
        f.decisions@.len(),
        decision_lines(f.decisions@, f.decisions@.len() as int),
    ) + "\n## Stale dependencies\n"@ + section(
        f.stale@.len(),
        stale_lines(f.stale@, f.stale@.len() as int),
    ) + "\n## Contradictions\n"@ + section(
        f.contradictions@.len(),
        contradiction_lines(f.contradictions@, f.contradictions@.len() as int),
    ) + "\n## Open questions\n"@ + section(
        f.open_questions@.len(),
        question_lines(f.open_questions@, f.open_questions@.len() as int),
    )
}

fn push_decisions(out: &mut Vec<char>, ds: &Vec<Decision>)
    ensures
        final(out)@ == old(out)@ + section(ds@.len(), decision_lines(ds@, ds@.len() as int)),
{
    if ds.len() == 0 {
        push_str_chars(out, "- none\n");
        return;
    }
    let mut i: usize = 0;
    while i < ds.len()
        invariant
            i <= ds@.len(),
            out@ == old(out)@ + decision_lines(ds@, i as int),
        decreases ds.len() - i,
    {
        let d = &ds[i];
        let ghost before = out@;
        push_str_chars(out, "- **");
        push_spaced(out, d.subject.as_str(), '-');
        push_str_chars(out, " -> ");
        push_spaced(out, d.object.as_str(), '-');
        push_str_chars(out, "** (");
        push_decimal(out, d.source_note_ids.len());
        push_str_chars(out, " supporting claims across ");
        push_source_note_list(out, &d.source_note_ids);
        push_str_chars(out, ")\n");
        proof {
            assert(out@ =~= before + decision_line(crate::challenger::decision_view(*d)));
        }
        i = i + 1;
    }
}

#[verifier::rlimit(40)]
fn push_stale(out: &mut Vec<char>, ds: &Vec<StaleDep>)
    ensures
        final(out)@ == old(out)@ + section(ds@.len(), stale_lines(ds@, ds@.len() as int)),
{
    if ds.len() == 0 {
        push_str_chars(out, "- none\n");
        return;
    }
    let mut i: usize = 0;
    while i < ds.len()
        invariant
            i <= ds@.len(),
            out@ == old(out)@ + stale_lines(ds@, i as int),
        decreases ds.len() - i,
    {
        let d = &ds[i];
        let ghost before = out@;
        push_str_chars(out, "- **");
        push_spaced(out, d.dependent_subject.as_str(), '-');
        push_str_chars(out, "** depends on `");
        push_str_chars(out, d.stale_subject.as_str());
        push_str_chars(out, "` which is superseded by `");
        push_str_chars(out, d.superseded_by.as_str());
        push_str_chars(out, "` (");
        push_decimal(out, d.depends_on_source_note_ids.len());
        push_str_chars(out, " depends_on sources; ");
        push_decimal(out, d.superseded_source_note_ids.len());
        push_str_chars(out, " superseded_by sources: ");
        let m = merged_sources(&d.depends_on_source_note_ids, &d.superseded_source_note_ids);
        push_source_note_list(out, &m);
        push_str_chars(out, ")\n");
        proof {
            assert(out@ =~= before + stale_line(crate::challenger::stale_view(*d)));
        }
        i = i + 1;
    }
}

#[verifier::rlimit(40)]
fn push_contradictions(out: &mut Vec<char>, cs: &Vec<Contradiction>)
    ensures
        final(out)@ == old(out)@ + section(cs@.len(), contradiction_lines(cs@, cs@.len() as int)),
{
    if cs.len() == 0 {
        push_str_chars(out, "- none\n");
        return;
    }
    let mut i: usize = 0;
    while i < cs.len()
        invariant
            i <= cs@.len(),
            out@ == old(out)@ + contradiction_lines(cs@, i as int),
        decreases cs.len() - i,
    {
        let c = &cs[i];
        let ghost before = out@;
        push_str_chars(out, "- **");
        push_spaced(out, c.subject.as_str(), '-');
        push_str_chars(out, ": ");
        push_str_chars(out, c.family.as_str());
        push_str_chars(out, " disagreement** - ");
        push_str_chars(out, c.left_object.as_str());
        push_str_chars(out, " (");
        push_decimal(out, c.left_source_note_ids.len());
        push_str_chars(out, " sources) vs ");
        push_str_chars(out, c.right_object.as_str());
        push_str_chars(out, " (");
        push_decimal(out, c.right_source_note_ids.len());
        push_str_chars(out, " sources) [");
        let m = merged_sources(&c.left_source_note_ids, &c.right_source_note_ids);
        push_source_note_list(out, &m);
        push_str_chars(out, "]\n");
        proof {
            assert(out@ =~= before + contradiction_line(crate::challenger::contradiction_view(*c)));
        }
        i = i + 1;
    }
}

fn push_questions(out: &mut Vec<char>, qs: &Vec<OpenQuestion>)
    ensures
        final(out)@ == old(out)@ + section(qs@.len(), question_lines(qs@, qs@.len() as int)),
{
    if qs.len() == 0 {
        push_str_chars(out, "- none\n");
        return;
    }
    let mut i: usize = 0;
    while i < qs.len()
        invariant
            i <= qs@.len(),
            out@ == old(out)@ + question_lines(qs@, i as int),
        decreases qs.len() - i,
    {
        let q = &qs[i];
        let ghost before = out@;
        push_str_chars(out, "- **");
        push_spaced(out, q.subject.as_str(), '-');
        push_str_chars(out, ": ");
        push_str_chars(out, q.object.as_str());
        push_str_chars(out, "** - ");
        push_spaced(out, q.family.as_str(), '_');
        push_str_chars(out, " (");
        push_decimal(out, q.source_note_ids.len());
        push_str_chars(out, " supporting claims across ");
        push_source_note_list(out, &q.source_note_ids);
        push_str_chars(out, ")\n");
        proof {
            assert(out@ =~= before + question_line(crate::challenger::question_view(*q)));
        }
        i = i + 1;
    }
}

/// The atlas page of a region (see `atlas_markdown`).
pub fn build_atlas_markdown(
    region: &str,
    overview: &str,
    subjects: &Vec<String>,
    claims_by_subject: &Vec<(String, Vec<Claim>)>,
    findings: &AtlasFindings,
) -> (r: String)
    ensures
        r@ == atlas_markdown(region@, overview@, subjects@, claims_by_subject@, *findings),
{
    let mut out: Vec<char> = Vec::new();
    push_str_chars(&mut out, "# Atlas: ");
    push_str_chars(&mut out, region);
    push_str_chars(&mut out, "\n\n_");
    push_str_chars(&mut out, overview);
    push_str_chars(&mut out, "_\n\n## Subjects\n");
    push_subject_blocks(&mut out, subjects, claims_by_subject);
    push_str_chars(&mut out, "## Recent decisions\n");
    push_decisions(&mut out, &findings.decisions);
    push_str_chars(&mut out, "\n## Stale dependencies\n");
    push_stale(&mut out, &findings.stale);
    push_str_chars(&mut out, "\n## Contradictions\n");
    push_contradictions(&mut out, &findings.contradictions);
    push_str_chars(&mut out, "\n## Open questions\n");
    push_questions(&mut out, &findings.open_questions);
    proof {
        assert(out@ =~= atlas_markdown(region@, overview@, subjects@, claims_by_subject@, *findings));
    }
    string_of(&out)
}

/// The region recorded for a note: the first entry for it, from `i`.
pub open spec fn region_of(note_regions: Seq<(String, String)>, note_id: Seq<char>, i: int) -> Option<Seq<char>>
    decreases note_regions.len() - i,
{
    if i < 0 || i >= note_regions.len() {
        None
    } else if note_regions[i].0@ == note_id {
        Some(note_regions[i].1@)
    } else {
        region_of(note_regions, note_id, i + 1)
    }
}

/// A claim belongs to a region when its note is one of the region's notes or
/// is recorded under the region.
pub open spec fn in_region(
    region: Seq<char>,
    note_ids: Seq<String>,
    note_regions: Seq<(String, String)>,
    c: Claim,
) -> bool {
    texts(note_ids).contains(c.note_id@) || region_of(note_regions, c.note_id@, 0) == Some(region)
}

/// Whether a claim belongs to a region (see `in_region`).
pub fn claim_in_region(
    region: &str,
    note_ids: &Vec<String>,
    note_regions: &Vec<(String, String)>,
    claim: &Claim,
) -> (b: bool)
    ensures
        b == in_region(region@, note_ids@, note_regions@, *claim),
{
    if crate::order::holds_text(note_ids, claim.note_id.as_str()) {
        return true;
    }
    let mut i: usize = 0;
    while i < note_regions.len()
        invariant
            i <= note_regions@.len(),
            !texts(note_ids@).contains(claim.note_id@),
            region_of(note_regions@, claim.note_id@, 0) == region_of(note_regions@, claim.note_id@, i as int),
        decreases note_regions.len() - i,
    {
        if str_eq(note_regions[i].0.as_str(), claim.note_id.as_str()) {
            return str_eq(note_regions[i].1.as_str(), region);
        }
        i = i + 1;
    }
    false
}

/// The last of the first `n` claims with id `id` (later entries win).
pub open spec fn claim_with_id(all: Seq<Claim>, id: Seq<char>, n: int) -> Option<Claim>
    decreases n,
{
    if n <= 0 {
        None
    } else if all[n - 1].id@ == id {
        Some(all[n - 1])
    } else {
        claim_with_id(all, id, n - 1)
    }
}

/// Some of the cited claims belongs to the region.
pub open spec fn cites_region(
    region: Seq<char>,
    note_ids: Seq<String>,
    note_regions: Seq<(String, String)>,
    all: Seq<Claim>,
    ids: Seq<Seq<char>>,
) -> bool {
    exists|j: int|
        0 <= j < ids.len() && match claim_with_id(all, #[trigger] ids[j], all.len() as int) {
            Some(c) => in_region(region, note_ids, note_regions, c),
            None => false,
        }
}

fn cites(
    region: &str,
    note_ids: &Vec<String>,
    note_regions: &Vec<(String, String)>,
    all: &Vec<Claim>,
    ids: &Vec<String>,
) -> (b: bool)
    ensures
        b == cites_region(region@, note_ids@, note_regions@, all@, texts(ids@)),
{
    let mut j: usize = 0;
    while j < ids.len()
        invariant
            j <= ids@.len(),
            forall|q: int|
                0 <= q < j ==> !(match claim_with_id(all@, #[trigger] texts(ids@)[q], all@.len() as int) {
                    Some(c) => in_region(region@, note_ids@, note_regions@, c),
                    None => false,
                }),
        decreases ids.len() - j,
    {
        // The claim with this id: the last one.
        let mut n: usize = all.len();
        let ghost id = texts(ids@)[j as int];
        assert(id == ids@[j as int]@);
        while n > 0 && !str_eq(all[n - 1].id.as_str(), ids[j].as_str())
            invariant
                n <= all@.len(),
                j < ids@.len(),
                id == ids@[j as int]@,
                claim_with_id(all@, id, all@.len() as int) == claim_with_id(all@, id, n as int),
            decreases n,
        {
            n = n - 1;
        }
        if n > 0 && claim_in_region(region, note_ids, note_regions, &all[n - 1]) {
            return true;
        }
        j = j + 1;
    }
    false
}

/// At most the first five entries.
pub open spec fn first_five<A>(s: Seq<A>) -> Seq<A> {
    if s.len() <= 5 {
        s
    } else {
        s.take(5)
    }
}

/// The entries that satisfy `p`, in order.
pub open spec fn kept<A>(s: Seq<A>, p: spec_fn(A) -> bool) -> Seq<A>
    decreases s.len(),
{
    if s.len() == 0 {
        s
    } else if p(s.last()) {
        kept(s.drop_last(), p).push(s.last())
    } else {
        kept(s.drop_last(), p)
    }
}

/// Keeping the items of a list that pass a test, one more item at a time.
pub(crate) proof fn lemma_kept_step<A>(s: Seq<A>, p: spec_fn(A) -> bool, i: int)
    requires
        0 <= i < s.len(),
    ensures
        kept(s.take(i + 1), p) == if p(s[i]) {
            kept(s.take(i), p).push(s[i])
        } else {
            kept(s.take(i), p)
        },
{
    assert(s.take(i + 1).drop_last() =~= s.take(i));
}

proof fn lemma_kept_len<A>(s: Seq<A>, p: spec_fn(A) -> bool)
    ensures
        kept(s, p).len() <= s.len(),
    decreases s.len(),
{
    if s.len() > 0 {
        lemma_kept_len(s.drop_last(), p);
    }
}

/// Up to five decisions that cite a claim of the region.
pub fn region_decisions(
    region: &str,
    note_ids: &Vec<String>,
    all_claims: &Vec<Claim>,
    note_regions: &Vec<(String, String)>,
    decisions: &Vec<Decision>,
) -> (r: Vec<Decision>)
    ensures
        r@.map_values(|d: Decision| decision_view(d)) == first_five(
            kept(
                decisions@,
                |d: Decision|
                    cites_region(region@, note_ids@, note_regions@, all_claims@, texts(d.supporting_claim_ids@)),
            ),
        ).map_values(|d: Decision| decision_view(d)),
{
    let ghost p = |d: Decision|
        cites_region(region@, note_ids@, note_regions@, all_claims@, texts(d.supporting_claim_ids@));
    let mut out: Vec<Decision> = Vec::new();
    let mut i: usize = 0;
    while i < decisions.len() && out.len() < 5
        invariant
            i <= decisions@.len(),
            p == (|d: Decision|
                cites_region(region@, note_ids@, note_regions@, all_claims@, texts(d.supporting_claim_ids@))),
            out@.len() <= 5,
            out@.map_values(|d: Decision| decision_view(d)) == kept(decisions@.take(i as int), p).map_values(
                |d: Decision| decision_view(d),
            ),
        decreases decisions.len() - i,
    {
        proof {
            lemma_kept_step(decisions@, p, i as int);
        }
        let d = &decisions[i];
        if cites(region, note_ids, note_regions, all_claims, &d.supporting_claim_ids) {
            let ghost before = out@;
            out.push(crate::challenger::clone_decision(d));
            proof {
                assert(out@.map_values(|d: Decision| decision_view(d)) =~= before.map_values(
                    |d: Decision| decision_view(d),
                ).push(decision_view(decisions@[i as int])));
            }
        }
        i = i + 1;
    }
    proof {
        let k = kept(decisions@.take(i as int), p);
        let all = kept(decisions@, p);
        lemma_kept_prefix(decisions@, p, i as int);
        if out@.len() < 5 {
            assert(decisions@.take(i as int) =~= decisions@);
        }
        assert(first_five(all).map_values(|d: Decision| decision_view(d)) =~= k.map_values(
            |d: Decision| decision_view(d),
        ));
    }
    out
}

proof fn lemma_kept_prefix<A>(s: Seq<A>, p: spec_fn(A) -> bool, i: int)
    requires
        0 <= i <= s.len(),
    ensures
        kept(s, p).take(kept(s.take(i), p).len() as int) == kept(s.take(i), p),
        kept(s.take(i), p).len() <= kept(s, p).len(),
        kept(s.take(i), p).len() < 5 && i < s.len() ==> true,
    decreases s.len() - i,
{
    if i == s.len() {
        assert(s.take(i) =~= s);
        assert(kept(s, p).take(kept(s, p).len() as int) =~= kept(s, p));
    } else {
        lemma_kept_prefix(s, p, i + 1);
        lemma_kept_step(s, p, i);
        let a = kept(s.take(i), p);
        let b = kept(s.take(i + 1), p);
        let c = kept(s, p);
        assert(c.take(b.len() as int).take(a.len() as int) =~= c.take(a.len() as int));
        assert(b.take(a.len() as int) =~= a);
    }
}

proof fn lemma_cites_concat(
    region: Seq<char>,
    note_ids: Seq<String>,
    note_regions: Seq<(String, String)>,
    all: Seq<Claim>,
    a: Seq<Seq<char>>,
    b: Seq<Seq<char>>,
)
    ensures
        cites_region(region, note_ids, note_regions, all, a + b) == (cites_region(
            region,
            note_ids,
            note_regions,
            all,
            a,
        ) || cites_region(region, note_ids, note_regions, all, b)),
{
    let ab = a + b;
    if cites_region(region, note_ids, note_regions, all, ab) {
        let j = choose|j: int|
            0 <= j < ab.len() && match claim_with_id(all, #[trigger] ab[j], all.len() as int) {
                Some(c) => in_region(region, note_ids, note_regions, c),
                None => false,
            };
        if j < a.len() {
            assert(ab[j] == a[j]);
        } else {
            assert(ab[j] == b[j - a.len()]);
        }
    }
    if cites_region(region, note_ids, note_regions, all, a) {
        let j = choose|j: int|
            0 <= j < a.len() && match claim_with_id(all, #[trigger] a[j], all.len() as int) {
                Some(c) => in_region(region, note_ids, note_regions, c),
                None => false,
            };
        assert(ab[j] == a[j]);
    }
    if cites_region(region, note_ids, note_regions, all, b) {
        let j = choose|j: int|
            0 <= j < b.len() && match claim_with_id(all, #[trigger] b[j], all.len() as int) {
                Some(c) => in_region(region, note_ids, note_regions, c),
                None => false,
            };
        assert(ab[j + a.len()] == b[j]);
    }
}

/// Up to five stale dependencies that cite a claim of the region.
pub fn region_stale_dependencies(
    region: &str,
    note_ids: &Vec<String>,
    all_claims: &Vec<Claim>,
    note_regions: &Vec<(String, String)>,
    items: &Vec<StaleDep>,
) -> (r: Vec<StaleDep>)
    ensures
        r@.map_values(|d: StaleDep| stale_view(d)) == first_five(
            kept(
                items@,
                |d: StaleDep|
                    cites_region(region@, note_ids@, note_regions@, all_claims@, texts(d.depends_on_claim_ids@) + texts(d.superseded_claim_ids@)),
            ),
        ).map_values(|d: StaleDep| stale_view(d)),
{
    let ghost p = |d: StaleDep|
        cites_region(region@, note_ids@, note_regions@, all_claims@, texts(d.depends_on_claim_ids@) + texts(d.superseded_claim_ids@));
    let mut out: Vec<StaleDep> = Vec::new();
    let mut i: usize = 0;
    while i < items.len() && out.len() < 5
        invariant
            i <= items@.len(),
            p == (|d: StaleDep|
                cites_region(region@, note_ids@, note_regions@, all_claims@, texts(d.depends_on_claim_ids@) + texts(d.superseded_claim_ids@))),
            out@.len() <= 5,
            out@.map_values(|d: StaleDep| stale_view(d)) == kept(items@.take(i as int), p).map_values(
                |d: StaleDep| stale_view(d),
            ),
        decreases items.len() - i,
    {
        proof {
            lemma_kept_step(items@, p, i as int);
        }
        let d = &items[i];
        let hit = cites(region, note_ids, note_regions, all_claims, &d.depends_on_claim_ids) || cites(
            region,
            note_ids,
            note_regions,
            all_claims,
            &d.superseded_claim_ids,
        );
        proof {
            lemma_cites_concat(region@, note_ids@, note_regions@, all_claims@, texts(d.depends_on_claim_ids@), texts(d.superseded_claim_ids@));
        }
        if hit {
            let ghost before = out@;
            out.push(crate::challenger::clone_stale(d));
            proof {
                assert(out@.map_values(|d: StaleDep| stale_view(d)) =~= before.map_values(
                    |d: StaleDep| stale_view(d),
                ).push(stale_view(items@[i as int])));
            }
        }
        i = i + 1;
    }
    proof {
        let k = kept(items@.take(i as int), p);
        let all = kept(items@, p);
        lemma_kept_prefix(items@, p, i as int);
        if out@.len() < 5 {
            assert(items@.take(i as int) =~= items@);
        }
        assert(first_five(all).map_values(|d: StaleDep| stale_view(d)) =~= k.map_values(
            |d: StaleDep| stale_view(d),
        ));
    }
    out
}

/// Up to five contradictions that cite a claim of the region.
pub fn region_contradictions(
    region: &str,
    note_ids: &Vec<String>,
    all_claims: &Vec<Claim>,
    note_regions: &Vec<(String, String)>,
    items: &Vec<Contradiction>,
) -> (r: Vec<Contradiction>)
    ensures
        r@.map_values(|d: Contradiction| contradiction_view(d)) == first_five(
            kept(
                items@,
                |d: Contradiction|
                    cites_region(region@, note_ids@, note_regions@, all_claims@, texts(d.left_claim_ids@) + texts(d.right_claim_ids@)),
            ),
        ).map_values(|d: Contradiction| contradiction_view(d)),
{
    let ghost p = |d: Contradiction|
        cites_region(region@, note_ids@, note_regions@, all_claims@, texts(d.left_claim_ids@) + texts(d.right_claim_ids@));
    let mut out: Vec<Contradiction> = Vec::new();
    let mut i: usize = 0;
    while i < items.len() && out.len() < 5
        invariant
            i <= items@.len(),
            p == (|d: Contradiction|
                cites_region(region@, note_ids@, note_regions@, all_claims@, texts(d.left_claim_ids@) + texts(d.right_claim_ids@))),
            out@.len() <= 5,
            out@.map_values(|d: Contradiction| contradiction_view(d)) == kept(items@.take(i as int), p).map_values(
                |d: Contradiction| contradiction_view(d),
            ),
        decreases items.len() - i,
    {
        proof {
            lemma_kept_step(items@, p, i as int);
        }
        let d = &items[i];
        let hit = cites(region, note_ids, note_regions, all_claims, &d.left_claim_ids) || cites(
            region,
            note_ids,
            note_regions,
            all_claims,
            &d.right_claim_ids,
        );
        proof {
            lemma_cites_concat(region@, note_ids@, note_regions@, all_claims@, texts(d.left_claim_ids@), texts(d.right_claim_ids@));
        }
        if hit {
            let ghost before = out@;
            out.push(crate::challenger::clone_contradiction(d));
            proof {
                assert(out@.map_values(|d: Contradiction| contradiction_view(d)) =~= before.map_values(
                    |d: Contradiction| contradiction_view(d),
                ).push(contradiction_view(items@[i as int])));
            }
        }
        i = i + 1;
    }
    proof {
        let k = kept(items@.take(i as int), p);
        let all = kept(items@, p);
        lemma_kept_prefix(items@, p, i as int);
        if out@.len() < 5 {
            assert(items@.take(i as int) =~= items@);
        }
        assert(first_five(all).map_values(|d: Contradiction| contradiction_view(d)) =~= k.map_values(
            |d: Contradiction| contradiction_view(d),
        ));
    }
    out
}

/// Normalized subjects of the region's claims, first seen first.
pub open spec fn subjects_in_region(
    region: Seq<char>,
    note_ids: Seq<String>,
    note_regions: Seq<(String, String)>,
    all: Seq<Claim>,
) -> Seq<Seq<char>> {
    dedup(
        kept(all, |c: Claim| in_region(region, note_ids, note_regions, c)).map_values(
            |c: Claim| norm_term(c.subject@),
        ),
    )
}

/// Normalized subjects of the claims that belong to the region, without repeats.
pub fn region_subjects(
    region: &str,
    note_ids: &Vec<String>,
    all_claims: &Vec<Claim>,
    note_regions: &Vec<(String, String)>,
) -> (r: Vec<String>)
    ensures
        texts(r@) == subjects_in_region(region@, note_ids@, note_regions@, all_claims@),
{
    let ghost p = |c: Claim| in_region(region@, note_ids@, note_regions@, c);
    let mut out: Vec<String> = Vec::new();
    let mut i: usize = 0;
    while i < all_claims.len()
        invariant
            i <= all_claims@.len(),
            p == (|c: Claim| in_region(region@, note_ids@, note_regions@, c)),
            texts(out@) == dedup(kept(all_claims@.take(i as int), p).map_values(|c: Claim| norm_term(c.subject@))),
        decreases all_claims.len() - i,
    {
        proof {
            lemma_kept_step(all_claims@, p, i as int);
        }
        let c = &all_claims[i];
        if claim_in_region(region, note_ids, note_regions, c) {
            let t = normalize_term(c.subject.as_str());
            proof {
                let before = kept(all_claims@.take(i as int), p).map_values(|c: Claim| norm_term(c.subject@));
                let after = kept(all_claims@.take(i + 1), p).map_values(|c: Claim| norm_term(c.subject@));
                assert(after.drop_last() =~= before);
                assert(after.last() == t@);
            }
            push_unique(&mut out, &t);
        } else {
            proof {
                assert(kept(all_claims@.take(i + 1), p).map_values(|c: Claim| norm_term(c.subject@))
                    =~= kept(all_claims@.take(i as int), p).map_values(|c: Claim| norm_term(c.subject@)));
            }
        }
        i = i + 1;
    }
    proof {
        assert(all_claims@.take(all_claims@.len() as int) =~= all_claims@);
    }
    out
}

/// The (subject, object) pair each decision settles, both normalized.
pub open spec fn decided(decisions: Seq<Decision>) -> Seq<(Seq<char>, Seq<char>)> {
    decisions.map_values(|d: Decision| (norm_term(d.subject@), norm_decision_object(d.object@)))
}

/// The (subject, object) pair each decision settles, in decision order.
pub fn decided_pairs(decisions: &Vec<Decision>) -> (r: Vec<(String, String)>)
    ensures
        r@.map_values(|p: (String, String)| (p.0@, p.1@)) == decided(decisions@),
{
    let mut out: Vec<(String, String)> = Vec::new();
    let mut i: usize = 0;
    while i < decisions.len()
        invariant
            i <= decisions@.len(),
            out@.len() == i,
            forall|j: int|
                0 <= j < i ==> (#[trigger] out@[j]).0@ == norm_term(decisions@[j].subject@) && out@[j].1@
                    == norm_decision_object(decisions@[j].object@),
        decreases decisions.len() - i,
    {
        let d = &decisions[i];
        out.push((normalize_term(d.subject.as_str()), normalize_decision_like_object(d.object.as_str())));
        i = i + 1;
    }
    assert(out@.map_values(|p: (String, String)| (p.0@, p.1@)) =~= decided(decisions@));
    out
}

/// A decision-like object in comparable form (see `norm_decision_object`).
pub fn normalize_decision_like_object(value: &str) -> (r: String)
    ensures
        r@ == norm_decision_object(value@),
{
    normalize_decision_object(value)
}

/// Two normalized objects name the same thing: equal, or one holds the other
/// and both have at least four bytes.
pub open spec fn objects_equivalent(left: Seq<char>, right: Seq<char>) -> bool {
    left == right || (byte_len(left) >= 4 && byte_len(right) >= 4 && (find_from(left, right, 0) is Some
        || find_from(right, left, 0) is Some))
}

fn contains_text(hay: &str, needle: &str) -> (b: bool)
    ensures
        b == (find_from(hay@, needle@, 0) is Some),
{
    let h = chars_of(hay);
    let n = chars_of(needle);
    find_chars(&h, &n).is_some()
}

/// Whether two normalized objects name the same thing (see `objects_equivalent`).
pub fn decision_objects_equivalent(left: &str, right: &str) -> (b: bool)
    ensures
        b == objects_equivalent(left@, right@),
{
    if str_eq(left, right) {
        return true;
    }
    if byte_len_of(left) >= 4 && byte_len_of(right) >= 4 && (contains_text(left, right)
        || contains_text(right, left)) {
        return true;
    }
    false
}

/// A question is settled by a decision on the same subject and an equivalent object.
pub open spec fn already_decided(pairs: Seq<(Seq<char>, Seq<char>)>, q: OpenQuestion) -> bool {
    exists|j: int|
        0 <= j < pairs.len() && (#[trigger] pairs[j]).0 == norm_term(q.subject@) && objects_equivalent(
            pairs[j].1,
            norm_decision_object(q.object@),
        )
}

/// Up to five open questions about the region's subjects that no decision settles.
pub fn region_open_questions(
    region: &str,
    note_ids: &Vec<String>,
    all_claims: &Vec<Claim>,
    note_regions: &Vec<(String, String)>,
    decisions: &Vec<Decision>,
    questions: &Vec<OpenQuestion>,
) -> (r: Vec<OpenQuestion>)
    ensures
        r@.map_values(|q: OpenQuestion| question_view(q)) == first_five(
            kept(
                questions@,
                |q: OpenQuestion|
                    subjects_in_region(region@, note_ids@, note_regions@, all_claims@).contains(q.subject@)
                        && !already_decided(decided(decisions@), q),
            ),
        ).map_values(|q: OpenQuestion| question_view(q)),
{
    let subjects = region_subjects(region, note_ids, all_claims, note_regions);
    let pairs = decided_pairs(decisions);
    let ghost pv = pairs@.map_values(|p: (String, String)| (p.0@, p.1@));
    let ghost p = |q: OpenQuestion|
        subjects_in_region(region@, note_ids@, note_regions@, all_claims@).contains(q.subject@)
            && !already_decided(decided(decisions@), q);
    let mut out: Vec<OpenQuestion> = Vec::new();
    let mut i: usize = 0;
    while i < questions.len() && out.len() < 5
        invariant
            i <= questions@.len(),
            p == (|q: OpenQuestion|
                subjects_in_region(region@, note_ids@, note_regions@, all_claims@).contains(q.subject@)
                    && !already_decided(decided(decisions@), q)),
            texts(subjects@) == subjects_in_region(region@, note_ids@, note_regions@, all_claims@),
            pv == pairs@.map_values(|p: (String, String)| (p.0@, p.1@)),
            pv == decided(decisions@),
            out@.len() <= 5,
            out@.map_values(|q: OpenQuestion| question_view(q)) == kept(questions@.take(i as int), p).map_values(
                |q: OpenQuestion| question_view(q),
            ),
        decreases questions.len() - i,
    {
        proof {
            lemma_kept_step(questions@, p, i as int);
        }
        let q = &questions[i];
        let mut keep = crate::order::holds_text(&subjects, q.subject.as_str());
        if keep {
            let qs = normalize_term(q.subject.as_str());
            let qo = normalize_decision_like_object(q.object.as_str());
            let mut j: usize = 0;
            while j < pairs.len() && keep
                invariant
                    j <= pairs@.len(),
                    pv == pairs@.map_values(|p: (String, String)| (p.0@, p.1@)),
                    qs@ == norm_term(q.subject@),
                    qo@ == norm_decision_object(q.object@),
                    keep == forall|t: int|
                        0 <= t < j ==> !((#[trigger] pv[t]).0 == qs@ && objects_equivalent(pv[t].1, qo@)),
                decreases pairs.len() - j,
            {
                if str_eq(pairs[j].0.as_str(), qs.as_str()) && decision_objects_equivalent(
                    pairs[j].1.as_str(),
                    qo.as_str(),
                ) {
                    assert(pv[j as int].0 == qs@ && objects_equivalent(pv[j as int].1, qo@));
                    keep = false;
                }
                j = j + 1;
            }
            proof {
                if !keep {
                    let t = choose|t: int|
                        0 <= t < j && ((#[trigger] pv[t]).0 == qs@ && objects_equivalent(pv[t].1, qo@));
                    assert(already_decided(decided(decisions@), *q));
                }
            }
        }
        proof {
            assert(keep == p(questions@[i as int]));
        }
        if keep {
            let ghost before = out@;
            out.push(crate::challenger::clone_question(q));
            proof {
                assert(out@.map_values(|q: OpenQuestion| question_view(q)) =~= before.map_values(
                    |q: OpenQuestion| question_view(q),
                ).push(question_view(questions@[i as int])));
            }
        }
        i = i + 1;
    }
    proof {
        let k = kept(questions@.take(i as int), p);
        let all = kept(questions@, p);
        lemma_kept_prefix(questions@, p, i as int);
        if out@.len() < 5 {
            assert(questions@.take(i as int) =~= questions@);
        }
        assert(first_five(all).map_values(|q: OpenQuestion| question_view(q)) =~= k.map_values(
            |q: OpenQuestion| question_view(q),
        ));
    }
    out
}

/// A path segment: trimmed, ASCII-lower-cased, every character other than
/// `a-z`, `0-9`, `-` and `_` read as `-`, runs of dashes and edge dashes removed.
pub open spec fn sanitized(input: Seq<char>) -> Seq<char> {
    crate::challenger::trim_dashes(
        crate::challenger::collapse_dashes(
            norm_term(input).map_values(
                |c: char|
                    if ('a' <= c && c <= 'z') || ('0' <= c && c <= '9') || c == '-' || c == '_' {
                        c
                    } else {
                        '-'
                    },
            ),
        ),
    )
}

/// A path segment made from free text (see `sanitized`).
pub fn sanitize_segment(input: &str) -> (r: String)
    ensures
        r@ == sanitized(input@),
{
    let term = normalize_term(input);
    let v = chars_of(term.as_str());
    let ghost f = |c: char|
        if ('a' <= c && c <= 'z') || ('0' <= c && c <= '9') || c == '-' || c == '_' {
            c
        } else {
            '-'
        };
    let mut m: Vec<char> = Vec::new();
    let mut i: usize = 0;
    while i < v.len()
        invariant
            i <= v@.len(),
            m@ == v@.take(i as int).map_values(f),
            f == (|c: char|
                if ('a' <= c && c <= 'z') || ('0' <= c && c <= '9') || c == '-' || c == '_' {
                    c
                } else {
                    '-'
                }),
        decreases v.len() - i,
    {
        let c = v[i];
        let keep = ('a' <= c && c <= 'z') || ('0' <= c && c <= '9') || c == '-' || c == '_';
        m.push(if keep {
            c
        } else {
            '-'
        });
        i = i + 1;
        proof {
            assert(m@ =~= v@.take(i as int).map_values(f));
        }
    }
    proof {
        assert(v@.take(v@.len() as int) =~= v@);
    }
    let r = crate::challenger::collapse_trim_dashes(&m);
    string_of(&r)
}

/// What a rebuild of changed regions did.
#[derive(Debug, Default, Clone)]
pub struct RebuildReport {
    pub rebuilt_regions: Vec<String>,
    pub failed_regions: Vec<(String, String)>,
}

/// Below this many claims a region gets no model-written overview or index.
pub open spec fn min_claims_for_synthesis() -> nat {
    5
}

/// Above this many claims a region is offered a split into subregions.
pub open spec fn subregion_threshold() -> nat {
    200
}

/// Whether a region has enough claims for a written overview and index.
pub fn needs_synthesis(claim_count: usize) -> (b: bool)
    ensures
        b == (claim_count >= min_claims_for_synthesis()),
{
    claim_count >= 5
}

/// Whether a region has grown enough to be offered a split.
pub fn should_split(claim_count: usize) -> (b: bool)
    ensures
        b == (claim_count > subregion_threshold()),
{
    claim_count > 200
}

/// The overview used when a region is too small for synthesis.
pub fn low_content_overview() -> (r: &'static str)
    ensures
        r@ == "Too few claims for synthesis. Add more notes to this region."@,
{
    "Too few claims for synthesis. Add more notes to this region."
}

/// Claims grouped by subject, subjects in ascending order, claims in input order.
pub open spec fn by_subject(claims: Seq<Claim>) -> Seq<(Seq<char>, Seq<Claim>)> {
    let keys = claims.map_values(|c: Claim| Some(seq![c.subject@]));
    sorted_keys(keys, claims.len() as int).map_values(
        |k: Seq<Seq<char>>| (k[0], group_of(claims, keys, k)),
    )
}

/// Claims grouped by subject come in strictly ascending order of subject,
/// so no subject has two groups.
pub proof fn lemma_subjects_ascending(claims: Seq<Claim>)
    ensures
        forall|i: int, j: int|
            0 <= i < j < by_subject(claims).len() ==> crate::text::lex_lt(
                #[trigger] by_subject(claims)[i].0,
                #[trigger] by_subject(claims)[j].0,
            ),
        forall|i: int, j: int|
            0 <= i < by_subject(claims).len() && 0 <= j < by_subject(claims).len() && i != j
                ==> #[trigger] by_subject(claims)[i].0 != #[trigger] by_subject(claims)[j].0,
{
    let keys = claims.map_values(|c: Claim| Some(seq![c.subject@]));
    let n = claims.len() as int;
    let sk = sorted_keys(keys, n);
    crate::order::lemma_sorted_keys_ascending(keys, n);
    let b = by_subject(claims);
    assert forall|i: int, j: int| 0 <= i < j < b.len() implies crate::text::lex_lt(
        #[trigger] b[i].0,
        #[trigger] b[j].0,
    ) by {
        crate::order::lemma_sorted_keys_len(keys, n, 1, i);
        crate::order::lemma_sorted_keys_len(keys, n, 1, j);
        crate::order::lemma_single_keys_ascending(sk, i, j);
    }
    assert forall|i: int, j: int|
        0 <= i < b.len() && 0 <= j < b.len() && i != j implies #[trigger] b[i].0 != #[trigger] b[j].0 by {
        if i < j {
            crate::order::lemma_sorted_keys_len(keys, n, 1, i);
            crate::order::lemma_sorted_keys_len(keys, n, 1, j);
            crate::order::lemma_single_keys_ascending(sk, i, j);
            crate::order::lemma_lex_irrefl(b[i].0);
        } else {
            crate::order::lemma_sorted_keys_len(keys, n, 1, i);
            crate::order::lemma_sorted_keys_len(keys, n, 1, j);
            crate::order::lemma_single_keys_ascending(sk, j, i);
            crate::order::lemma_lex_irrefl(b[j].0);
        }
    }
}

/// Claims grouped by subject (see `by_subject`).
pub fn group_claims_by_subject(claims: &Vec<Claim>) -> (r: Vec<(String, Vec<Claim>)>)
    ensures
        r@.map_values(|e: (String, Vec<Claim>)| (e.0@, e.1@)) == by_subject(claims@),
{
    let ghost ko = claims@.map_values(|c: Claim| Some(seq![c.subject@]));
    let mut keys: Vec<Option<Vec<String>>> = Vec::new();
    let mut i: usize = 0;
    while i < claims.len()
        invariant
            i <= claims@.len(),
            ko == claims@.map_values(|c: Claim| Some(seq![c.subject@])),
            keys@.len() == i,
            forall|j: int| 0 <= j < i ==> crate::order::opt_key(#[trigger] keys@[j]) == ko[j],
        decreases claims.len() - i,
    {
        let mut k: Vec<String> = Vec::new();
        k.push(claims[i].subject.clone());
        proof {
            assert(texts(k@) =~= seq![claims@[i as int].subject@]);
        }
        keys.push(Some(k));
        i = i + 1;
    }
    assert(opt_keys(keys@) =~= ko);
    let ks = distinct_sorted_keys(&keys);
    let ghost kl = key_list(ks@);
    proof {
        assert forall|j: int| 0 <= j < claims@.len() && (#[trigger] ko[j]) is Some implies ko[j]->0.len() == 1 by {
        }
    }
    let mut out: Vec<(String, Vec<Claim>)> = Vec::new();
    let mut g: usize = 0;
    while g < ks.len()
        invariant
            g <= ks@.len(),
            keys@.len() == claims@.len(),
            opt_keys(keys@) == ko,
            ko == claims@.map_values(|c: Claim| Some(seq![c.subject@])),
            kl == key_list(ks@),
            kl == sorted_keys(ko, claims@.len() as int),
            forall|j: int| 0 <= j < claims@.len() && (#[trigger] ko[j]) is Some ==> ko[j]->0.len() == 1,
            out@.len() == g,
            forall|j: int|
                0 <= j < g ==> (#[trigger] out@[j]).0@ == kl[j][0] && out@[j].1@ == group_of(claims@, ko, kl[j]),
        decreases ks.len() - g,
    {
        let k = &ks[g];
        proof {
            crate::order::lemma_sorted_keys_len(ko, claims@.len() as int, 1, g as int);
            assert(kl[g as int] == texts(k@));
        }
        let idx = crate::challenger::keys_of_members(claims, &keys, k);
        let mut group: Vec<Claim> = Vec::new();
        let mut q: usize = 0;
        while q < idx.len()
            invariant
                q <= idx@.len(),
                forall|j: int| 0 <= j < idx@.len() ==> idx@[j] < claims@.len(),
                group@ == picked(claims@, idx@).take(q as int),
            decreases idx.len() - q,
        {
            group.push(claims[idx[q]].duplicate());
            q = q + 1;
            proof {
                assert(group@ =~= picked(claims@, idx@).take(q as int));
            }
        }
        proof {
            assert(picked(claims@, idx@).take(idx@.len() as int) =~= picked(claims@, idx@));
        }
        out.push((k[0].clone(), group));
        g = g + 1;
    }
    proof {
        assert(out@.map_values(|e: (String, Vec<Claim>)| (e.0@, e.1@)) =~= by_subject(claims@));
    }
    out
}


/// A proposed subregion: its name, sample subjects, and the claims it takes.
#[derive(Debug, Clone)]
pub struct SubregionProposal {
    pub name: String,
    pub sample_subjects: Vec<String>,
    pub claim_ids: Vec<String>,
}

/// The note of the last of the first `n` claims with id `id`, if any.
pub open spec fn note_of_claim(claims: Seq<Claim>, id: Seq<char>, n: int) -> Option<Seq<char>>
    decreases n,
{
    if n <= 0 {
        None
    } else if claims[n - 1].id@ == id {
        Some(claims[n - 1].note_id@)
    } else {
        note_of_claim(claims, id, n - 1)
    }
}

/// The subregion path of a proposal within `region`.
pub open spec fn subregion_path(region: Seq<char>, name: Seq<char>) -> Seq<char> {
    region + "/"@ + sanitized(name)
}

/// Moves `(note id, subregion)` for the first `n` claim ids of a proposal
/// whose note is known.
pub open spec fn claim_moves(claims: Seq<Claim>, ids: Seq<String>, sub: Seq<char>, n: int) -> Seq<
    (Seq<char>, Seq<char>),
>
    decreases n,
{
    if n <= 0 {
        Seq::empty()
    } else {
        let prev = claim_moves(claims, ids, sub, n - 1);
        match note_of_claim(claims, ids[n - 1]@, claims.len() as int) {
            Some(note) => prev.push((note, sub)),
            None => prev,
        }
    }
}

/// The moves a proposal asks for: none when it has no sample subjects or
/// its name sanitizes to nothing; else each of its claims' notes, in order.
pub open spec fn proposal_moves(region: Seq<char>, p: SubregionProposal, claims: Seq<Claim>) -> Seq<
    (Seq<char>, Seq<char>),
> {
    if p.sample_subjects@.len() == 0 || sanitized(p.name@).len() == 0 {
        Seq::empty()
    } else {
        claim_moves(claims, p.claim_ids@, subregion_path(region, p.name@), p.claim_ids@.len() as int)
    }
}

/// The moves of the first `n` proposals, in order.
pub open spec fn subregion_plan(region: Seq<char>, ps: Seq<SubregionProposal>, claims: Seq<Claim>, n: int) -> Seq<
    (Seq<char>, Seq<char>),
>
    decreases n,
{
    if n <= 0 {
        Seq::empty()
    } else {
        subregion_plan(region, ps, claims, n - 1) + proposal_moves(region, ps[n - 1], claims)
    }
}

/// The note of the last claim with the given id (see `note_of_claim`).
fn claim_note(claims: &Vec<Claim>, id: &str) -> (r: Option<String>)
    ensures
        match note_of_claim(claims@, id@, claims@.len() as int) {
            Some(n) => r matches Some(x) && x@ == n,
            None => r is None,
        },
{
    let mut i: usize = claims.len();
    while i > 0
        invariant
            i <= claims@.len(),
            note_of_claim(claims@, id@, claims@.len() as int) == note_of_claim(claims@, id@, i as int),
        decreases i,
    {
        if crate::text::str_eq(claims[i - 1].id.as_str(), id) {
            return Some(claims[i - 1].note_id.clone());
        }
        i = i - 1;
    }
    None
}

/// The candidate moves into the proposed subregions of `region`: each note
/// with its destination, in proposal order (see `subregion_plan`). A note may
/// be listed more than once; the mover takes the entries in order and skips
/// any whose note it has already moved (see `next_subregion_move`).
pub fn plan_subregion_moves(region: &str, proposals: &Vec<SubregionProposal>, claims: &Vec<Claim>) -> (r: Vec<
    (String, String),
>)
    ensures
        crate::report::text_pairs(r@) == subregion_plan(region@, proposals@, claims@, proposals@.len() as int),
{
    let mut out: Vec<(String, String)> = Vec::new();
    let mut k: usize = 0;
    while k < proposals.len()
        invariant
            k <= proposals@.len(),
            crate::report::text_pairs(out@) == subregion_plan(region@, proposals@, claims@, k as int),
        decreases proposals.len() - k,
    {
        let p = &proposals[k];
        let ghost before = crate::report::text_pairs(out@);
        let name = sanitize_segment(p.name.as_str());
        if p.sample_subjects.len() > 0 && !name.as_str().is_empty() {
            let mut sub: Vec<char> = Vec::new();
            crate::claims::push_str_chars(&mut sub, region);
            crate::claims::push_str_chars(&mut sub, "/");
            crate::claims::push_str_chars(&mut sub, name.as_str());
            let sub = string_of(&sub);
            proof {
                assert(sub@ =~= subregion_path(region@, p.name@));
            }
            let mut j: usize = 0;
            while j < p.claim_ids.len()
                invariant
                    j <= p.claim_ids@.len(),
                    sub@ == subregion_path(region@, p.name@),
                    crate::report::text_pairs(out@) == before + claim_moves(claims@, p.claim_ids@, sub@, j as int),
                decreases p.claim_ids.len() - j,
            {
                let ghost o0 = out@;
                match claim_note(claims, p.claim_ids[j].as_str()) {
                    Some(note) => {
                        out.push((note, sub.clone()));
                        proof {
                            assert(crate::report::text_pairs(out@) =~= crate::report::text_pairs(o0).push(
                                (note@, sub@),
                            ));
                        }
                    },
                    None => {},
                }
                j = j + 1;
            }
        }
        proof {
            assert(crate::report::text_pairs(out@) =~= subregion_plan(region@, proposals@, claims@, k + 1));
        }
        k = k + 1;
    }
    out
}


/// The first entry of the plan at or after `from` whose note is not among
/// the notes already moved, if any.
pub open spec fn next_move(plan: Seq<(Seq<char>, Seq<char>)>, moved: Seq<Seq<char>>, from: int) -> Option<int>
    decreases plan.len() - from,
{
    if from < 0 || from >= plan.len() {
        None
    } else if !moved.contains(plan[from].0) {
        Some(from)
    } else {
        next_move(plan, moved, from + 1)
    }
}

/// The next move to attempt: the first plan entry at or after `from` whose
/// note has not been moved yet (see `next_move`). The mover records a note as
/// moved only once its move succeeded, so each note is moved at most once.
pub fn next_subregion_move(plan: &Vec<(String, String)>, moved: &Vec<String>, from: usize) -> (r: Option<usize>)
    ensures
        r == (match next_move(crate::report::text_pairs(plan@), texts(moved@), from as int) {
            Some(k) => Some(k as usize),
            None => None,
        }),
        r matches Some(k) ==> from <= k < plan@.len() && !texts(moved@).contains(plan@[k as int].0@),
{
    let ghost tp = crate::report::text_pairs(plan@);
    let mut i: usize = from;
    while i < plan.len()
        invariant
            from <= i,
            tp == crate::report::text_pairs(plan@),
            next_move(tp, texts(moved@), from as int) == next_move(tp, texts(moved@), i as int),
        decreases plan.len() - i,
    {
        if !crate::order::holds_text(moved, plan[i].0.as_str()) {
            assert(tp[i as int].0 == plan@[i as int].0@);
            return Some(i);
        }
        assert(tp[i as int].0 == plan@[i as int].0@);
        i = i + 1;
    }
    None
}


proof fn lemma_next_move_fresh(plan: Seq<(Seq<char>, Seq<char>)>, moved: Seq<Seq<char>>, from: int)
    ensures
        next_move(plan, moved, from) matches Some(k) ==> from <= k < plan.len() && !moved.contains(plan[k].0),
    decreases plan.len() - from,
{
    if 0 <= from < plan.len() && moved.contains(plan[from].0) {
        lemma_next_move_fresh(plan, moved, from + 1);
    }
}

/// Each note is moved at most once: when the notes moved so far are
/// distinct, recording the note of the next move keeps them distinct.
pub proof fn lemma_moves_once(plan: Seq<(Seq<char>, Seq<char>)>, moved: Seq<Seq<char>>, from: int)
    requires
        forall|a: int, b: int| 0 <= a < b < moved.len() ==> moved[a] != moved[b],
    ensures
        next_move(plan, moved, from) matches Some(k) ==> {
            let m = moved.push(plan[k].0);
            forall|a: int, b: int| 0 <= a < b < m.len() ==> #[trigger] m[a] != #[trigger] m[b]
        },
{
    lemma_next_move_fresh(plan, moved, from);
    if let Some(k) = next_move(plan, moved, from) {
        let m = moved.push(plan[k].0);
        assert forall|a: int, b: int| 0 <= a < b < m.len() implies #[trigger] m[a] != #[trigger] m[b] by {
            if b == moved.len() {
                assert(m[a] == moved[a]);
                assert(moved.contains(moved[a]));
            } else {
                assert(m[a] == moved[a] && m[b] == moved[b]);
            }
        }
    }
}

} // verus!
