//! Staleness propagation: when a claim's source changes, every claim derived
//! from it, directly or through other derived claims, becomes stale.
use vstd::prelude::*;
use crate::order::{texts, holds_text};

verus! {

/// One provenance link: `(source claim id, derived claim id)`.
pub open spec fn link_views(links: Seq<(String, String)>) -> Seq<(Seq<char>, Seq<char>)> {
    links.map_values(|l: (String, String)| (l.0@, l.1@))
}

/// A set of claims is closed under derivation when every claim derived from a
/// member is a member.
pub open spec fn closed_under(v: Set<Seq<char>>, links: Seq<(Seq<char>, Seq<char>)>) -> bool {
    forall|k: int| 0 <= k < links.len() && #[trigger] v.contains(links[k].0) ==> v.contains(links[k].1)
}

/// A claim is derived from the sources when every set that holds the sources
/// and is closed under derivation holds it.
pub open spec fn derived_from(x: Seq<char>, sources: Set<Seq<char>>, links: Seq<(Seq<char>, Seq<char>)>) -> bool {
    forall|v: Set<Seq<char>>| #[trigger] closed_under(v, links) && sources.subset_of(v) ==> v.contains(x)
}

/// Number of links whose derived claim is outside `v`.
pub open spec fn open_links(links: Seq<(Seq<char>, Seq<char>)>, v: Set<Seq<char>>, n: int) -> nat
    decreases n,
{
    if n <= 0 {
        0
    } else {
        open_links(links, v, n - 1) + if v.contains(links[n - 1].1) {
            0nat
        } else {
            1nat
        }
    }
}

proof fn lemma_open_links_mono(links: Seq<(Seq<char>, Seq<char>)>, a: Set<Seq<char>>, b: Set<Seq<char>>, n: int)
    requires
        a.subset_of(b),
    ensures
        open_links(links, b, n) <= open_links(links, a, n),
    decreases n,
{
    if n > 0 {
        lemma_open_links_mono(links, a, b, n - 1);
    }
}

proof fn lemma_open_links_drop(links: Seq<(Seq<char>, Seq<char>)>, a: Set<Seq<char>>, b: Set<Seq<char>>, n: int, k: int)
    requires
        a.subset_of(b),
        0 <= k < n <= links.len(),
        !a.contains(links[k].1),
        b.contains(links[k].1),
    ensures
        open_links(links, b, n) < open_links(links, a, n),
    decreases n,
{
    if k < n - 1 {
        lemma_open_links_drop(links, a, b, n - 1, k);
    } else {
        lemma_open_links_mono(links, a, b, n - 1);
    }
}

/// The claims that become stale when the given source claims change: all
/// claims derived from them (see `derived_from`) that are not sources
/// themselves, each once, in the order found.
pub fn stale_claims(sources: &Vec<String>, links: &Vec<(String, String)>) -> (r: Vec<String>)
    ensures
        forall|k: int| 0 <= k < r@.len() ==> !texts(sources@).contains(#[trigger] r@[k]@),
        forall|i: int, j: int| 0 <= i < j < r@.len() ==> r@[i]@ != r@[j]@,
        closed_under(texts(sources@).to_set() + texts(r@).to_set(), link_views(links@)),
        forall|k: int|
            0 <= k < r@.len() ==> derived_from(
                #[trigger] r@[k]@,
                texts(sources@).to_set(),
                link_views(links@),
            ),
{
    let ghost lv = link_views(links@);
    let ghost src = texts(sources@).to_set();
    let mut visited: Vec<String> = Vec::new();
    let mut i: usize = 0;
    while i < sources.len()
        invariant
            i <= sources@.len(),
            texts(visited@) == texts(sources@).take(i as int),
        decreases sources.len() - i,
    {
        let ghost prev = visited@;
        let c = sources[i].clone();
        visited.push(c);
        proof {
            assert(texts(visited@) =~= texts(prev).push(sources@[i as int]@));
            assert(texts(visited@) =~= texts(sources@).take(i + 1));
        }
        i = i + 1;
    }
    proof {
        assert(texts(sources@).take(sources@.len() as int) =~= texts(sources@));
    }
    let mut out: Vec<String> = Vec::new();
    let mut changed = true;
    while changed
        invariant
            lv == link_views(links@),
            src == texts(sources@).to_set(),
            texts(visited@).to_set() == src + texts(out@).to_set(),
            forall|k: int| 0 <= k < out@.len() ==> !texts(sources@).contains(#[trigger] out@[k]@),
            forall|a: int, b: int| 0 <= a < b < out@.len() ==> out@[a]@ != out@[b]@,
            forall|k: int| 0 <= k < out@.len() ==> derived_from(#[trigger] out@[k]@, src, lv),
            !changed ==> closed_under(texts(visited@).to_set(), lv),
        decreases open_links(lv, texts(visited@).to_set(), lv.len() as int), if changed { 1int } else { 0int },
    {
        changed = false;
        let ghost at_start = texts(visited@).to_set();
        let mut e: usize = 0;
        while e < links.len()
            invariant
                lv == link_views(links@),
                lv.len() == links@.len(),
                src == texts(sources@).to_set(),
                e <= links@.len(),
                texts(visited@).to_set() == src + texts(out@).to_set(),
                at_start.subset_of(texts(visited@).to_set()),
                forall|k: int| 0 <= k < out@.len() ==> !texts(sources@).contains(#[trigger] out@[k]@),
                forall|a: int, b: int| 0 <= a < b < out@.len() ==> out@[a]@ != out@[b]@,
                forall|k: int| 0 <= k < out@.len() ==> derived_from(#[trigger] out@[k]@, src, lv),
                !changed ==> texts(visited@).to_set() == at_start,
                !changed ==> forall|k: int|
                    0 <= k < e && #[trigger] at_start.contains(lv[k].0) ==> at_start.contains(lv[k].1),
                changed ==> open_links(lv, texts(visited@).to_set(), lv.len() as int) < open_links(
                    lv,
                    at_start,
                    lv.len() as int,
                ),
            decreases links.len() - e,
        {
            let x = &links[e].0;
            let y = &links[e].1;
            proof {
                assert(lv[e as int] == (x@, y@));
            }
            if holds_text(&visited, x.as_str()) && !holds_text(&visited, y.as_str()) {
                let ghost before = texts(visited@).to_set();
                let ghost before_out = out@;
                let ghost before_vis = visited@;
                visited.push(y.clone());
                out.push(y.clone());
                proof {
                    assert(texts(visited@) =~= texts(before_vis).push(y@));
                    assert(texts(out@) =~= texts(before_out).push(y@));
                    texts(before_vis).lemma_push_to_set_commute(y@);
                    texts(before_out).lemma_push_to_set_commute(y@);
                    assert(texts(visited@).to_set() =~= before.insert(y@));
                    assert(texts(out@).to_set() =~= texts(before_out).to_set().insert(y@));
                    assert(texts(visited@).to_set() =~= src + texts(out@).to_set());
                    // y is not a source: sources are all visited already.
                    if texts(sources@).contains(y@) {
                        assert(src.contains(y@));
                        assert(before.contains(y@));
                    }
                    // y is derived: x is a source or derived.
                    assert forall|v: Set<Seq<char>>| #[trigger] closed_under(v, lv) && src.subset_of(v) implies v.contains(y@) by {
                        assert(before.contains(x@));
                        if src.contains(x@) {
                        } else {
                            assert(texts(before_out).to_set().contains(x@));
                            let j = texts(before_out).index_of(x@);
                            assert(before_out[j]@ == x@);
                            assert(derived_from(before_out[j]@, src, lv));
                        }
                        assert(v.contains(lv[e as int].0));
                    }
                    assert forall|a: int, b: int| 0 <= a < b < out@.len() implies out@[a]@ != out@[b]@ by {
                        if b == out@.len() - 1 {
                            assert(texts(before_out)[a] == before_out[a]@);
                            assert(before.contains(before_out[a]@));
                        }
                    }
                    lemma_open_links_drop(lv, before, texts(visited@).to_set(), lv.len() as int, e as int);
                    lemma_open_links_mono(lv, at_start, before, lv.len() as int);
                }
                changed = true;
            } else {
                proof {
                    if !changed {
                        assert(texts(visited@).to_set() == at_start);
                    }
                }
            }
            e = e + 1;
        }
    }
    out
}

/// Every claim derived from the sources that is not a source itself is among
/// the stale claims: the sources and the stale claims together are closed
/// under derivation.
pub proof fn lemma_stale_claims_complete(
    sources: Seq<Seq<char>>,
    stale: Seq<Seq<char>>,
    links: Seq<(Seq<char>, Seq<char>)>,
    x: Seq<char>,
)
    requires
        closed_under(sources.to_set() + stale.to_set(), links),
        derived_from(x, sources.to_set(), links),
        !sources.contains(x),
    ensures
        stale.contains(x),
{
    let v = sources.to_set() + stale.to_set();
    assert(sources.to_set().subset_of(v));
    assert(closed_under(v, links));
    assert(v.contains(x));
}

} // verus!
