//! The claim graph of the vault report: which claims are flagged, which are
//! drawn and how, the edges between drawn claims, and the number of regions.
use vstd::prelude::*;
use crate::claims::Claim;
use crate::order::{dedup, holds_text, push_unique, texts};
use crate::report::{
    claim_label, edges_within, first_chars, graph_node_order, indices_where, is_priority,
    is_superseded_at, kind_name, node_kind, node_order, pairs_within, superseded_at, text_pairs,
};
use crate::verify_cmd::assertion_text;

verus! {

/// Ids of the first `n` claims whose validity ended at or before `now`.
pub open spec fn superseded_ids(claims: Seq<Claim>, now: i128, n: int) -> Seq<Seq<char>>
    decreases n,
{
    if n <= 0 {
        Seq::empty()
    } else if superseded_at(claims[n - 1].valid_until, now) {
        superseded_ids(claims, now, n - 1).push(claims[n - 1].id@)
    } else {
        superseded_ids(claims, now, n - 1)
    }
}

/// Ids of both sides of the first `n` contradictions.
pub open spec fn contradicted_ids(pairs: Seq<(Claim, Claim)>, n: int) -> Seq<Seq<char>>
    decreases n,
{
    if n <= 0 {
        Seq::empty()
    } else {
        contradicted_ids(pairs, n - 1).push(pairs[n - 1].0.id@).push(pairs[n - 1].1.id@)
    }
}

/// Ids of the first `n` claims.
pub open spec fn claim_ids(claims: Seq<Claim>, n: int) -> Seq<Seq<char>>
    decreases n,
{
    if n <= 0 {
        Seq::empty()
    } else {
        claim_ids(claims, n - 1).push(claims[n - 1].id@)
    }
}

/// Both ends of the first `n` pairs.
pub open spec fn pair_ends(pairs: Seq<(Seq<char>, Seq<char>)>, n: int) -> Seq<Seq<char>>
    decreases n,
{
    if n <= 0 {
        Seq::empty()
    } else {
        pair_ends(pairs, n - 1).push(pairs[n - 1].0).push(pairs[n - 1].1)
    }
}

/// The ids of each contradiction, as a pair.
pub open spec fn contradiction_pairs(pairs: Seq<(Claim, Claim)>) -> Seq<(Seq<char>, Seq<char>)> {
    pairs.map_values(|p: (Claim, Claim)| (p.0.id@, p.1.id@))
}

/// Provenance pairs `(source, derived)` whose two ends are both claims.
pub open spec fn known_provenance(claims: Seq<Claim>, provenance: Seq<(String, String)>) -> Seq<
    (Seq<char>, Seq<char>),
> {
    pairs_within(text_pairs(provenance), claim_ids(claims, claims.len() as int), provenance.len() as int)
}

/// Claims at an end of a provenance edge, then the contradicted claims.
pub open spec fn connected_ids(
    claims: Seq<Claim>,
    contradictions: Seq<(Claim, Claim)>,
    provenance: Seq<(String, String)>,
) -> Seq<Seq<char>> {
    let prov = known_provenance(claims, provenance);
    pair_ends(prov, prov.len() as int) + contradicted_ids(contradictions, contradictions.len() as int)
}

/// Whether each claim is drawn first: superseded, contradicted, stale, or
/// connected.
pub open spec fn priority_flags(
    claims: Seq<Claim>,
    contradictions: Seq<(Claim, Claim)>,
    stale: Seq<Seq<char>>,
    provenance: Seq<(String, String)>,
    now: i128,
    n: int,
) -> Seq<bool> {
    Seq::new(
        n as nat,
        |k: int|
            {
                let id = claims[k].id@;
                superseded_ids(claims, now, claims.len() as int).contains(id) || contradicted_ids(
                    contradictions,
                    contradictions.len() as int,
                ).contains(id) || stale.contains(id) || connected_ids(claims, contradictions, provenance).contains(id)
            },
    )
}

/// The claims drawn, by index (see `node_order`).
pub open spec fn drawn(
    claims: Seq<Claim>,
    contradictions: Seq<(Claim, Claim)>,
    stale: Seq<Seq<char>>,
    provenance: Seq<(String, String)>,
    now: i128,
    max_nodes: usize,
) -> Seq<int> {
    node_order(
        priority_flags(claims, contradictions, stale, provenance, now, claims.len() as int),
        max_nodes as int,
    )
}

/// The region recorded for `note` at or after entry `i`, or nothing.
pub open spec fn region_of(regions: Seq<(String, String)>, note: Seq<char>, i: int) -> Seq<char>
    decreases regions.len() - i,
{
    if i < 0 || i >= regions.len() {
        Seq::empty()
    } else if regions[i].0@ == note {
        regions[i].1@
    } else {
        region_of(regions, note, i + 1)
    }
}

/// The non-empty regions among the first `n` notes.
pub open spec fn named_regions(regions: Seq<(String, String)>, n: int) -> Seq<Seq<char>>
    decreases n,
{
    if n <= 0 {
        Seq::empty()
    } else if regions[n - 1].1@.len() > 0 {
        named_regions(regions, n - 1).push(regions[n - 1].1@)
    } else {
        named_regions(regions, n - 1)
    }
}

/// A node of the drawn graph.
#[derive(Debug, Clone)]
pub struct GraphNodeData {
    pub id: String,
    pub label: String,
    pub region: String,
    pub kind: &'static str,
}

/// The node of a claim: its id, its label, its note's region and its kind.
pub open spec fn node_text(
    c: Claim,
    regions: Seq<(String, String)>,
    superseded: Seq<Seq<char>>,
    contradicted: Seq<Seq<char>>,
    stale: Seq<Seq<char>>,
) -> (Seq<char>, Seq<char>, Seq<char>, Seq<char>) {
    (
        c.id@,
        first_chars(
            assertion_text(
                c.subject@,
                c.predicate@,
                match c.object {
                    Some(o) => Some(o@),
                    None => None,
                },
            ),
            64,
        ),
        region_of(regions, c.note_id@, 0),
        kind_name(c.id@, superseded, contradicted, stale),
    )
}

/// The claim graph of the report.
#[derive(Debug, Clone)]
pub struct ReportGraph {
    pub nodes: Vec<GraphNodeData>,
    /// Provenance edges `(source, derived)` between drawn claims.
    pub derives: Vec<(String, String)>,
    /// Contradiction edges between drawn claims.
    pub contradicts: Vec<(String, String)>,
    pub superseded: Vec<String>,
    pub contradicted: Vec<String>,
    pub n_regions: usize,
}

proof fn lemma_indices_where_bound(flags: Seq<bool>, want: bool, n: int)
    requires
        0 <= n <= flags.len(),
    ensures
        forall|k: int|
            0 <= k < indices_where(flags, want, n).len() ==> 0 <= #[trigger] indices_where(flags, want, n)[k]
                < n,
    decreases n,
{
    if n > 0 {
        lemma_indices_where_bound(flags, want, n - 1);
        let prev = indices_where(flags, want, n - 1);
        let cur = indices_where(flags, want, n);
        assert forall|k: int| 0 <= k < cur.len() implies 0 <= #[trigger] cur[k] < n by {
            if k < prev.len() {
                assert(cur[k] == prev[k]);
            }
        }
    }
}

proof fn lemma_node_order_bound(priority: Seq<bool>, max_nodes: int)
    ensures
        forall|k: int|
            0 <= k < node_order(priority, max_nodes).len() ==> 0 <= #[trigger] node_order(priority, max_nodes)[k]
                < priority.len(),
{
    let n = priority.len() as int;
    lemma_indices_where_bound(priority, true, n);
    lemma_indices_where_bound(priority, false, n);
    let a = indices_where(priority, true, n);
    let b = indices_where(priority, false, n);
    let all = a + b;
    assert forall|k: int| 0 <= k < all.len() implies 0 <= #[trigger] all[k] < n by {
        if k >= a.len() {
            assert(all[k] == b[k - a.len()]);
        }
    }
}

/// The region recorded for a note (see `region_of`).
fn region_lookup(regions: &Vec<(String, String)>, note: &str) -> (r: String)
    ensures
        r@ == region_of(regions@, note@, 0),
{
    let mut i: usize = 0;
    while i < regions.len()
        invariant
            i <= regions@.len(),
            region_of(regions@, note@, 0) == region_of(regions@, note@, i as int),
        decreases regions.len() - i,
    {
        if crate::text::str_eq(regions[i].0.as_str(), note) {
            return regions[i].1.clone();
        }
        i = i + 1;
    }
    String::new()
}

/// Ids of the superseded claims, of the contradicted claims, and of all claims.
fn flagged_ids(claims: &Vec<Claim>, contradictions: &Vec<(Claim, Claim)>, now: i128) -> (r: (
    Vec<String>,
    Vec<String>,
    Vec<String>,
))
    ensures
        texts(r.0@) == superseded_ids(claims@, now, claims@.len() as int),
        texts(r.1@) == contradicted_ids(contradictions@, contradictions@.len() as int),
        texts(r.2@) == claim_ids(claims@, claims@.len() as int),
{
    let mut sup: Vec<String> = Vec::new();
    let mut ids: Vec<String> = Vec::new();
    let mut i: usize = 0;
    while i < claims.len()
        invariant
            i <= claims@.len(),
            texts(sup@) == superseded_ids(claims@, now, i as int),
            texts(ids@) == claim_ids(claims@, i as int),
        decreases claims.len() - i,
    {
        let ghost s0 = sup@;
        let ghost i0 = ids@;
        if is_superseded_at(claims[i].valid_until, now) {
            sup.push(claims[i].id.clone());
            proof {
                assert(texts(sup@) =~= texts(s0).push(claims@[i as int].id@));
            }
        }
        ids.push(claims[i].id.clone());
        proof {
            assert(texts(ids@) =~= texts(i0).push(claims@[i as int].id@));
        }
        i = i + 1;
    }
    let mut con: Vec<String> = Vec::new();
    let mut j: usize = 0;
    while j < contradictions.len()
        invariant
            j <= contradictions@.len(),
            texts(con@) == contradicted_ids(contradictions@, j as int),
        decreases contradictions.len() - j,
    {
        let ghost c0 = con@;
        con.push(contradictions[j].0.id.clone());
        con.push(contradictions[j].1.id.clone());
        proof {
            assert(texts(con@) =~= texts(c0).push(contradictions@[j as int].0.id@).push(
                contradictions@[j as int].1.id@,
            ));
        }
        j = j + 1;
    }
    (sup, con, ids)
}

/// Both ends of every provenance edge, then the contradicted ids.
fn connected_list(prov: &Vec<(String, String)>, contradicted: &Vec<String>) -> (r: Vec<String>)
    ensures
        texts(r@) == pair_ends(text_pairs(prov@), prov@.len() as int) + texts(contradicted@),
{
    let mut out: Vec<String> = Vec::new();
    let mut i: usize = 0;
    while i < prov.len()
        invariant
            i <= prov@.len(),
            texts(out@) == pair_ends(text_pairs(prov@), i as int),
        decreases prov.len() - i,
    {
        let ghost o0 = out@;
        out.push(prov[i].0.clone());
        out.push(prov[i].1.clone());
        proof {
            assert(texts(out@) =~= texts(o0).push(prov@[i as int].0@).push(prov@[i as int].1@));
        }
        i = i + 1;
    }
    let ghost base = texts(out@);
    let mut j: usize = 0;
    while j < contradicted.len()
        invariant
            j <= contradicted@.len(),
            texts(out@) == base + texts(contradicted@).take(j as int),
        decreases contradicted.len() - j,
    {
        let ghost o0 = out@;
        out.push(contradicted[j].clone());
        proof {
            assert(texts(out@) =~= texts(o0).push(contradicted@[j as int]@));
            assert(texts(contradicted@).take(j + 1) =~= texts(contradicted@).take(j as int).push(
                contradicted@[j as int]@,
            ));
            assert(texts(out@) =~= base + texts(contradicted@).take(j + 1));
        }
        j = j + 1;
    }
    proof {
        assert(texts(contradicted@).take(contradicted@.len() as int) =~= texts(contradicted@));
    }
    out
}

/// The number of distinct non-empty regions.
fn count_regions(regions: &Vec<(String, String)>) -> (r: usize)
    ensures
        r == dedup(named_regions(regions@, regions@.len() as int)).len(),
{
    let mut seen: Vec<String> = Vec::new();
    let mut i: usize = 0;
    while i < regions.len()
        invariant
            i <= regions@.len(),
            texts(seen@) == dedup(named_regions(regions@, i as int)),
        decreases regions.len() - i,
    {
        let ghost before = named_regions(regions@, i as int);
        if !regions[i].1.as_str().is_empty() {
            push_unique(&mut seen, &regions[i].1);
            proof {
                let after = before.push(regions@[i as int].1@);
                assert(named_regions(regions@, i + 1) == after);
                assert(after.drop_last() =~= before);
                assert(after.last() == regions@[i as int].1@);
            }
        } else {
            proof {
                assert(named_regions(regions@, i + 1) == before);
            }
        }
        i = i + 1;
    }
    seen.len()
}

/// The claim graph of the report at time `now`, for the claims, the note
/// regions (note id, region), the contradictions, the stale claim ids and
/// the provenance pairs (source, derived), drawing at most `max_nodes`
/// claims (at least one).
pub fn report_graph(
    claims: &Vec<Claim>,
    regions: &Vec<(String, String)>,
    contradictions: &Vec<(Claim, Claim)>,
    stale: &Vec<String>,
    provenance: &Vec<(String, String)>,
    now: i128,
    max_nodes: usize,
) -> (g: ReportGraph)
    ensures
        texts(g.superseded@) == superseded_ids(claims@, now, claims@.len() as int),
        texts(g.contradicted@) == contradicted_ids(contradictions@, contradictions@.len() as int),
        g.nodes@.len() == drawn(claims@, contradictions@, texts(stale@), provenance@, now, max_nodes).len(),
        forall|k: int|
            0 <= k < g.nodes@.len() ==> {
                let n = #[trigger] g.nodes@[k];
                (n.id@, n.label@, n.region@, n.kind@) == node_text(
                    claims@[drawn(claims@, contradictions@, texts(stale@), provenance@, now, max_nodes)[k]],
                    regions@,
                    superseded_ids(claims@, now, claims@.len() as int),
                    contradicted_ids(contradictions@, contradictions@.len() as int),
                    texts(stale@),
                )
            },
        text_pairs(g.derives@) == pairs_within(
            known_provenance(claims@, provenance@),
            drawn(claims@, contradictions@, texts(stale@), provenance@, now, max_nodes).map_values(
                |i: int| claims@[i].id@,
            ),
            known_provenance(claims@, provenance@).len() as int,
        ),
        text_pairs(g.contradicts@) == pairs_within(
            contradiction_pairs(contradictions@),
            drawn(claims@, contradictions@, texts(stale@), provenance@, now, max_nodes).map_values(
                |i: int| claims@[i].id@,
            ),
            contradictions@.len() as int,
        ),
        g.n_regions == dedup(named_regions(regions@, regions@.len() as int)).len(),
{
    let (sup, con, ids) = flagged_ids(claims, contradictions, now);
    let prov = edges_within(provenance, &ids);
    let connected = connected_list(&prov, &con);
    let ghost flags = priority_flags(claims@, contradictions@, texts(stale@), provenance@, now, claims@.len() as int);
    let mut priority: Vec<bool> = Vec::new();
    let mut i: usize = 0;
    while i < claims.len()
        invariant
            i <= claims@.len(),
            texts(sup@) == superseded_ids(claims@, now, claims@.len() as int),
            texts(con@) == contradicted_ids(contradictions@, contradictions@.len() as int),
            texts(connected@) == connected_ids(claims@, contradictions@, provenance@),
            priority@ == priority_flags(claims@, contradictions@, texts(stale@), provenance@, now, i as int),
        decreases claims.len() - i,
    {
        let f = is_priority(claims[i].id.as_str(), &sup, &con, stale, &connected);
        priority.push(f);
        proof {
            assert(priority@ =~= priority_flags(
                claims@,
                contradictions@,
                texts(stale@),
                provenance@,
                now,
                i + 1,
            ));
        }
        i = i + 1;
    }
    let order = graph_node_order(&priority, max_nodes);
    let ghost dr = drawn(claims@, contradictions@, texts(stale@), provenance@, now, max_nodes);
    proof {
        lemma_node_order_bound(priority@, max_nodes as int);
        assert(priority@ == flags);
    }
    let mut nodes: Vec<GraphNodeData> = Vec::new();
    let mut node_ids: Vec<String> = Vec::new();
    let mut k: usize = 0;
    while k < order.len()
        invariant
            k <= order@.len(),
            order@.len() == dr.len(),
            forall|j: int| 0 <= j < order@.len() ==> order@[j] as int == #[trigger] dr[j],
            forall|j: int| 0 <= j < dr.len() ==> 0 <= #[trigger] dr[j] < claims@.len(),
            texts(sup@) == superseded_ids(claims@, now, claims@.len() as int),
            texts(con@) == contradicted_ids(contradictions@, contradictions@.len() as int),
            nodes@.len() == k,
            texts(node_ids@) == dr.take(k as int).map_values(|i: int| claims@[i].id@),
            forall|j: int|
                0 <= j < k ==> {
                    let n = #[trigger] nodes@[j];
                    (n.id@, n.label@, n.region@, n.kind@) == node_text(
                        claims@[dr[j]],
                        regions@,
                        superseded_ids(claims@, now, claims@.len() as int),
                        contradicted_ids(contradictions@, contradictions@.len() as int),
                        texts(stale@),
                    )
                },
        decreases order.len() - k,
    {
        let ci = order[k];
        assert(ci as int == dr[k as int]);
        let c = &claims[ci];
        let object = match &c.object {
            Some(o) => Some(o.as_str()),
            None => None,
        };
        let label = claim_label(c.subject.as_str(), c.predicate.as_str(), object);
        let region = region_lookup(regions, c.note_id.as_str());
        let kind = node_kind(c.id.as_str(), &sup, &con, stale);
        let ghost n0 = node_ids@;
        nodes.push(GraphNodeData { id: c.id.clone(), label, region, kind });
        node_ids.push(c.id.clone());
        proof {
            assert(texts(node_ids@) =~= texts(n0).push(claims@[dr[k as int]].id@));
            assert(dr.take(k + 1).map_values(|i: int| claims@[i].id@) =~= dr.take(k as int).map_values(
                |i: int| claims@[i].id@,
            ).push(claims@[dr[k as int]].id@));
        }
        k = k + 1;
    }
    proof {
        assert(dr.take(dr.len() as int) =~= dr);
        assert(text_pairs(prov@) == known_provenance(claims@, provenance@));
    }
    let derives = edges_within(&prov, &node_ids);
    let mut contra_ids: Vec<(String, String)> = Vec::new();
    let mut j: usize = 0;
    while j < contradictions.len()
        invariant
            j <= contradictions@.len(),
            text_pairs(contra_ids@) == contradiction_pairs(contradictions@).take(j as int),
        decreases contradictions.len() - j,
    {
        let ghost p0 = contra_ids@;
        contra_ids.push((contradictions[j].0.id.clone(), contradictions[j].1.id.clone()));
        proof {
            assert(text_pairs(contra_ids@) =~= text_pairs(p0).push(contradiction_pairs(contradictions@)[j as int]));
            assert(text_pairs(contra_ids@) =~= contradiction_pairs(contradictions@).take(j + 1));
        }
        j = j + 1;
    }
    proof {
        assert(contradiction_pairs(contradictions@).take(contradictions@.len() as int) =~= contradiction_pairs(
            contradictions@,
        ));
    }
    let contradicts = edges_within(&contra_ids, &node_ids);
    let n_regions = count_regions(regions);
    ReportGraph { nodes, derives, contradicts, superseded: sup, contradicted: con, n_regions }
}

} // verus!
