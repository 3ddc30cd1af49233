//! The "today's review" shortlist of the world map: the three findings most
//! worth a look, cross-region contradictions first.
use vstd::prelude::*;

use crate::atlas::{
    kept,
    humanized, merged, merged_sources, push_decimal, push_source_note_list, region_of,
    source_list,
};
use crate::challenger::{
    contradiction_view, contradictions, decision_view, detect_contradictions,
    detect_recent_decisions, detect_stale_dependencies, recent_decisions, stale_dependencies,
    stale_view, Contradiction, Decision, StaleDep,
};
use crate::claims::{decimal, push_str_chars, Claim};
use crate::order::{rank_order, rank_views, stable_rank_order, texts, RankKey};
use crate::text::{chars_of, str_eq, string_of};

verus! {

/// Regions recorded for any of the notes.
pub open spec fn region_set(notes: Seq<Seq<char>>, note_regions: Seq<(String, String)>) -> Set<Seq<char>> {
    Set::new(|r: Seq<char>| exists|i: int| 0 <= i < notes.len() && region_of(note_regions, #[trigger] notes[i], 0) == Some(r))
}

fn region_for(note_regions: &Vec<(String, String)>, note: &String) -> (r: Option<String>)
    ensures
        match region_of(note_regions@, note@, 0) {
            Some(x) => r matches Some(y) && y@ == x,
            None => r is None,
        },
{
    let mut i: usize = 0;
    while i < note_regions.len()
        invariant
            i <= note_regions@.len(),
            region_of(note_regions@, note@, 0) == region_of(note_regions@, note@, i as int),
        decreases note_regions.len() - i,
    {
        if str_eq(note_regions[i].0.as_str(), note.as_str()) {
            return Some(note_regions[i].1.clone());
        }
        i = i + 1;
    }
    None
}

fn regions_list(notes: &Vec<String>, note_regions: &Vec<(String, String)>) -> (r: Vec<String>)
    ensures
        forall|x: Seq<char>|
            #![trigger texts(r@).contains(x)]
            #![trigger region_set(texts(notes@), note_regions@).contains(x)]
            texts(r@).contains(x) <==> region_set(texts(notes@), note_regions@).contains(x),
{
    let mut out: Vec<String> = Vec::new();
    let mut i: usize = 0;
    while i < notes.len()
        invariant
            i <= notes@.len(),
            forall|x: Seq<char>|
                texts(out@).contains(x) <==> exists|k: int|
                    0 <= k < i && region_of(note_regions@, #[trigger] texts(notes@)[k], 0) == Some(x),
        decreases notes.len() - i,
    {
        let ghost before = out@;
        assert(texts(notes@)[i as int] == notes@[i as int]@);
        match region_for(note_regions, &notes[i]) {
            Some(r) => {
                out.push(r);
                proof {
                    assert forall|x: Seq<char>|
                        texts(out@).contains(x) <==> exists|k: int|
                            0 <= k < i + 1 && region_of(note_regions@, #[trigger] texts(notes@)[k], 0) == Some(x) by {
                        if texts(out@).contains(x) {
                            let w = choose|w: int| 0 <= w < texts(out@).len() && texts(out@)[w] == x;
                            if w < before.len() {
                                assert(texts(before)[w] == x);
                                assert(texts(before).contains(x));
                            }
                        }
                        if exists|k: int|
                            0 <= k < i + 1 && region_of(note_regions@, #[trigger] texts(notes@)[k], 0) == Some(x) {
                            let k = choose|k: int|
                                0 <= k < i + 1 && region_of(note_regions@, #[trigger] texts(notes@)[k], 0) == Some(x);
                            if k < i {
                                assert(texts(before).contains(x));
                                let w = choose|w: int| 0 <= w < texts(before).len() && texts(before)[w] == x;
                                assert(out@[w] == before[w]);
                                assert(texts(out@)[w] == x);
                            } else {
                                assert(texts(out@)[before.len() as int] == x);
                            }
                        }
                    }
                }
            },
            None => {
                proof {
                    assert forall|x: Seq<char>|
                        texts(out@).contains(x) <==> exists|k: int|
                            0 <= k < i + 1 && region_of(note_regions@, #[trigger] texts(notes@)[k], 0) == Some(x) by {
                        if exists|k: int|
                            0 <= k < i + 1 && region_of(note_regions@, #[trigger] texts(notes@)[k], 0) == Some(x) {
                            let k = choose|k: int|
                                0 <= k < i + 1 && region_of(note_regions@, #[trigger] texts(notes@)[k], 0) == Some(x);
                            assert(k < i);
                        }
                    }
                }
            },
        }
        i = i + 1;
    }
    out
}

/// Whether every text of `a` is in `b`.
fn all_in(a: &Vec<String>, b: &Vec<String>) -> (r: bool)
    ensures
        r == forall|x: Seq<char>| texts(a@).contains(x) ==> texts(b@).contains(x),
{
    let mut i: usize = 0;
    while i < a.len()
        invariant
            i <= a@.len(),
            forall|k: int| 0 <= k < i ==> texts(b@).contains(#[trigger] texts(a@)[k]),
        decreases a.len() - i,
    {
        assert(texts(a@)[i as int] == a@[i as int]@);
        if !crate::order::holds_text(b, a[i].as_str()) {
            proof {
                assert(texts(a@).contains(a@[i as int]@));
            }
            return false;
        }
        i = i + 1;
    }
    proof {
        assert forall|x: Seq<char>| texts(a@).contains(x) implies texts(b@).contains(x) by {
            let k = choose|k: int| 0 <= k < texts(a@).len() && texts(a@)[k] == x;
        }
    }
    true
}

/// The two note lists lie in different sets of regions.
pub fn crosses_regions(left: &Vec<String>, right: &Vec<String>, note_regions: &Vec<(String, String)>) -> (b: bool)
    ensures
        b == (region_set(texts(left@), note_regions@) != region_set(texts(right@), note_regions@)),
{
    let l = regions_list(left, note_regions);
    let r = regions_list(right, note_regions);
    let same = all_in(&l, &r) && all_in(&r, &l);
    proof {
        let a = region_set(texts(left@), note_regions@);
        let c = region_set(texts(right@), note_regions@);
        if same {
            assert forall|x: Seq<char>| a.contains(x) <==> c.contains(x) by {
                assert(texts(l@).contains(x) <==> a.contains(x));
                assert(texts(r@).contains(x) <==> c.contains(x));
            }
            assert(a =~= c);
        } else {
            if a == c {
                assert(forall|x: Seq<char>| texts(l@).contains(x) <==> a.contains(x));
            }
        }
    }
    !same
}

/// `a + b`, held at `usize::MAX`.
pub open spec fn sat_add(a: nat, b: nat) -> int {
    if a + b > usize::MAX {
        usize::MAX as int
    } else {
        (a + b) as int
    }
}

/// Review text of a contradiction.
pub open spec fn contradiction_text(c: (Seq<char>, Seq<char>, Seq<char>, Seq<char>, Seq<Seq<char>>, Seq<Seq<char>>, Seq<Seq<char>>, Seq<Seq<char>>)) -> Seq<char> {
    "**"@ + humanized(c.0) + ": "@ + c.1 + " disagreement** - "@ + c.2 + " ("@ + decimal(c.4.len())
        + " sources) vs "@ + c.3 + " ("@ + decimal(c.5.len()) + " sources) ["@ + source_list(
        merged(c.4, c.5),
    ) + "]"@
}

/// Review text of a stale dependency.
pub open spec fn stale_text(d: (Seq<char>, Seq<char>, Seq<char>, Seq<Seq<char>>, Seq<Seq<char>>, Seq<Seq<char>>, Seq<Seq<char>>)) -> Seq<char> {
    "**"@ + humanized(d.0) + "** depends on `"@ + d.1 + "` which is superseded by `"@ + d.2 + "` ["@
        + source_list(merged(d.3, d.4)) + "]"@
}

/// Review text of a decision.
pub open spec fn decision_text(d: (Seq<char>, Seq<char>, Seq<Seq<char>>, Seq<Seq<char>>)) -> Seq<char> {
    "**"@ + humanized(d.0) + " -> "@ + humanized(d.1) + "** ("@ + decimal(d.2.len())
        + " supporting claims across "@ + source_list(d.2) + ")"@
}

/// Review lines as (priority, support, text): contradictions (priority 1 when
/// their two sides lie in different regions, else 3), stale dependencies (2),
/// then decisions (4).
pub open spec fn review_lines(claims: Seq<Claim>, note_regions: Seq<(String, String)>) -> Seq<(int, int, Seq<char>)> {
    contradictions(claims).map_values(
        |c: (Seq<char>, Seq<char>, Seq<char>, Seq<char>, Seq<Seq<char>>, Seq<Seq<char>>, Seq<Seq<char>>, Seq<Seq<char>>)| (
            if region_set(c.4, note_regions) != region_set(c.5, note_regions) {
                1int
            } else {
                3int
            },
            sat_add(c.4.len(), c.5.len()),
            contradiction_text(c),
        ),
    ) + stale_dependencies(claims).map_values(
        |d: (Seq<char>, Seq<char>, Seq<char>, Seq<Seq<char>>, Seq<Seq<char>>, Seq<Seq<char>>, Seq<Seq<char>>)| (2int, sat_add(d.3.len(), d.4.len()), stale_text(d)),
    ) + recent_decisions(claims).map_values(|d: (Seq<char>, Seq<char>, Seq<Seq<char>>, Seq<Seq<char>>)| (4int, d.2.len() as int, decision_text(d)))
}

/// Lines of priority `p`.
pub open spec fn of_priority(p: int) -> spec_fn((int, int, Seq<char>)) -> bool {
    |l: (int, int, Seq<char>)| l.0 == p
}

/// Rank key of a line: support, then text.
pub open spec fn line_rank() -> spec_fn((int, int, Seq<char>)) -> (int, Seq<char>, Seq<char>) {
    |l: (int, int, Seq<char>)| (l.1, l.2, Seq::<char>::empty())
}

/// The lines of one priority, by support (most first) then text.
pub open spec fn ranked_bucket(lines: Seq<(int, int, Seq<char>)>, p: int) -> Seq<Seq<char>> {
    let b = kept(lines, of_priority(p));
    rank_order(b.map_values(line_rank()), b.len() as int).map_values(|j: int| b[j].2)
}

/// Today's review: the first three lines by priority, then support (most
/// first), then text.
pub open spec fn todays_review(claims: Seq<Claim>, note_regions: Seq<(String, String)>) -> Seq<Seq<char>> {
    let l = review_lines(claims, note_regions);
    let all = ranked_bucket(l, 1) + ranked_bucket(l, 2) + ranked_bucket(l, 3) + ranked_bucket(l, 4);
    if all.len() <= 3 {
        all
    } else {
        all.take(3)
    }
}

fn push_humanized(out: &mut Vec<char>, s: &String)
    ensures
        final(out)@ == old(out)@ + humanized(s@),
{
    let h = crate::atlas::humanize_term(s.as_str());
    push_str_chars(out, h.as_str());
}

fn contradiction_line_text(c: &Contradiction) -> (r: String)
    ensures
        r@ == contradiction_text(contradiction_view(*c)),
{
    let mut out: Vec<char> = Vec::new();
    push_str_chars(&mut out, "**");
    push_humanized(&mut out, &c.subject);
    push_str_chars(&mut out, ": ");
    push_str_chars(&mut out, c.family.as_str());
    push_str_chars(&mut out, " disagreement** - ");
    push_str_chars(&mut out, c.left_object.as_str());
    push_str_chars(&mut out, " (");
    push_decimal(&mut out, c.left_source_note_ids.len());
    push_str_chars(&mut out, " sources) vs ");
    push_str_chars(&mut out, c.right_object.as_str());
    push_str_chars(&mut out, " (");
    push_decimal(&mut out, c.right_source_note_ids.len());
    push_str_chars(&mut out, " sources) [");
    let m = merged_sources(&c.left_source_note_ids, &c.right_source_note_ids);
    push_source_note_list(&mut out, &m);
    push_str_chars(&mut out, "]");
    proof {
        assert(out@ =~= contradiction_text(contradiction_view(*c)));
    }
    string_of(&out)
}

fn stale_line_text(d: &StaleDep) -> (r: String)
    ensures
        r@ == stale_text(stale_view(*d)),
{
    let mut out: Vec<char> = Vec::new();
    push_str_chars(&mut out, "**");
    push_humanized(&mut out, &d.dependent_subject);
    push_str_chars(&mut out, "** depends on `");
    push_str_chars(&mut out, d.stale_subject.as_str());
    push_str_chars(&mut out, "` which is superseded by `");
    push_str_chars(&mut out, d.superseded_by.as_str());
    push_str_chars(&mut out, "` [");
    let m = merged_sources(&d.depends_on_source_note_ids, &d.superseded_source_note_ids);
    push_source_note_list(&mut out, &m);
    push_str_chars(&mut out, "]");
    proof {
        assert(out@ =~= stale_text(stale_view(*d)));
    }
    string_of(&out)
}

fn decision_line_text(d: &Decision) -> (r: String)
    ensures
        r@ == decision_text(decision_view(*d)),
{
    let mut out: Vec<char> = Vec::new();
    push_str_chars(&mut out, "**");
    push_humanized(&mut out, &d.subject);
    push_str_chars(&mut out, " -> ");
    push_humanized(&mut out, &d.object);
    push_str_chars(&mut out, "** (");
    push_decimal(&mut out, d.source_note_ids.len());
    push_str_chars(&mut out, " supporting claims across ");
    push_source_note_list(&mut out, &d.source_note_ids);
    push_str_chars(&mut out, ")");
    proof {
        assert(out@ =~= decision_text(decision_view(*d)));
    }
    string_of(&out)
}

/// A review line.
pub struct ReviewLine {
    pub priority: u8,
    pub support: usize,
    pub text: String,
}

/// A review line as plain values.
pub open spec fn line_view(l: ReviewLine) -> (int, int, Seq<char>) {
    (l.priority as int, l.support as int, l.text@)
}

fn bucket(lines: &Vec<ReviewLine>, p: u8) -> (r: Vec<String>)
    ensures
        texts(r@) == ranked_bucket(lines@.map_values(|l: ReviewLine| line_view(l)), p as int),
{
    let ghost lv = lines@.map_values(|l: ReviewLine| line_view(l));
    let ghost mut bk: Seq<(int, int, Seq<char>)> = Seq::empty();
    let mut texts_v: Vec<String> = Vec::new();
    let mut ranks: Vec<RankKey> = Vec::new();
    let mut i: usize = 0;
    while i < lines.len()
        invariant
            i <= lines@.len(),
            lv == lines@.map_values(|l: ReviewLine| line_view(l)),
            bk == kept(lv.take(i as int), of_priority(p as int)),
            texts_v@.len() == bk.len(),
            ranks@.len() == bk.len(),
            forall|j: int| 0 <= j < bk.len() ==> #[trigger] texts_v@[j]@ == bk[j].2,
            forall|j: int|
                0 <= j < bk.len() ==> crate::order::rank_view(#[trigger] ranks@[j]) == (
                    bk[j].1,
                    bk[j].2,
                    Seq::<char>::empty(),
                ),
        decreases lines.len() - i,
    {
        proof {
            crate::atlas::lemma_kept_step(lv, of_priority(p as int), i as int);
            assert(lv[i as int] == line_view(lines@[i as int]));
        }
        if lines[i].priority == p {
            let t = lines[i].text.clone();
            let t2 = lines[i].text.clone();
            texts_v.push(t);
            ranks.push(RankKey { count: lines[i].support, first: t2, second: String::new() });
            proof {
                bk = bk.push(lv[i as int]);
            }
        }
        i = i + 1;
    }
    proof {
        assert(lv.take(lines@.len() as int) =~= lv);
    }
    let order = stable_rank_order(&ranks);
    proof {
        assert(rank_views(ranks@) =~= bk.map_values(line_rank()));
    }
    let mut out: Vec<String> = Vec::new();
    let mut k: usize = 0;
    while k < order.len()
        invariant
            k <= order@.len(),
            order@.len() == ranks@.len(),
            texts_v@.len() == bk.len(),
            ranks@.len() == bk.len(),
            forall|j: int| 0 <= j < bk.len() ==> #[trigger] texts_v@[j]@ == bk[j].2,
            forall|j: int|
                0 <= j < order@.len() ==> #[trigger] order@[j] == rank_order(rank_views(ranks@), ranks@.len() as int)[j]
                    && order@[j] < ranks@.len(),
            out@.len() == k,
            forall|j: int| 0 <= j < k ==> (#[trigger] out@[j])@ == bk[order@[j] as int].2,
        decreases order.len() - k,
    {
        let t = texts_v[order[k]].clone();
        out.push(t);
        k = k + 1;
    }
    proof {
        let rb = ranked_bucket(lv, p as int);
        assert(bk == kept(lv, of_priority(p as int)));
        assert(rb.len() == out@.len());
        assert forall|j: int| 0 <= j < out@.len() implies texts(out@)[j] == rb[j] by {
            assert(texts(out@)[j] == out@[j]@);
        }
        assert(texts(out@) =~= rb);
    }
    out
}

/// Today's review of a set of claims (see `todays_review`).
///
/// The list of claims must fit twice in a `usize`, as any list in memory does.
pub fn todays_review_findings(claims: &Vec<Claim>, note_regions: &Vec<(String, String)>) -> (r: Vec<String>)
    requires
        claims@.len() <= usize::MAX / 2,
    ensures
        texts(r@) == todays_review(claims@, note_regions@),
{
    let contras = detect_contradictions(claims);
    let stale = detect_stale_dependencies(claims);
    let decisions = detect_recent_decisions(claims);
    let mut lines: Vec<ReviewLine> = Vec::new();
    let ghost cv = contras@.map_values(|c: Contradiction| contradiction_view(c));
    let mut i: usize = 0;
    while i < contras.len()
        invariant
            i <= contras@.len(),
            cv == contras@.map_values(|c: Contradiction| contradiction_view(c)),
            lines@.map_values(|l: ReviewLine| line_view(l)) == cv.take(i as int).map_values(
                |c: (Seq<char>, Seq<char>, Seq<char>, Seq<char>, Seq<Seq<char>>, Seq<Seq<char>>, Seq<Seq<char>>, Seq<Seq<char>>)| (
                    if region_set(c.4, note_regions@) != region_set(c.5, note_regions@) {
                        1int
                    } else {
                        3int
                    },
                    sat_add(c.4.len(), c.5.len()),
                    contradiction_text(c),
                ),
            ),
        decreases contras.len() - i,
    {
        let c = &contras[i];
        let cross = crosses_regions(&c.left_source_note_ids, &c.right_source_note_ids, note_regions);
        let support = c.left_source_note_ids.len().saturating_add(c.right_source_note_ids.len());
        let text = contradiction_line_text(c);
        let ghost before = lines@;
        lines.push(ReviewLine { priority: if cross { 1 } else { 3 }, support, text });
        proof {
            assert(cv[i as int] == contradiction_view(*c));
            assert(lines@.map_values(|l: ReviewLine| line_view(l)) =~= before.map_values(|l: ReviewLine| line_view(l)).push(line_view(lines@[i as int])));
            assert(cv.take(i + 1) =~= cv.take(i as int).push(cv[i as int]));
            assert(lines@.map_values(|l: ReviewLine| line_view(l)) =~= cv.take(i + 1).map_values(
                |c: (Seq<char>, Seq<char>, Seq<char>, Seq<char>, Seq<Seq<char>>, Seq<Seq<char>>, Seq<Seq<char>>, Seq<Seq<char>>)| (
                    if region_set(c.4, note_regions@) != region_set(c.5, note_regions@) {
                        1int
                    } else {
                        3int
                    },
                    sat_add(c.4.len(), c.5.len()),
                    contradiction_text(c),
                ),
            ));
        }
        i = i + 1;
    }
    proof {
        assert(cv.take(contras@.len() as int) =~= cv);
    }
    let ghost l1 = lines@.map_values(|l: ReviewLine| line_view(l));
    let ghost sv = stale@.map_values(|d: StaleDep| stale_view(d));
    let mut j: usize = 0;
    while j < stale.len()
        invariant
            j <= stale@.len(),
            sv == stale@.map_values(|d: StaleDep| stale_view(d)),
            lines@.map_values(|l: ReviewLine| line_view(l)) == l1 + sv.take(j as int).map_values(
                |d: (Seq<char>, Seq<char>, Seq<char>, Seq<Seq<char>>, Seq<Seq<char>>, Seq<Seq<char>>, Seq<Seq<char>>)| (2int, sat_add(d.3.len(), d.4.len()), stale_text(d)),
            ),
        decreases stale.len() - j,
    {
        let d = &stale[j];
        let support = d.depends_on_source_note_ids.len().saturating_add(d.superseded_source_note_ids.len());
        let text = stale_line_text(d);
        let ghost before = lines@;
        lines.push(ReviewLine { priority: 2, support, text });
        proof {
            assert(sv[j as int] == stale_view(*d));
            assert(lines@.map_values(|l: ReviewLine| line_view(l)) =~= before.map_values(|l: ReviewLine| line_view(l)).push(line_view(lines@[before.len() as int])));
            assert(sv.take(j + 1) =~= sv.take(j as int).push(sv[j as int]));
            assert(lines@.map_values(|l: ReviewLine| line_view(l)) =~= l1 + sv.take(j + 1).map_values(
                |d: (Seq<char>, Seq<char>, Seq<char>, Seq<Seq<char>>, Seq<Seq<char>>, Seq<Seq<char>>, Seq<Seq<char>>)| (2int, sat_add(d.3.len(), d.4.len()), stale_text(d)),
            ));
        }
        j = j + 1;
    }
    proof {
        assert(sv.take(stale@.len() as int) =~= sv);
    }
    let ghost l2 = lines@.map_values(|l: ReviewLine| line_view(l));
    let ghost dv = decisions@.map_values(|d: Decision| decision_view(d));
    let mut k: usize = 0;
    while k < decisions.len()
        invariant
            k <= decisions@.len(),
            dv == decisions@.map_values(|d: Decision| decision_view(d)),
            lines@.map_values(|l: ReviewLine| line_view(l)) == l2 + dv.take(k as int).map_values(
                |d: (Seq<char>, Seq<char>, Seq<Seq<char>>, Seq<Seq<char>>)| (4int, d.2.len() as int, decision_text(d)),
            ),
        decreases decisions.len() - k,
    {
        let d = &decisions[k];
        let text = decision_line_text(d);
        let ghost before = lines@;
        lines.push(ReviewLine { priority: 4, support: d.source_note_ids.len(), text });
        proof {
            assert(dv[k as int] == decision_view(*d));
            assert(lines@.map_values(|l: ReviewLine| line_view(l)) =~= before.map_values(|l: ReviewLine| line_view(l)).push(line_view(lines@[before.len() as int])));
            assert(dv.take(k + 1) =~= dv.take(k as int).push(dv[k as int]));
            assert(lines@.map_values(|l: ReviewLine| line_view(l)) =~= l2 + dv.take(k + 1).map_values(
                |d: (Seq<char>, Seq<char>, Seq<Seq<char>>, Seq<Seq<char>>)| (4int, d.2.len() as int, decision_text(d)),
            ));
        }
        k = k + 1;
    }
    proof {
        assert(dv.take(decisions@.len() as int) =~= dv);
        assert(lines@.map_values(|l: ReviewLine| line_view(l)) =~= review_lines(claims@, note_regions@));
    }
    let mut out: Vec<String> = Vec::new();
    let mut p: u8 = 1;
    while p <= 4
        invariant
            1 <= p <= 5,
            lines@.map_values(|l: ReviewLine| line_view(l)) == review_lines(claims@, note_regions@),
            texts(out@) == (if p == 1 {
                Seq::empty()
            } else if p == 2 {
                ranked_bucket(review_lines(claims@, note_regions@), 1)
            } else if p == 3 {
                ranked_bucket(review_lines(claims@, note_regions@), 1) + ranked_bucket(review_lines(claims@, note_regions@), 2)
            } else if p == 4 {
                ranked_bucket(review_lines(claims@, note_regions@), 1) + ranked_bucket(review_lines(claims@, note_regions@), 2)
                    + ranked_bucket(review_lines(claims@, note_regions@), 3)
            } else {
                ranked_bucket(review_lines(claims@, note_regions@), 1) + ranked_bucket(review_lines(claims@, note_regions@), 2)
                    + ranked_bucket(review_lines(claims@, note_regions@), 3) + ranked_bucket(review_lines(claims@, note_regions@), 4)
            }),
        decreases 5 - p,
    {
        let b = bucket(&lines, p);
        let ghost before = out@;
        let mut q: usize = 0;
        while q < b.len()
            invariant
                q <= b@.len(),
                texts(out@) == texts(before) + texts(b@).take(q as int),
            decreases b.len() - q,
        {
            let t = b[q].clone();
            let ghost o0 = out@;
            out.push(t);
            q = q + 1;
            proof {
                assert(texts(out@) =~= texts(o0).push(b@[q - 1]@));
                assert(texts(b@).take(q as int) =~= texts(b@).take(q - 1).push(b@[q - 1]@));
                assert(texts(out@) =~= texts(before) + texts(b@).take(q as int));
            }
        }
        proof {
            assert(texts(b@).take(b@.len() as int) =~= texts(b@));
        }
        p = p + 1;
    }
    if out.len() > 3 {
        out.truncate(3);
        proof {
            assert(texts(out@) =~= todays_review(claims@, note_regions@));
        }
    }
    out
}

} // verus!
