//! The decisions behind the vault report: which claims the graph draws and in
//! what order, how each is labelled and coloured, which side of a
//! contradiction is the older one, and how embedded text is escaped.
use vstd::prelude::*;
use crate::order::{texts, holds_text};
use crate::text::{chars_of, string_of, trim};
use crate::verify_cmd::{assertion_text, claim_assertion};
use crate::claims::push_str_chars;
use crate::claims::{Claim, decimal, usize_decimal};
use crate::verdict::escaped;

verus! {

/// At most the first `n` characters of `s`.
pub open spec fn first_chars(s: Seq<char>, n: int) -> Seq<char> {
    if s.len() <= n {
        s
    } else {
        s.take(n)
    }
}

/// At most the first `n` characters of `s`.
fn take_chars(s: &str, n: usize) -> (r: String)
    ensures
        r@ == first_chars(s@, n as int),
{
    let v = chars_of(s);
    if v.len() <= n {
        return string_of(&v);
    }
    let mut out: Vec<char> = Vec::new();
    let mut i: usize = 0;
    while i < n
        invariant
            i <= n < v@.len(),
            out@ == v@.take(i as int),
        decreases n - i,
    {
        out.push(v[i]);
        proof {
            assert(v@.take(i + 1) =~= v@.take(i as int).push(v@[i as int]));
        }
        i = i + 1;
    }
    string_of(&out)
}

/// The short form of a claim id: its first eight characters.
pub fn short_id(id: &str) -> (r: String)
    ensures
        r@ == first_chars(id@, 8),
{
    take_chars(id, 8)
}

/// The label of a claim node: its assertion, cut to 64 characters.
pub fn claim_label(subject: &str, predicate: &str, object: Option<&str>) -> (r: String)
    ensures
        r@ == first_chars(
            assertion_text(
                subject@,
                predicate@,
                match object {
                    Some(o) => Some(o@),
                    None => None,
                },
            ),
            64,
        ),
{
    let a = claim_assertion(subject, predicate, object);
    take_chars(a.as_str(), 64)
}

/// Escape of one character of JSON embedded in a script block.
pub open spec fn script_escape_char(c: char) -> Seq<char> {
    if c == '<' {
        "\\u003c"@
    } else if c == '>' {
        "\\u003e"@
    } else if c == '&' {
        "\\u0026"@
    } else {
        seq![c]
    }
}

/// JSON text made safe to embed in a script block: `<`, `>` and `&` become
/// unicode escapes, so the text can neither close the block nor form markup.
pub open spec fn script_escaped(s: Seq<char>) -> Seq<char>
    decreases s.len(),
{
    if s.len() == 0 {
        Seq::empty()
    } else {
        script_escaped(s.drop_last()) + script_escape_char(s.last())
    }
}

/// JSON text made safe to embed in a script block (see `script_escaped`).
pub fn json_for_script(json: &str) -> (r: String)
    ensures
        r@ == script_escaped(json@),
{
    let v = chars_of(json);
    let mut out: Vec<char> = Vec::new();
    let mut i: usize = 0;
    while i < v.len()
        invariant
            i <= v@.len(),
            v@ == json@,
            out@ == script_escaped(v@.take(i as int)),
        decreases v.len() - i,
    {
        let c = v[i];
        proof {
            assert(v@.take(i + 1).drop_last() =~= v@.take(i as int));
            reveal_strlit("\\u003c");
            reveal_strlit("\\u003e");
            reveal_strlit("\\u0026");
        }
        if c == '<' {
            push_str_chars(&mut out, "\\u003c");
        } else if c == '>' {
            push_str_chars(&mut out, "\\u003e");
        } else if c == '&' {
            push_str_chars(&mut out, "\\u0026");
        } else {
            out.push(c);
        }
        i = i + 1;
    }
    proof {
        assert(v@.take(v@.len() as int) =~= v@);
    }
    string_of(&out)
}

/// The colour class of a claim node: superseded first, then contradicted,
/// then stale, else normal.
pub open spec fn kind_name(id: Seq<char>, superseded: Seq<Seq<char>>, contradicted: Seq<Seq<char>>, stale: Seq<Seq<char>>) -> Seq<char> {
    if superseded.contains(id) {
        "superseded"@
    } else if contradicted.contains(id) {
        "contradicted"@
    } else if stale.contains(id) {
        "stale"@
    } else {
        "normal"@
    }
}

/// The colour class of a claim node (see `kind_name`).
pub fn node_kind(id: &str, superseded: &Vec<String>, contradicted: &Vec<String>, stale: &Vec<String>) -> (r: &'static str)
    ensures
        r@ == kind_name(id@, texts(superseded@), texts(contradicted@), texts(stale@)),
{
    if holds_text(superseded, id) {
        "superseded"
    } else if holds_text(contradicted, id) {
        "contradicted"
    } else if holds_text(stale, id) {
        "stale"
    } else {
        "normal"
    }
}

/// Indices below `n` whose flag equals `want`, in order.
pub open spec fn indices_where(flags: Seq<bool>, want: bool, n: int) -> Seq<int>
    decreases n,
{
    if n <= 0 {
        Seq::empty()
    } else if flags[n - 1] == want {
        indices_where(flags, want, n - 1).push(n - 1)
    } else {
        indices_where(flags, want, n - 1)
    }
}

/// The claims the graph draws, by index: the flagged or connected ones first,
/// then the rest, each group in its original order, cut to the node cap (at
/// least one).
pub open spec fn node_order(priority: Seq<bool>, max_nodes: int) -> Seq<int> {
    let all = indices_where(priority, true, priority.len() as int) + indices_where(
        priority,
        false,
        priority.len() as int,
    );
    let cap = if max_nodes < 1 {
        1
    } else {
        max_nodes
    };
    if all.len() <= cap {
        all
    } else {
        all.take(cap)
    }
}

/// Indices below `v.len()` whose flag equals `want`, in order.
fn collect_indices(flags: &Vec<bool>, want: bool, out: &mut Vec<usize>)
    ensures
        final(out)@.len() == old(out)@.len() + indices_where(flags@, want, flags@.len() as int).len(),
        forall|k: int| 0 <= k < old(out)@.len() ==> final(out)@[k] == old(out)@[k],
        forall|k: int|
            0 <= k < indices_where(flags@, want, flags@.len() as int).len() ==> final(out)@[old(
                out,
            )@.len() + k] as int == indices_where(flags@, want, flags@.len() as int)[k],
{
    let ghost start = out@;
    let mut i: usize = 0;
    while i < flags.len()
        invariant
            i <= flags@.len(),
            out@.len() == start.len() + indices_where(flags@, want, i as int).len(),
            forall|k: int| 0 <= k < start.len() ==> out@[k] == start[k],
            forall|k: int|
                0 <= k < indices_where(flags@, want, i as int).len() ==> out@[start.len() + k] as int
                    == indices_where(flags@, want, i as int)[k],
        decreases flags.len() - i,
    {
        if flags[i] == want {
            out.push(i);
        }
        proof {
            let prev = indices_where(flags@, want, i as int);
            let next = indices_where(flags@, want, i + 1);
            if flags@[i as int] == want {
                assert(next == prev.push(i as int));
            } else {
                assert(next == prev);
            }
            assert forall|k: int| 0 <= k < next.len() implies out@[start.len() + k] as int == next[k] by {
                if k < prev.len() {
                } else {
                }
            }
        }
        i = i + 1;
    }
}

/// The claims the graph draws, by index (see `node_order`).
pub fn graph_node_order(priority: &Vec<bool>, max_nodes: usize) -> (r: Vec<usize>)
    ensures
        r@.len() == node_order(priority@, max_nodes as int).len(),
        forall|k: int| 0 <= k < r@.len() ==> r@[k] as int == #[trigger] node_order(priority@, max_nodes as int)[k],
{
    let mut out: Vec<usize> = Vec::new();
    collect_indices(priority, true, &mut out);
    collect_indices(priority, false, &mut out);
    let cap: usize = if max_nodes < 1 {
        1
    } else {
        max_nodes
    };
    let ghost all = indices_where(priority@, true, priority@.len() as int) + indices_where(
        priority@,
        false,
        priority@.len() as int,
    );
    proof {
        assert forall|k: int| 0 <= k < out@.len() implies out@[k] as int == all[k] by {
            let a = indices_where(priority@, true, priority@.len() as int);
            if k < a.len() {
            } else {
                assert(out@[a.len() + (k - a.len())] == out@[k]);
            }
        }
    }
    if out.len() > cap {
        out.truncate(cap);
    }
    out
}

/// Whether a claim is flagged or connected in the graph.
pub fn is_priority(
    id: &str,
    superseded: &Vec<String>,
    contradicted: &Vec<String>,
    stale: &Vec<String>,
    connected: &Vec<String>,
) -> (r: bool)
    ensures
        r == (texts(superseded@).contains(id@) || texts(contradicted@).contains(id@) || texts(
            stale@,
        ).contains(id@) || texts(connected@).contains(id@)),
{
    holds_text(superseded, id) || holds_text(contradicted, id) || holds_text(stale, id)
        || holds_text(connected, id)
}

/// A claim is superseded at time `now` when its validity ended at or before it.
pub open spec fn superseded_at(valid_until: Option<i128>, now: i128) -> bool {
    match valid_until {
        Some(u) => u <= now,
        None => false,
    }
}

/// Whether a claim is superseded at time `now` (see `superseded_at`).
pub fn is_superseded_at(valid_until: Option<i128>, now: i128) -> (r: bool)
    ensures
        r == superseded_at(valid_until, now),
{
    match valid_until {
        Some(u) => u <= now,
        None => false,
    }
}

/// Whether the first claim of a contradiction is the older one: the
/// superseded side is older when only one side is; otherwise the one that
/// became valid first (the first on a tie).
pub open spec fn first_is_older(a_superseded: bool, b_superseded: bool, a_from: i128, b_from: i128) -> bool {
    if a_superseded && !b_superseded {
        true
    } else if b_superseded && !a_superseded {
        false
    } else {
        a_from <= b_from
    }
}

/// Whether the first claim of a contradiction is the older one (see
/// `first_is_older`).
pub fn contradiction_first_is_older(a_until: Option<i128>, a_from: i128, b_until: Option<i128>, b_from: i128, now: i128) -> (r: bool)
    ensures
        r == first_is_older(superseded_at(a_until, now), superseded_at(b_until, now), a_from, b_from),
{
    let a = is_superseded_at(a_until, now);
    let b = is_superseded_at(b_until, now);
    if a && !b {
        true
    } else if b && !a {
        false
    } else {
        a_from <= b_from
    }
}

/// Script-escaped text holds no `<`, `>` or `&`: embedded JSON can neither
/// close its script block nor form markup.
pub proof fn lemma_script_escaped_is_inert(s: Seq<char>)
    ensures
        forall|k: int|
            0 <= k < script_escaped(s).len() ==> #[trigger] script_escaped(s)[k] != '<' && script_escaped(s)[k]
                != '>' && script_escaped(s)[k] != '&',
    decreases s.len(),
{
    if s.len() > 0 {
        lemma_script_escaped_is_inert(s.drop_last());
        reveal_strlit("\\u003c");
        reveal_strlit("\\u003e");
        reveal_strlit("\\u0026");
        let p = script_escaped(s.drop_last());
        let e = script_escape_char(s.last());
        assert forall|k: int| 0 <= k < script_escaped(s).len() implies #[trigger] script_escaped(s)[k] != '<'
            && script_escaped(s)[k] != '>' && script_escaped(s)[k] != '&' by {
            if k < p.len() {
                assert(script_escaped(s)[k] == p[k]);
            } else {
                assert(script_escaped(s)[k] == e[k - p.len()]);
            }
        }
    }
}


/// A claim's object as shown in the report, or `(none)`.
pub open spec fn object_or_none(c: Claim) -> Seq<char> {
    match c.object {
        Some(o) => o@,
        None => "(none)"@,
    }
}

/// The row of a contradiction: the newer claim's subject, the older object
/// struck through, the newer object, and the two short ids.
pub open spec fn contradiction_row_text(older: Claim, newer: Claim) -> Seq<char> {
    "<div class=\"row\"><div class=\"subj\">"@ + escaped(newer.subject@)
        + "</div><div class=\"pair\"><span class=\"bad\">"@ + escaped(object_or_none(older))
        + "</span> <span class=\"arrow\">\u{2192}</span> <span class=\"ok\">"@ + escaped(object_or_none(newer))
        + "</span></div><div class=\"meta\">claim "@ + escaped(first_chars(older.id@, 8)) + " \u{2192} "@
        + escaped(first_chars(newer.id@, 8)) + "</div></div>"@
}

/// The row of the contradiction `(a, b)` at time `now`, the older claim first
/// (see `first_is_older`).
pub open spec fn pair_row_text(a: Claim, b: Claim, now: i128) -> Seq<char> {
    if first_is_older(superseded_at(a.valid_until, now), superseded_at(b.valid_until, now), a.valid_from, b.valid_from) {
        contradiction_row_text(a, b)
    } else {
        contradiction_row_text(b, a)
    }
}

/// The rows of the first `n` contradictions.
pub open spec fn pair_rows(pairs: Seq<(Claim, Claim)>, now: i128, n: int) -> Seq<char>
    decreases n,
{
    if n <= 0 {
        Seq::empty()
    } else {
        pair_rows(pairs, now, n - 1) + pair_row_text(pairs[n - 1].0, pairs[n - 1].1, now)
    }
}

/// The contradictions section: its rows, or a note that there are none.
pub open spec fn contradictions_section_text(pairs: Seq<(Claim, Claim)>, now: i128) -> Seq<char> {
    if pairs.len() == 0 {
        "<p class=\"empty\">None detected.</p>"@
    } else {
        pair_rows(pairs, now, pairs.len() as int)
    }
}

/// Appends `s` HTML-escaped.
fn push_escaped(out: &mut Vec<char>, s: &str)
    ensures
        final(out)@ == old(out)@ + escaped(s@),
{
    let e = crate::verdict::html_escape(s);
    push_str_chars(out, e.as_str());
}

/// Appends a claim's object, or `(none)`, HTML-escaped.
fn push_object(out: &mut Vec<char>, c: &Claim)
    ensures
        final(out)@ == old(out)@ + escaped(object_or_none(*c)),
{
    match &c.object {
        Some(o) => push_escaped(out, o.as_str()),
        None => {
            proof {
                reveal_strlit("(none)");
            }
            push_escaped(out, "(none)")
        },
    }
}

/// Appends the row of a contradiction (see `contradiction_row_text`).
fn push_contradiction_row(out: &mut Vec<char>, older: &Claim, newer: &Claim)
    ensures
        final(out)@ == old(out)@ + contradiction_row_text(*older, *newer),
{
    push_str_chars(out, "<div class=\"row\"><div class=\"subj\">");
    push_escaped(out, newer.subject.as_str());
    push_str_chars(out, "</div><div class=\"pair\"><span class=\"bad\">");
    push_object(out, older);
    push_str_chars(out, "</span> <span class=\"arrow\">\u{2192}</span> <span class=\"ok\">");
    push_object(out, newer);
    push_str_chars(out, "</span></div><div class=\"meta\">claim ");
    let a = short_id(older.id.as_str());
    push_escaped(out, a.as_str());
    push_str_chars(out, " \u{2192} ");
    let b = short_id(newer.id.as_str());
    push_escaped(out, b.as_str());
    push_str_chars(out, "</div></div>");
    proof {
        assert(out@ =~= old(out)@ + contradiction_row_text(*older, *newer));
    }
}

/// The contradictions section of the report (see
/// `contradictions_section_text`).
pub fn contradictions_section(pairs: &Vec<(Claim, Claim)>, now: i128) -> (r: String)
    ensures
        r@ == contradictions_section_text(pairs@, now),
{
    if pairs.len() == 0 {
        return "<p class=\"empty\">None detected.</p>".to_string();
    }
    let mut out: Vec<char> = Vec::new();
    let mut i: usize = 0;
    while i < pairs.len()
        invariant
            i <= pairs@.len(),
            out@ == pair_rows(pairs@, now, i as int),
        decreases pairs.len() - i,
    {
        let a = &pairs[i].0;
        let b = &pairs[i].1;
        if contradiction_first_is_older(a.valid_until, a.valid_from, b.valid_until, b.valid_from, now) {
            push_contradiction_row(&mut out, a, b);
        } else {
            push_contradiction_row(&mut out, b, a);
        }
        i = i + 1;
    }
    string_of(&out)
}

/// The row of a stale claim: its short id and the reason.
pub open spec fn stale_row_text(id: Seq<char>, reason: Seq<char>) -> Seq<char> {
    "<div class=\"row\"><div class=\"meta\">claim "@ + escaped(first_chars(id, 8))
        + "</div><div class=\"reason\">"@ + escaped(reason) + "</div></div>"@
}

/// The rows of the first `n` stale claims.
pub open spec fn stale_rows(stale: Seq<(String, String)>, n: int) -> Seq<char>
    decreases n,
{
    if n <= 0 {
        Seq::empty()
    } else {
        stale_rows(stale, n - 1) + stale_row_text(stale[n - 1].0@, stale[n - 1].1@)
    }
}

/// The stale section: its rows, or a note that there are none.
pub open spec fn stale_section_text(stale: Seq<(String, String)>) -> Seq<char> {
    if stale.len() == 0 {
        "<p class=\"empty\">None.</p>"@
    } else {
        stale_rows(stale, stale.len() as int)
    }
}

/// The stale section of the report (see `stale_section_text`).
pub fn stale_section(stale: &Vec<(String, String)>) -> (r: String)
    ensures
        r@ == stale_section_text(stale@),
{
    if stale.len() == 0 {
        return "<p class=\"empty\">None.</p>".to_string();
    }
    let mut out: Vec<char> = Vec::new();
    let mut i: usize = 0;
    while i < stale.len()
        invariant
            i <= stale@.len(),
            out@ == stale_rows(stale@, i as int),
        decreases stale.len() - i,
    {
        let ghost before = out@;
        push_str_chars(&mut out, "<div class=\"row\"><div class=\"meta\">claim ");
        let short = short_id(stale[i].0.as_str());
        push_escaped(&mut out, short.as_str());
        push_str_chars(&mut out, "</div><div class=\"reason\">");
        push_escaped(&mut out, stale[i].1.as_str());
        push_str_chars(&mut out, "</div></div>");
        proof {
            assert(out@ =~= before + stale_row_text(stale@[i as int].0@, stale@[i as int].1@));
        }
        i = i + 1;
    }
    string_of(&out)
}

/// The world-map section: the map, escaped, when it holds more than
/// whitespace; otherwise a hint to generate it.
pub open spec fn world_map_section_text(world_map: Option<Seq<char>>) -> Seq<char> {
    match world_map {
        Some(t) if trim(t).len() > 0 => "<pre class=\"worldmap\">"@ + escaped(t) + "</pre>"@,
        _ => "<p class=\"empty\">No world_map.md yet. Run <code>memora challenge</code> to generate one.</p>"@,
    }
}

/// The world-map section of the report (see `world_map_section_text`).
pub fn world_map_section(world_map: Option<&str>) -> (r: String)
    ensures
        r@ == world_map_section_text(match world_map {
            Some(t) => Some(t@),
            None => None,
        }),
{
    if let Some(t) = world_map {
        let trimmed = crate::entailment::trimmed(t);
        if !trimmed.as_str().is_empty() {
            let mut out: Vec<char> = Vec::new();
            push_str_chars(&mut out, "<pre class=\"worldmap\">");
            push_escaped(&mut out, t);
            push_str_chars(&mut out, "</pre>");
            proof {
                assert(out@ =~= "<pre class=\"worldmap\">"@ + escaped(t@) + "</pre>"@);
            }
            return string_of(&out);
        }
    }
    "<p class=\"empty\">No world_map.md yet. Run <code>memora challenge</code> to generate one.</p>".to_string()
}


/// The canvas and legend of the claim graph.
pub open spec fn graph_block_text() -> Seq<char> {
    "<div class=\"graph-wrap\"><canvas id=\"graph-canvas\"></canvas><div id=\"detail\" class=\"detail hidden\"></div></div><div class=\"legend\"><span class=\"lg normal\">claim</span><span class=\"lg contradicted\">contradicted</span><span class=\"lg superseded\">superseded</span><span class=\"lg stale\">stale</span><span class=\"lg edge-derives\">derives</span><span class=\"lg edge-contradicts\">contradicts</span></div>"@
}

/// The graph section for `shown` drawn claims out of `total`: a hint when
/// nothing is drawn; otherwise a note when some are left out, then the graph.
pub open spec fn graph_section_text(shown: nat, total: nat) -> Seq<char> {
    if shown == 0 {
        "<p class=\"empty\">No claims indexed yet. Run <code>memora index</code> first.</p>"@
    } else if total > shown {
        "<p class=\"note\">Showing "@ + decimal(shown) + " of "@ + decimal(total)
            + " claims (most connected first).</p>"@ + graph_block_text()
    } else {
        graph_block_text()
    }
}

/// The graph section of the report (see `graph_section_text`).
pub fn graph_section(shown: usize, total: usize) -> (r: String)
    ensures
        r@ == graph_section_text(shown as nat, total as nat),
{
    if shown == 0 {
        return "<p class=\"empty\">No claims indexed yet. Run <code>memora index</code> first.</p>".to_string();
    }
    let mut out: Vec<char> = Vec::new();
    if total > shown {
        push_str_chars(&mut out, "<p class=\"note\">Showing ");
        let mut a = usize_decimal(shown);
        out.append(&mut a);
        push_str_chars(&mut out, " of ");
        let mut b = usize_decimal(total);
        out.append(&mut b);
        push_str_chars(&mut out, " claims (most connected first).</p>");
    }
    let ghost before = out@;
    push_str_chars(
        &mut out,
        "<div class=\"graph-wrap\"><canvas id=\"graph-canvas\"></canvas><div id=\"detail\" class=\"detail hidden\"></div></div><div class=\"legend\"><span class=\"lg normal\">claim</span><span class=\"lg contradicted\">contradicted</span><span class=\"lg superseded\">superseded</span><span class=\"lg stale\">stale</span><span class=\"lg edge-derives\">derives</span><span class=\"lg edge-contradicts\">contradicts</span></div>",
    );
    proof {
        assert(out@ =~= before + graph_block_text());
        assert(out@ =~= graph_section_text(shown as nat, total as nat));
    }
    string_of(&out)
}

/// What the report page shows. `graph_json` is the claim graph already
/// written as JSON; `graph_nodes` of `graph_total_claims` claims are drawn.
#[derive(Debug, Clone)]
pub struct ReportData {
    pub vault: String,
    pub generated: String,
    pub n_claims: usize,
    pub n_notes: usize,
    pub n_regions: usize,
    pub n_contradictions: usize,
    pub n_stale: usize,
    pub n_superseded: usize,
    pub now: i128,
    pub graph_json: String,
    pub graph_nodes: usize,
    pub graph_total_claims: usize,
    pub contradictions: Vec<(Claim, Claim)>,
    pub stale: Vec<(String, String)>,
    pub world_map: Option<String>,
}

/// The world map as text, if there is one.
pub open spec fn world_map_view(w: Option<String>) -> Option<Seq<char>> {
    match w {
        Some(t) => Some(t@),
        None => None,
    }
}

/// The head of the page, up to the vault name in the title bar.
pub open spec fn page_head_text(d: ReportData) -> Seq<char> {
    "<!DOCTYPE html>\n<html lang=\"en\"><head>\n<meta charset=\"UTF-8\">\n<meta name=\"viewport\" content=\"width=device-width, initial-scale=1.0\">\n<title>memora report \u{2014} "@
        + escaped(d.vault@) + "</title>\n<style>"@ + crate::report_assets::REPORT_CSS@
        + "</style>\n</head><body>\n<header class=\"top\"><div class=\"brand\"><span class=\"dot\"></span>memora <span class=\"sub\">report</span></div><div class=\"vault\">"@
        + escaped(d.vault@) + "</div></header>\n"@
}

/// One counter: its opening markup, the number, its closing markup.
pub open spec fn stat_text(open: Seq<char>, n: usize, close: Seq<char>) -> Seq<char> {
    open + decimal(n as nat) + close
}

/// The row of counters.
pub open spec fn page_stats_text(d: ReportData) -> Seq<char> {
    stat_text("<section class=\"stats\"><div class=\"stat\"><b>"@, d.n_claims, "</b><span>claims</span></div>"@)
        + stat_text("<div class=\"stat\"><b>"@, d.n_notes, "</b><span>notes</span></div>"@)
        + stat_text("<div class=\"stat\"><b>"@, d.n_regions, "</b><span>regions</span></div>"@)
        + stat_text("<div class=\"stat bad\"><b>"@, d.n_contradictions, "</b><span>contradictions</span></div>"@)
        + stat_text("<div class=\"stat warn\"><b>"@, d.n_superseded, "</b><span>superseded</span></div>"@)
        + stat_text(
        "<div class=\"stat violet\"><b>"@,
        d.n_stale,
        "</b><span>stale</span></div></section>\n"@,
    )
}

/// The sections, the footer and the scripts.
pub open spec fn page_body_text(d: ReportData) -> Seq<char> {
    "<section><h2>Claim graph</h2>"@ + graph_section_text(d.graph_nodes as nat, d.graph_total_claims as nat)
        + "</section>\n<section><h2>Contradictions &amp; supersessions</h2>"@
        + contradictions_section_text(d.contradictions@, d.now)
        + "</section>\n<section><h2>Stale dependencies</h2>"@ + stale_section_text(d.stale@)
        + "</section>\n<section><h2>World map</h2>"@ + world_map_section_text(world_map_view(d.world_map))
        + "</section>\n<footer>Generated "@ + escaped(d.generated@)
        + " \u{b7} provenance hash-proven \u{b7} this file is fully offline.</footer>\n<script id=\"graph-data\" type=\"application/json\">"@
        + script_escaped(d.graph_json@) + "</script>\n<script>"@ + crate::report_assets::REPORT_JS@
        + "</script>\n</body></html>\n"@
}

/// The report page: one self-contained HTML file.
pub open spec fn report_page_text(d: ReportData) -> Seq<char> {
    page_head_text(d) + page_stats_text(d) + page_body_text(d)
}

/// Appends a counter of the stats row.
fn push_stat(out: &mut Vec<char>, open: &str, n: usize, close: &str)
    ensures
        final(out)@ == old(out)@ + stat_text(open@, n, close@),
{
    push_str_chars(out, open);
    let mut d = usize_decimal(n);
    out.append(&mut d);
    push_str_chars(out, close);
    proof {
        assert(out@ =~= old(out)@ + stat_text(open@, n, close@));
    }
}

fn push_page_head(out: &mut Vec<char>, d: &ReportData)
    ensures
        final(out)@ == old(out)@ + page_head_text(*d),
{
    push_str_chars(
        out,
        "<!DOCTYPE html>\n<html lang=\"en\"><head>\n<meta charset=\"UTF-8\">\n<meta name=\"viewport\" content=\"width=device-width, initial-scale=1.0\">\n<title>memora report \u{2014} ",
    );
    push_escaped(out, d.vault.as_str());
    push_str_chars(out, "</title>\n<style>");
    push_str_chars(out, crate::report_assets::REPORT_CSS);
    push_str_chars(
        out,
        "</style>\n</head><body>\n<header class=\"top\"><div class=\"brand\"><span class=\"dot\"></span>memora <span class=\"sub\">report</span></div><div class=\"vault\">",
    );
    push_escaped(out, d.vault.as_str());
    push_str_chars(out, "</div></header>\n");
    proof {
        assert(out@ =~= old(out)@ + page_head_text(*d));
    }
}

fn push_page_stats(out: &mut Vec<char>, d: &ReportData)
    ensures
        final(out)@ == old(out)@ + page_stats_text(*d),
{
    push_stat(out, "<section class=\"stats\"><div class=\"stat\"><b>", d.n_claims, "</b><span>claims</span></div>");
    push_stat(out, "<div class=\"stat\"><b>", d.n_notes, "</b><span>notes</span></div>");
    push_stat(out, "<div class=\"stat\"><b>", d.n_regions, "</b><span>regions</span></div>");
    push_stat(out, "<div class=\"stat bad\"><b>", d.n_contradictions, "</b><span>contradictions</span></div>");
    push_stat(out, "<div class=\"stat warn\"><b>", d.n_superseded, "</b><span>superseded</span></div>");
    push_stat(out, "<div class=\"stat violet\"><b>", d.n_stale, "</b><span>stale</span></div></section>\n");
    proof {
        assert(out@ =~= old(out)@ + page_stats_text(*d));
    }
}

fn push_page_body(out: &mut Vec<char>, d: &ReportData)
    ensures
        final(out)@ == old(out)@ + page_body_text(*d),
{
    push_str_chars(out, "<section><h2>Claim graph</h2>");
    let g = graph_section(d.graph_nodes, d.graph_total_claims);
    push_str_chars(out, g.as_str());
    push_str_chars(out, "</section>\n<section><h2>Contradictions &amp; supersessions</h2>");
    let c = contradictions_section(&d.contradictions, d.now);
    push_str_chars(out, c.as_str());
    push_str_chars(out, "</section>\n<section><h2>Stale dependencies</h2>");
    let st = stale_section(&d.stale);
    push_str_chars(out, st.as_str());
    push_str_chars(out, "</section>\n<section><h2>World map</h2>");
    let w = match &d.world_map {
        Some(t) => world_map_section(Some(t.as_str())),
        None => world_map_section(None),
    };
    push_str_chars(out, w.as_str());
    push_str_chars(out, "</section>\n<footer>Generated ");
    push_escaped(out, d.generated.as_str());
    push_str_chars(
        out,
        " \u{b7} provenance hash-proven \u{b7} this file is fully offline.</footer>\n<script id=\"graph-data\" type=\"application/json\">",
    );
    let j = json_for_script(d.graph_json.as_str());
    push_str_chars(out, j.as_str());
    push_str_chars(out, "</script>\n<script>");
    push_str_chars(out, crate::report_assets::REPORT_JS);
    push_str_chars(out, "</script>\n</body></html>\n");
    proof {
        assert(out@ =~= old(out)@ + page_body_text(*d));
    }
}

/// The report page (see `report_page_text`).
pub fn render_report_page(d: &ReportData) -> (r: String)
    ensures
        r@ == report_page_text(*d),
{
    let mut out: Vec<char> = Vec::new();
    push_page_head(&mut out, d);
    push_page_stats(&mut out, d);
    push_page_body(&mut out, d);
    proof {
        assert(out@ =~= report_page_text(*d));
    }
    string_of(&out)
}


/// The texts of pairs of strings.
pub open spec fn text_pairs(pairs: Seq<(String, String)>) -> Seq<(Seq<char>, Seq<char>)> {
    pairs.map_values(|p: (String, String)| (p.0@, p.1@))
}

/// The pairs among the first `n` whose two ends are both in `nodes`, in order.
pub open spec fn pairs_within(pairs: Seq<(Seq<char>, Seq<char>)>, nodes: Seq<Seq<char>>, n: int) -> Seq<(Seq<char>, Seq<char>)>
    decreases n,
{
    if n <= 0 {
        Seq::empty()
    } else {
        let prev = pairs_within(pairs, nodes, n - 1);
        let p = pairs[n - 1];
        if nodes.contains(p.0) && nodes.contains(p.1) {
            prev.push(p)
        } else {
            prev
        }
    }
}

/// The edges of the graph drawn between the given nodes: the pairs whose
/// two ends are both among them, in order (see `pairs_within`).
pub fn edges_within(pairs: &Vec<(String, String)>, nodes: &Vec<String>) -> (r: Vec<(String, String)>)
    ensures
        text_pairs(r@) == pairs_within(text_pairs(pairs@), texts(nodes@), pairs@.len() as int),
{
    let mut out: Vec<(String, String)> = Vec::new();
    let mut i: usize = 0;
    while i < pairs.len()
        invariant
            i <= pairs@.len(),
            text_pairs(out@) == pairs_within(text_pairs(pairs@), texts(nodes@), i as int),
        decreases pairs.len() - i,
    {
        let a = holds_text(nodes, pairs[i].0.as_str());
        let b = holds_text(nodes, pairs[i].1.as_str());
        let ghost before = out@;
        if a && b {
            out.push((pairs[i].0.clone(), pairs[i].1.clone()));
            proof {
                assert(text_pairs(out@) =~= text_pairs(before).push(text_pairs(pairs@)[i as int]));
            }
        }
        i = i + 1;
    }
    out
}

} // verus!
