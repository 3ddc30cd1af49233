//! The world map: one line per region with its description and counts, an
//! overview, and today's review.
use vstd::prelude::*;
use crate::claims::{decimal, push_str_chars, usize_decimal};
use crate::order::texts;
use crate::text::{str_eq, string_of, trim, chars_of, trim_bounds};
use crate::challenge_report::comma_joined;

verus! {

/// Counts shown for one region.
#[derive(Debug, Clone, Copy, PartialEq, Eq, Structural)]
pub struct RegionStats {
    pub notes_count: usize,
    pub claim_count: usize,
    pub decision_count: usize,
    pub stale_count: usize,
}

/// The description of a region too small or too generic to describe.
pub open spec fn generic_region_description() -> Seq<char> {
    "General notes (uncategorized)"@
}

/// The overview of a vault with too few claims to summarise.
pub open spec fn early_stages_overview() -> Seq<char> {
    "Vault is in early stages. Add more notes for synthesis to be meaningful."@
}

/// Whether a region gets a model-written description: it has at least three
/// current claims and is not the `default` region.
pub fn region_needs_description(stats: &RegionStats, region: &str) -> (r: bool)
    ensures
        r == !(stats.claim_count < 3 || region@ == "default"@),
{
    !(stats.claim_count < 3 || str_eq(region, "default"))
}

/// The description used when no model is asked.
pub fn generic_description() -> (r: String)
    ensures
        r@ == generic_region_description(),
{
    "General notes (uncategorized)".to_string()
}

/// Whether the vault gets a model-written overview: at least ten claims.
pub fn overview_needs_model(total_claims: usize) -> (r: bool)
    ensures
        r == (total_claims >= 10),
{
    total_claims >= 10
}

/// The overview used when no model is asked.
pub fn early_stages() -> (r: String)
    ensures
        r@ == early_stages_overview(),
{
    "Vault is in early stages. Add more notes for synthesis to be meaningful.".to_string()
}

/// Sum of the claim counts of the first `n` regions.
pub open spec fn claims_total(stats: Seq<RegionStats>, n: int) -> nat
    decreases n,
{
    if n <= 0 {
        0
    } else {
        claims_total(stats, n - 1) + stats[n - 1].claim_count as nat
    }
}

/// Total current claims over the regions.
pub fn total_claims(stats: &Vec<RegionStats>) -> (r: usize)
    requires
        claims_total(stats@, stats@.len() as int) <= usize::MAX,
    ensures
        r == claims_total(stats@, stats@.len() as int),
{
    let mut t: usize = 0;
    let mut i: usize = 0;
    while i < stats.len()
        invariant
            i <= stats@.len(),
            t == claims_total(stats@, i as int),
            claims_total(stats@, stats@.len() as int) <= usize::MAX,
        decreases stats.len() - i,
    {
        proof {
            lemma_claims_total_mono(stats@, i + 1, stats@.len() as int);
        }
        t = t + stats[i].claim_count;
        i = i + 1;
    }
    t
}

proof fn lemma_claims_total_mono(stats: Seq<RegionStats>, a: int, b: int)
    requires
        a <= b,
    ensures
        claims_total(stats, a) <= claims_total(stats, b),
    decreases b - a,
{
    if a < b {
        lemma_claims_total_mono(stats, a, b - 1);
    }
}

/// The request for a region's description.
pub open spec fn region_request_text(region: Seq<char>, subjects: Seq<Seq<char>>) -> Seq<char> {
    "Region: "@ + region + "\nSample subjects: "@ + comma_joined(subjects, subjects.len() as int)
}

/// The request for a region's description.
pub fn region_request(region: &str, subjects: &Vec<String>) -> (r: String)
    ensures
        r@ == region_request_text(region@, texts(subjects@)),
{
    let mut out: Vec<char> = Vec::new();
    push_str_chars(&mut out, "Region: ");
    push_str_chars(&mut out, region);
    push_str_chars(&mut out, "\nSample subjects: ");
    let ghost start = out@;
    let mut i: usize = 0;
    while i < subjects.len()
        invariant
            i <= subjects@.len(),
            out@ == start + comma_joined(texts(subjects@), i as int),
        decreases subjects.len() - i,
    {
        if i > 0 {
            push_str_chars(&mut out, ", ");
        }
        push_str_chars(&mut out, subjects[i].as_str());
        proof {
            assert(texts(subjects@)[i as int] == subjects@[i as int]@);
        }
        i = i + 1;
    }
    string_of(&out)
}

/// A model reply as one line: trimmed, line breaks turned into spaces.
pub open spec fn one_line_reply_text(s: Seq<char>) -> Seq<char> {
    trim(s).map_values(|c: char| if c == '\n' { ' ' } else { c })
}

/// A model reply as one line (see `one_line_reply_text`).
pub fn one_line_reply(s: &str) -> (r: String)
    ensures
        r@ == one_line_reply_text(s@),
{
    let v = chars_of(s);
    let (a, b) = trim_bounds(&v, 0, v.len());
    proof {
        assert(v@.subrange(0, v@.len() as int) =~= v@);
    }
    let mut out: Vec<char> = Vec::new();
    let mut i = a;
    while i < b
        invariant
            a <= i <= b <= v@.len(),
            v@ == s@,
            v@.subrange(a as int, b as int) == trim(s@),
            out@ == v@.subrange(a as int, i as int).map_values(|c: char| if c == '\n' { ' ' } else { c }),
        decreases b - i,
    {
        let c = v[i];
        out.push(if c == '\n' { ' ' } else { c });
        proof {
            assert(v@.subrange(a as int, i + 1) =~= v@.subrange(a as int, i as int).push(c));
            assert(out@ =~= v@.subrange(a as int, i + 1).map_values(|c: char| if c == '\n' { ' ' } else { c }));
        }
        i = i + 1;
    }
    string_of(&out)
}

/// One region as listed in the world map.
#[derive(Debug, Clone)]
pub struct RegionEntry {
    pub region: String,
    pub description: String,
    pub stats: RegionStats,
}

/// The line of a region in the request for the overview.
pub open spec fn overview_line(e: RegionEntry) -> Seq<char> {
    "- "@ + e.region@ + ": "@ + e.description@ + " (notes="@ + decimal(e.stats.notes_count as nat)
        + ", claims="@ + decimal(e.stats.claim_count as nat) + ", decisions="@ + decimal(
        e.stats.decision_count as nat,
    ) + ", stale="@ + decimal(e.stats.stale_count as nat) + ")"@
}

/// The lines of the first `n` regions, joined by line breaks.
pub open spec fn overview_lines(es: Seq<RegionEntry>, n: int) -> Seq<char>
    decreases n,
{
    if n <= 0 {
        Seq::empty()
    } else if n == 1 {
        overview_line(es[0])
    } else {
        overview_lines(es, n - 1) + "\n"@ + overview_line(es[n - 1])
    }
}

/// Appends the decimal form of `n`.
fn push_number(out: &mut Vec<char>, n: usize)
    ensures
        final(out)@ == old(out)@ + decimal(n as nat),
{
    let mut d = usize_decimal(n);
    out.append(&mut d);
}

/// The request for the vault overview: one line per region.
pub fn overview_request(entries: &Vec<RegionEntry>) -> (r: String)
    ensures
        r@ == overview_lines(entries@, entries@.len() as int),
{
    let mut out: Vec<char> = Vec::new();
    let mut i: usize = 0;
    while i < entries.len()
        invariant
            i <= entries@.len(),
            out@ == overview_lines(entries@, i as int),
        decreases entries.len() - i,
    {
        let ghost before = out@;
        if i > 0 {
            push_str_chars(&mut out, "\n");
        }
        let e = &entries[i];
        push_str_chars(&mut out, "- ");
        push_str_chars(&mut out, e.region.as_str());
        push_str_chars(&mut out, ": ");
        push_str_chars(&mut out, e.description.as_str());
        push_str_chars(&mut out, " (notes=");
        push_number(&mut out, e.stats.notes_count);
        push_str_chars(&mut out, ", claims=");
        push_number(&mut out, e.stats.claim_count);
        push_str_chars(&mut out, ", decisions=");
        push_number(&mut out, e.stats.decision_count);
        push_str_chars(&mut out, ", stale=");
        push_number(&mut out, e.stats.stale_count);
        push_str_chars(&mut out, ")");
        proof {
            if i == 0 {
                assert(out@ =~= overview_line(entries@[0]));
            } else {
                assert(out@ =~= before + "\n"@ + overview_line(entries@[i as int]));
            }
        }
        i = i + 1;
    }
    string_of(&out)
}

/// The line of a region in the world map.
pub open spec fn region_line(e: RegionEntry) -> Seq<char> {
    "- **"@ + e.region@ + "** \u{2014} "@ + e.description@ + " ("@ + decimal(e.stats.notes_count as nat)
        + " notes, "@ + decimal(e.stats.claim_count as nat) + " claims, "@ + decimal(
        e.stats.decision_count as nat,
    ) + " decisions, "@ + decimal(e.stats.stale_count as nat) + " stale)\n"@
}

/// The lines of the first `n` regions.
pub open spec fn region_lines(es: Seq<RegionEntry>, n: int) -> Seq<char>
    decreases n,
{
    if n <= 0 {
        Seq::empty()
    } else {
        region_lines(es, n - 1) + region_line(es[n - 1])
    }
}

/// The review items as list lines.
pub open spec fn review_items(items: Seq<Seq<char>>, n: int) -> Seq<char>
    decreases n,
{
    if n <= 0 {
        Seq::empty()
    } else {
        review_items(items, n - 1) + "- "@ + items[n - 1] + "\n"@
    }
}

/// The whole world map: title, overview, regions, and today's review under
/// the given date.
pub open spec fn world_map_text(overview: Seq<char>, entries: Seq<RegionEntry>, date: Seq<char>, review: Seq<Seq<char>>) -> Seq<char> {
    "# World Map\n\n"@ + "_"@ + overview + "_\n\n## Regions\n"@ + region_lines(
        entries,
        entries.len() as int,
    ) + "\n## Today's review (auto-"@ + date + ")\n"@ + (if review.len() == 0 {
        "- none\n"@
    } else {
        review_items(review, review.len() as int)
    })
}

/// The whole world map (see `world_map_text`).
pub fn world_map_markdown(overview: &str, entries: &Vec<RegionEntry>, date: &str, review: &Vec<String>) -> (r: String)
    ensures
        r@ == world_map_text(overview@, entries@, date@, texts(review@)),
{
    let mut out: Vec<char> = Vec::new();
    push_str_chars(&mut out, "# World Map\n\n");
    push_str_chars(&mut out, "_");
    push_str_chars(&mut out, overview);
    push_str_chars(&mut out, "_\n\n## Regions\n");
    let ghost head = out@;
    let mut i: usize = 0;
    while i < entries.len()
        invariant
            i <= entries@.len(),
            out@ == head + region_lines(entries@, i as int),
        decreases entries.len() - i,
    {
        let ghost before = out@;
        let e = &entries[i];
        push_str_chars(&mut out, "- **");
        push_str_chars(&mut out, e.region.as_str());
        push_str_chars(&mut out, "** \u{2014} ");
        push_str_chars(&mut out, e.description.as_str());
        push_str_chars(&mut out, " (");
        push_number(&mut out, e.stats.notes_count);
        push_str_chars(&mut out, " notes, ");
        push_number(&mut out, e.stats.claim_count);
        push_str_chars(&mut out, " claims, ");
        push_number(&mut out, e.stats.decision_count);
        push_str_chars(&mut out, " decisions, ");
        push_number(&mut out, e.stats.stale_count);
        push_str_chars(&mut out, " stale)\n");
        proof {
            assert(out@ =~= before + region_line(entries@[i as int]));
        }
        i = i + 1;
    }
    push_str_chars(&mut out, "\n## Today's review (auto-");
    push_str_chars(&mut out, date);
    push_str_chars(&mut out, ")\n");
    let ghost mid = out@;
    if review.len() == 0 {
        push_str_chars(&mut out, "- none\n");
    } else {
        let mut k: usize = 0;
        while k < review.len()
            invariant
                k <= review@.len(),
                out@ == mid + review_items(texts(review@), k as int),
            decreases review.len() - k,
        {
            push_str_chars(&mut out, "- ");
            push_str_chars(&mut out, review[k].as_str());
            push_str_chars(&mut out, "\n");
            proof {
                assert(texts(review@)[k as int] == review@[k as int]@);
            }
            k = k + 1;
        }
    }
    proof {
        assert(out@ =~= world_map_text(overview@, entries@, date@, texts(review@)));
    }
    string_of(&out)
}

} // verus!
