//! The challenger's report and the "Today's review" section it writes into
//! the world map.
use vstd::prelude::*;
use std::fmt::Write;
use crate::claims::push_str_chars;
use crate::order::texts;
use crate::text::{chars_of, has_prefix, has_suffix, ends_with, seq_at, string_of, string_of_range, matches_at};
use crate::ingest::{lines_of, line_bounds, joined_lines};

verus! {

/// A claim whose sources changed, with the model's proposal for it.
#[derive(Debug, Clone)]
pub struct StaleAlert {
    pub claim_id: String,
    pub source_note_id: String,
    pub description: String,
    pub proposal_action: String,
    pub proposal_subject: Option<String>,
    pub proposal_predicate: Option<String>,
    pub proposal_object: Option<String>,
    /// Seconds since the Unix epoch.
    pub generated_at: i64,
}

/// Two claims the model judged contradictory.
#[derive(Debug, Clone)]
pub struct ContradictionAlert {
    pub left_claim_id: String,
    pub right_claim_id: String,
    pub left_source_note_id: String,
    pub right_source_note_id: String,
    pub description: String,
    pub generated_at: i64,
}

/// A subject discussed in several regions.
#[derive(Debug, Clone)]
pub struct CrossRegionAlert {
    pub subject: String,
    pub regions: Vec<String>,
    pub source_note_ids: Vec<String>,
    pub description: String,
    pub suggested_home_note_id: String,
    pub generated_at: i64,
}

/// A weakly supported claim worth a clarifying question.
#[derive(Debug, Clone)]
pub struct FrontierAlert {
    pub claim_id: String,
    pub source_note_id: String,
    pub description: String,
    /// Model confidence, in millionths.
    pub confidence_millionths: u32,
    pub predicate_occurrences: usize,
    pub clarifying_question: String,
    pub generated_at: i64,
}

/// One challenger pass.
#[derive(Debug, Clone)]
pub struct ChallengerReport {
    pub generated_at: i64,
    pub stale_alerts: Vec<StaleAlert>,
    pub contradiction_alerts: Vec<ContradictionAlert>,
    pub cross_region_alerts: Vec<CrossRegionAlert>,
    pub frontier_alerts: Vec<FrontierAlert>,
}

/// The first `n` items joined by `, `.
pub open spec fn comma_joined(ls: Seq<Seq<char>>, n: int) -> Seq<char>
    decreases n,
{
    if n <= 0 {
        Seq::empty()
    } else if n == 1 {
        ls[0]
    } else {
        comma_joined(ls, n - 1) + ", "@ + ls[n - 1]
    }
}

/// The line of a stale claim.
pub open spec fn stale_alert_line(a: StaleAlert) -> Seq<char> {
    "- ["@ + a.claim_id@ + "] "@ + a.description@ + " ("@ + a.source_note_id@ + ")\n"@
}

/// The line of a contradiction.
pub open spec fn contradiction_alert_line(a: ContradictionAlert) -> Seq<char> {
    "- ["@ + a.left_claim_id@ + " vs "@ + a.right_claim_id@ + "] "@ + a.description@ + "\n"@
}

/// The line of a cross-region pattern.
pub open spec fn cross_region_alert_line(a: CrossRegionAlert) -> Seq<char> {
    "- ["@ + a.subject@ + "] "@ + a.description@ + " (regions: "@ + comma_joined(
        texts(a.regions@),
        a.regions@.len() as int,
    ) + ")\n"@
}

/// The line of a frontier gap.
pub open spec fn frontier_alert_line(a: FrontierAlert) -> Seq<char> {
    "- ["@ + a.claim_id@ + "] "@ + a.description@ + " Question: "@ + a.clarifying_question@ + "\n"@
}

/// The lines of the first `n` stale alerts.
pub open spec fn stale_block(s: Seq<StaleAlert>, n: int) -> Seq<char>
    decreases n,
{
    if n <= 0 {
        Seq::empty()
    } else {
        stale_block(s, n - 1) + stale_alert_line(s[n - 1])
    }
}

/// The lines of the first `n` contradiction alerts.
pub open spec fn contradiction_block(s: Seq<ContradictionAlert>, n: int) -> Seq<char>
    decreases n,
{
    if n <= 0 {
        Seq::empty()
    } else {
        contradiction_block(s, n - 1) + contradiction_alert_line(s[n - 1])
    }
}

/// The lines of the first `n` cross-region alerts.
pub open spec fn cross_region_block(s: Seq<CrossRegionAlert>, n: int) -> Seq<char>
    decreases n,
{
    if n <= 0 {
        Seq::empty()
    } else {
        cross_region_block(s, n - 1) + cross_region_alert_line(s[n - 1])
    }
}

/// The lines of the first `n` frontier alerts.
pub open spec fn frontier_block(s: Seq<FrontierAlert>, n: int) -> Seq<char>
    decreases n,
{
    if n <= 0 {
        Seq::empty()
    } else {
        frontier_block(s, n - 1) + frontier_alert_line(s[n - 1])
    }
}

/// A list's lines, or `- none` when it is empty.
pub open spec fn or_none(count: nat, lines: Seq<char>) -> Seq<char> {
    if count == 0 {
        "- none\n"@
    } else {
        lines
    }
}

/// The "Today's review" section for a report, given its date (`YYYY-MM-DD`)
/// and its RFC 3339 time stamp.
pub open spec fn review_section(r: ChallengerReport, date: Seq<char>, stamp: Seq<char>) -> Seq<char> {
    "## Today's review (auto-"@ + date + ")\n"@ + "_generated at "@ + stamp + "_\n\n"@
        + "### Stale claims\n"@ + or_none(
        r.stale_alerts@.len(),
        stale_block(r.stale_alerts@, r.stale_alerts@.len() as int),
    ) + "\n### Contradictions\n"@ + or_none(
        r.contradiction_alerts@.len(),
        contradiction_block(r.contradiction_alerts@, r.contradiction_alerts@.len() as int),
    ) + "\n### Cross-region patterns\n"@ + or_none(
        r.cross_region_alerts@.len(),
        cross_region_block(r.cross_region_alerts@, r.cross_region_alerts@.len() as int),
    ) + "\n### Frontier gaps\n"@ + or_none(
        r.frontier_alerts@.len(),
        frontier_block(r.frontier_alerts@, r.frontier_alerts@.len() as int),
    ) + "\n"@
}

/// Appends the items joined by `, `.
fn push_comma_joined(out: &mut Vec<char>, ls: &Vec<String>)
    ensures
        final(out)@ == old(out)@ + comma_joined(texts(ls@), ls@.len() as int),
{
    let ghost start = out@;
    let mut i: usize = 0;
    while i < ls.len()
        invariant
            i <= ls@.len(),
            out@ == start + comma_joined(texts(ls@), i as int),
        decreases ls.len() - i,
    {
        if i > 0 {
            push_str_chars(out, ", ");
        }
        push_str_chars(out, ls[i].as_str());
        proof {
            assert(texts(ls@)[i as int] == ls@[i as int]@);
        }
        i = i + 1;
    }
}

/// Appends the stale lines.
fn push_stale_alerts(out: &mut Vec<char>, s: &Vec<StaleAlert>)
    ensures
        final(out)@ == old(out)@ + stale_block(s@, s@.len() as int),
{
    let ghost start = out@;
    let mut i: usize = 0;
    while i < s.len()
        invariant
            i <= s@.len(),
            out@ == start + stale_block(s@, i as int),
        decreases s.len() - i,
    {
        let a = &s[i];
        push_str_chars(out, "- [");
        push_str_chars(out, a.claim_id.as_str());
        push_str_chars(out, "] ");
        push_str_chars(out, a.description.as_str());
        push_str_chars(out, " (");
        push_str_chars(out, a.source_note_id.as_str());
        push_str_chars(out, ")\n");
        proof {
            assert(out@ =~= start + stale_block(s@, i as int) + stale_alert_line(s@[i as int]));
        }
        i = i + 1;
    }
}

/// Appends the contradiction lines.
fn push_contradiction_alerts(out: &mut Vec<char>, s: &Vec<ContradictionAlert>)
    ensures
        final(out)@ == old(out)@ + contradiction_block(s@, s@.len() as int),
{
    let ghost start = out@;
    let mut i: usize = 0;
    while i < s.len()
        invariant
            i <= s@.len(),
            out@ == start + contradiction_block(s@, i as int),
        decreases s.len() - i,
    {
        let a = &s[i];
        push_str_chars(out, "- [");
        push_str_chars(out, a.left_claim_id.as_str());
        push_str_chars(out, " vs ");
        push_str_chars(out, a.right_claim_id.as_str());
        push_str_chars(out, "] ");
        push_str_chars(out, a.description.as_str());
        push_str_chars(out, "\n");
        proof {
            assert(out@ =~= start + contradiction_block(s@, i as int) + contradiction_alert_line(
                s@[i as int],
            ));
        }
        i = i + 1;
    }
}

/// Appends the cross-region lines.
fn push_cross_region_alerts(out: &mut Vec<char>, s: &Vec<CrossRegionAlert>)
    ensures
        final(out)@ == old(out)@ + cross_region_block(s@, s@.len() as int),
{
    let ghost start = out@;
    let mut i: usize = 0;
    while i < s.len()
        invariant
            i <= s@.len(),
            out@ == start + cross_region_block(s@, i as int),
        decreases s.len() - i,
    {
        let a = &s[i];
        push_str_chars(out, "- [");
        push_str_chars(out, a.subject.as_str());
        push_str_chars(out, "] ");
        push_str_chars(out, a.description.as_str());
        push_str_chars(out, " (regions: ");
        push_comma_joined(out, &a.regions);
        push_str_chars(out, ")\n");
        proof {
            assert(out@ =~= start + cross_region_block(s@, i as int) + cross_region_alert_line(
                s@[i as int],
            ));
        }
        i = i + 1;
    }
}

/// Appends the frontier lines.
fn push_frontier_alerts(out: &mut Vec<char>, s: &Vec<FrontierAlert>)
    ensures
        final(out)@ == old(out)@ + frontier_block(s@, s@.len() as int),
{
    let ghost start = out@;
    let mut i: usize = 0;
    while i < s.len()
        invariant
            i <= s@.len(),
            out@ == start + frontier_block(s@, i as int),
        decreases s.len() - i,
    {
        let a = &s[i];
        push_str_chars(out, "- [");
        push_str_chars(out, a.claim_id.as_str());
        push_str_chars(out, "] ");
        push_str_chars(out, a.description.as_str());
        push_str_chars(out, " Question: ");
        push_str_chars(out, a.clarifying_question.as_str());
        push_str_chars(out, "\n");
        proof {
            assert(out@ =~= start + frontier_block(s@, i as int) + frontier_alert_line(s@[i as int]));
        }
        i = i + 1;
    }
}

/// The "Today's review" section for a report (see `review_section`); `date`
/// and `stamp` are the report's time as `YYYY-MM-DD` and in RFC 3339.
pub fn render_review_section(report: &ChallengerReport, date: &str, stamp: &str) -> (r: String)
    ensures
        r@ == review_section(*report, date@, stamp@),
{
    let mut out: Vec<char> = Vec::new();
    push_str_chars(&mut out, "## Today's review (auto-");
    push_str_chars(&mut out, date);
    push_str_chars(&mut out, ")\n");
    push_str_chars(&mut out, "_generated at ");
    push_str_chars(&mut out, stamp);
    push_str_chars(&mut out, "_\n\n");
    push_str_chars(&mut out, "### Stale claims\n");
    if report.stale_alerts.len() == 0 {
        push_str_chars(&mut out, "- none\n");
    } else {
        push_stale_alerts(&mut out, &report.stale_alerts);
    }
    push_str_chars(&mut out, "\n### Contradictions\n");
    if report.contradiction_alerts.len() == 0 {
        push_str_chars(&mut out, "- none\n");
    } else {
        push_contradiction_alerts(&mut out, &report.contradiction_alerts);
    }
    push_str_chars(&mut out, "\n### Cross-region patterns\n");
    if report.cross_region_alerts.len() == 0 {
        push_str_chars(&mut out, "- none\n");
    } else {
        push_cross_region_alerts(&mut out, &report.cross_region_alerts);
    }
    push_str_chars(&mut out, "\n### Frontier gaps\n");
    if report.frontier_alerts.len() == 0 {
        push_str_chars(&mut out, "- none\n");
    } else {
        push_frontier_alerts(&mut out, &report.frontier_alerts);
    }
    push_str_chars(&mut out, "\n");
    proof {
        assert(out@ =~= review_section(*report, date@, stamp@));
    }
    string_of(&out)
}

/// The heading that opens a review section.
pub open spec fn review_heading() -> Seq<char> {
    "## Today's review (auto-"@
}

/// Index of the first line from `k` on that starts with `p`, if any.
pub open spec fn first_line_with(ls: Seq<Seq<char>>, p: Seq<char>, k: int) -> Option<int>
    decreases ls.len() - k,
{
    if k < 0 || k >= ls.len() {
        None
    } else if has_prefix(ls[k], p) {
        Some(k)
    } else {
        first_line_with(ls, p, k + 1)
    }
}

/// What separates existing text from an appended section: nothing after a
/// blank line, one line break after a line break, else two.
pub open spec fn append_gap(content: Seq<char>) -> Seq<char> {
    if has_suffix(content, "\n\n"@) {
        Seq::empty()
    } else if has_suffix(content, "\n"@) {
        "\n"@
    } else {
        "\n\n"@
    }
}

/// `content` with its review section replaced: the lines from the review
/// heading up to the next `## ` heading (or the end) give way to the lines of
/// `replacement`, and the lines are joined by line breaks with one at the
/// end. Without a review heading, the replacement is appended after a gap
/// (see `append_gap`).
pub open spec fn replaced_review(content: Seq<char>, replacement: Seq<char>) -> Seq<char> {
    let ls = lines_of(content);
    match first_line_with(ls, review_heading(), 0) {
        Some(start) => {
            let next = match first_line_with(ls, "## "@, start + 1) {
                Some(n) => n,
                None => ls.len() as int,
            };
            let out = ls.take(start) + lines_of(replacement) + ls.skip(next);
            joined_lines(out, out.len() as int) + "\n"@
        },
        None => content + append_gap(content) + replacement,
    }
}

/// Index of the first line from `k` on that starts with `p` (see
/// `first_line_with`).
fn find_line_with(v: &Vec<char>, bounds: &Vec<(usize, usize)>, p: &str, k: usize) -> (r: Option<usize>)
    requires
        bounds@.len() == lines_of(v@).len(),
        forall|j: int|
            0 <= j < bounds@.len() ==> (#[trigger] bounds@[j]).0 <= bounds@[j].1 <= v@.len()
                && v@.subrange(bounds@[j].0 as int, bounds@[j].1 as int) == lines_of(v@)[j],
    ensures
        match r {
            Some(i) => first_line_with(lines_of(v@), p@, k as int) == Some(i as int),
            None => first_line_with(lines_of(v@), p@, k as int) is None,
        },
{
    let ghost ls = lines_of(v@);
    let pv = chars_of(p);
    let mut i = k;
    while i < bounds.len()
        invariant
            k <= i,
            i <= bounds@.len() || i == k,
            pv@ == p@,
            bounds@.len() == ls.len(),
            ls == lines_of(v@),
            forall|j: int|
                0 <= j < bounds@.len() ==> (#[trigger] bounds@[j]).0 <= bounds@[j].1 <= v@.len()
                    && v@.subrange(bounds@[j].0 as int, bounds@[j].1 as int) == ls[j],
            first_line_with(ls, p@, k as int) == first_line_with(ls, p@, i as int),
        decreases bounds.len() - i,
    {
        let (a, b) = bounds[i];
        let ghost line = ls[i as int];
        let hit = if b - a >= pv.len() {
            matches_at(v, a, p)
        } else {
            false
        };
        proof {
            assert(v@.subrange(a as int, b as int) == line);
            if b - a >= pv@.len() {
                assert(line.subrange(0, p@.len() as int) =~= v@.subrange(a as int, a + p@.len()));
            }
            assert(hit == has_prefix(line, p@));
        }
        if hit {
            return Some(i);
        }
        i = i + 1;
    }
    None
}

/// Joins lines with line breaks and ends with one.
fn join_lines_nl(ls: &Vec<String>) -> (r: String)
    ensures
        r@ == joined_lines(texts(ls@), ls@.len() as int) + "\n"@,
{
    let mut out: Vec<char> = Vec::new();
    let mut i: usize = 0;
    while i < ls.len()
        invariant
            i <= ls@.len(),
            out@ == joined_lines(texts(ls@), i as int),
        decreases ls.len() - i,
    {
        if i > 0 {
            out.push('\n');
        }
        push_str_chars(&mut out, ls[i].as_str());
        proof {
            assert(texts(ls@)[i as int] == ls@[i as int]@);
            if i == 0 {
                assert(out@ =~= joined_lines(texts(ls@), 1));
            } else {
                assert(out@ =~= joined_lines(texts(ls@), i as int) + seq!['\n'] + texts(ls@)[i as int]);
            }
        }
        i = i + 1;
    }
    out.push('\n');
    proof {
        reveal_strlit("\n");
    }
    string_of(&out)
}

/// Pushes the texts of lines `from..to`.
fn push_line_texts(out: &mut Vec<String>, v: &Vec<char>, bounds: &Vec<(usize, usize)>, from: usize, to: usize)
    requires
        from <= to <= bounds@.len(),
        bounds@.len() == lines_of(v@).len(),
        forall|j: int|
            0 <= j < bounds@.len() ==> (#[trigger] bounds@[j]).0 <= bounds@[j].1 <= v@.len()
                && v@.subrange(bounds@[j].0 as int, bounds@[j].1 as int) == lines_of(v@)[j],
    ensures
        texts(final(out)@) == texts(old(out)@) + lines_of(v@).subrange(from as int, to as int),
{
    let ghost start = texts(out@);
    let mut i = from;
    while i < to
        invariant
            from <= i <= to <= bounds@.len(),
            bounds@.len() == lines_of(v@).len(),
            forall|j: int|
                0 <= j < bounds@.len() ==> (#[trigger] bounds@[j]).0 <= bounds@[j].1 <= v@.len()
                    && v@.subrange(bounds@[j].0 as int, bounds@[j].1 as int) == lines_of(v@)[j],
            texts(out@) == start + lines_of(v@).subrange(from as int, i as int),
        decreases to - i,
    {
        let (a, b) = bounds[i];
        let ghost prev = out@;
        let t = string_of_range(v, a, b);
        proof {
            assert(v@.subrange(a as int, b as int) == lines_of(v@)[i as int]);
        }
        out.push(t);
        proof {
            assert(texts(out@) =~= texts(prev).push(t@));
            assert(texts(out@) =~= start + lines_of(v@).subrange(from as int, i + 1));
        }
        i = i + 1;
    }
}

/// `content` with its review section replaced by `replacement` (see
/// `replaced_review`).
pub fn replace_review_section(content: &str, replacement: &str) -> (r: String)
    ensures
        r@ == replaced_review(content@, replacement@),
{
    let v = chars_of(content);
    let bounds = line_bounds(&v);
    let ghost ls = lines_of(v@);
    match find_line_with(&v, &bounds, "## Today's review (auto-", 0) {
        Some(start) => {
            proof {
                lemma_first_line_bounds(ls, review_heading(), 0);
            }
            let nb = bounds.len();
            assert(start < nb);
            let next = match find_line_with(&v, &bounds, "## ", start + 1) {
                Some(n) => n,
                None => bounds.len(),
            };
            proof {
                lemma_first_line_bounds(ls, "## "@, start + 1);
            }
            let rv = chars_of(replacement);
            let rb = line_bounds(&rv);
            let mut out: Vec<String> = Vec::new();
            push_line_texts(&mut out, &v, &bounds, 0, start);
            push_line_texts(&mut out, &rv, &rb, 0, rb.len());
            push_line_texts(&mut out, &v, &bounds, next, bounds.len());
            proof {
                let want = ls.take(start as int) + lines_of(replacement@) + ls.skip(next as int);
                assert(ls.subrange(0, start as int) =~= ls.take(start as int));
                assert(lines_of(rv@).subrange(0, rb@.len() as int) =~= lines_of(replacement@));
                assert(ls.subrange(next as int, ls.len() as int) =~= ls.skip(next as int));
                assert(texts(out@) =~= want);
            }
            join_lines_nl(&out)
        },
        None => {
            let mut out: Vec<char> = Vec::new();
            push_str_chars(&mut out, content);
            if !ends_with(content, "\n\n") {
                if ends_with(content, "\n") {
                    out.push('\n');
                } else {
                    out.push('\n');
                    out.push('\n');
                }
            }
            push_str_chars(&mut out, replacement);
            proof {
                reveal_strlit("\n");
                reveal_strlit("\n\n");
                assert(out@ =~= content@ + append_gap(content@) + replacement@);
            }
            string_of(&out)
        },
    }
}

/// A found line lies within the lines, at or after where the search began.
proof fn lemma_first_line_bounds(ls: Seq<Seq<char>>, p: Seq<char>, k: int)
    ensures
        match first_line_with(ls, p, k) {
            Some(i) => k <= i < ls.len() && 0 <= i,
            None => true,
        },
    decreases ls.len() - k,
{
    if 0 <= k < ls.len() && !has_prefix(ls[k], p) {
        lemma_first_line_bounds(ls, p, k + 1);
    }
}


/// What `chrono::DateTime::<Utc>::from_timestamp(secs, 0)` formatted with
/// `DateTime::format(fmt)` reads, when the time is in range and the format
/// is valid.
pub uninterp spec fn utc_formatted(secs: i64, fmt: Seq<char>) -> Option<Seq<char>>;

/// What `chrono::DateTime::<Utc>::from_timestamp(secs, 0)` gives by
/// `DateTime::to_rfc3339`, when the time is in range.
pub uninterp spec fn utc_rfc3339_text(secs: i64) -> Option<Seq<char>>;

/// `Some(s)` by view when the option holds a string.
pub open spec fn text_of(o: Option<String>) -> Option<Seq<char>> {
    match o {
        Some(s) => Some(s@),
        None => None,
    }
}

/// Formats a UTC time with `chrono`: `DateTime::from_timestamp` then
/// `DateTime::format`; `None` when the time is out of range or the format
/// fails. The text itself is named, not described.
#[verifier::external_body]
fn utc_format(secs: i64, fmt: &str) -> (r: Option<String>)
    ensures
        text_of(r) == utc_formatted(secs, fmt@),
{
    let dt = chrono::DateTime::from_timestamp(secs, 0)?;
    let mut out = String::new();
    write!(out, "{}", dt.format(fmt)).ok()?;
    Some(out)
}

/// A UTC time in RFC 3339 with `chrono`: `DateTime::from_timestamp` then
/// `DateTime::to_rfc3339`; `None` when the time is out of range.
#[verifier::external_body]
fn utc_rfc3339(secs: i64) -> (r: Option<String>)
    ensures
        text_of(r) == utc_rfc3339_text(secs),
{
    chrono::DateTime::from_timestamp(secs, 0).map(|dt| dt.to_rfc3339())
}

/// The review section for a report, its time written by `chrono` as a date
/// and in RFC 3339 (see `review_section`); `None` when `chrono` cannot
/// write the time.
pub fn review_section_for(report: &ChallengerReport) -> (r: Option<String>)
    ensures
        match (utc_formatted(report.generated_at, "%Y-%m-%d"@), utc_rfc3339_text(report.generated_at)) {
            (Some(d), Some(t)) => r is Some && r->0@ == review_section(*report, d, t),
            _ => r is None,
        },
{
    let date = match utc_format(report.generated_at, "%Y-%m-%d") {
        Some(d) => d,
        None => return None,
    };
    let stamp = match utc_rfc3339(report.generated_at) {
        Some(t) => t,
        None => return None,
    };
    Some(render_review_section(report, date.as_str(), stamp.as_str()))
}

/// The world map text a review is written into: the existing file, ending in
/// a line break, or a bare title when there is none.
pub open spec fn world_map_base(existing: Option<Seq<char>>) -> Seq<char> {
    match existing {
        Some(c) => if has_suffix(c, "\n"@) {
            c
        } else {
            c + "\n"@
        },
        None => "# World Map\n"@,
    }
}

/// The world map after writing a review section into it (see
/// `world_map_base` and `replaced_review`).
pub fn world_map_with_review(existing: Option<&str>, section: &str) -> (r: String)
    ensures
        r@ == replaced_review(
            world_map_base(
                match existing {
                    Some(c) => Some(c@),
                    None => None,
                },
            ),
            section@,
        ),
{
    let base = match existing {
        Some(c) => {
            if ends_with(c, "\n") {
                c.to_string()
            } else {
                let mut v: Vec<char> = Vec::new();
                push_str_chars(&mut v, c);
                v.push('\n');
                proof {
                    reveal_strlit("\n");
                    assert(v@ =~= c@ + "\n"@);
                }
                string_of(&v)
            }
        },
        None => "# World Map\n".to_string(),
    };
    replace_review_section(base.as_str(), section)
}

/// A subject as a home-note id: ASCII letters and digits lower-cased, every
/// other run turned into one dash, dashes trimmed from both ends.
pub open spec fn home_slug(s: Seq<char>) -> Seq<char> {
    let d = crate::ingest::dash_slug(s);
    if d.len() > 0 && d.last() == '-' {
        d.drop_last()
    } else {
        d
    }
}

/// A subject as a home-note id (see `home_slug`).
pub fn home_note_slug(subject: &str) -> (r: String)
    ensures
        r@ == home_slug(subject@),
{
    let v = chars_of(subject);
    let mut out: Vec<char> = Vec::new();
    let mut i: usize = 0;
    while i < v.len()
        invariant
            v@ == subject@,
            i <= v@.len(),
            out@ == crate::ingest::dash_slug(v@.take(i as int)),
        decreases v.len() - i,
    {
        let c = v[i];
        proof {
            assert(v@.take(i + 1).drop_last() =~= v@.take(i as int));
        }
        if ('a' <= c && c <= 'z') || ('A' <= c && c <= 'Z') || ('0' <= c && c <= '9') {
            out.push(crate::text::to_ascii_lower(c));
        } else if out.len() > 0 && out[out.len() - 1] != '-' {
            out.push('-');
        }
        i = i + 1;
    }
    proof {
        assert(v@.take(v@.len() as int) =~= v@);
    }
    let mut n = out.len();
    if n > 0 && out[n - 1] == '-' {
        n = n - 1;
    }
    proof {
        let d = crate::ingest::dash_slug(subject@);
        assert(out@.subrange(0, n as int) =~= home_slug(subject@));
    }
    string_of_range(&out, 0, n)
}

/// The description of a subject found in several regions.
pub open spec fn cross_region_text(subject: Seq<char>, regions: nat, home: Seq<char>) -> Seq<char> {
    "Subject '"@ + subject + "' spans "@ + crate::claims::decimal(regions)
        + " regions without a home note; consider creating '"@ + home + "'."@
}

/// The description of a subject found in several regions.
pub fn cross_region_description(subject: &str, regions: usize, home: &str) -> (r: String)
    ensures
        r@ == cross_region_text(subject@, regions as nat, home@),
{
    let mut out: Vec<char> = Vec::new();
    push_str_chars(&mut out, "Subject '");
    push_str_chars(&mut out, subject);
    push_str_chars(&mut out, "' spans ");
    let mut d = crate::claims::usize_decimal(regions);
    out.append(&mut d);
    push_str_chars(&mut out, " regions without a home note; consider creating '");
    push_str_chars(&mut out, home);
    push_str_chars(&mut out, "'.");
    string_of(&out)
}

/// The model's proposed replacement for a stale claim.
#[derive(Debug, Clone)]
pub struct ProposedClaim {
    pub s: String,
    pub p: String,
    pub o: String,
}

/// What a stale claim's review says: the action, trimmed and ASCII
/// lower-cased, and a description: the proposed claim when the action is
/// `update` and one is given, a bare update note without one, else archive.
pub open spec fn stale_review_text(action: Seq<char>, proposal: Option<ProposedClaim>) -> (Seq<char>, Seq<char>) {
    let a = crate::text::ascii_lower_seq(crate::text::trim(action));
    let d = if a == "update"@ {
        match proposal {
            Some(c) => "Stale claim needs update to '"@ + c.s@ + " "@ + c.p@ + " "@ + c.o@ + "'."@,
            None => "Stale claim marked for update."@,
        }
    } else {
        "Stale claim appears obsolete and should be archived."@
    };
    (a, d)
}

/// What a stale claim's review says (see `stale_review_text`).
pub fn stale_review(action: &str, proposal: &Option<ProposedClaim>) -> (r: (String, String))
    ensures
        (r.0@, r.1@) == stale_review_text(action@, *proposal),
{
    let t = crate::entailment::trimmed(action);
    let a = crate::text::ascii_lowercase(t.as_str());
    let d = if crate::text::str_eq(a.as_str(), "update") {
        match proposal {
            Some(c) => {
                let mut out: Vec<char> = Vec::new();
                push_str_chars(&mut out, "Stale claim needs update to '");
                push_str_chars(&mut out, c.s.as_str());
                push_str_chars(&mut out, " ");
                push_str_chars(&mut out, c.p.as_str());
                push_str_chars(&mut out, " ");
                push_str_chars(&mut out, c.o.as_str());
                push_str_chars(&mut out, "'.");
                string_of(&out)
            },
            None => "Stale claim marked for update.".to_string(),
        }
    } else {
        "Stale claim appears obsolete and should be archived.".to_string()
    };
    (a, d)
}

/// The description of a frontier gap: low confidence below the threshold,
/// else a rare predicate (both in millionths).
pub fn frontier_description(confidence_millionths: u32, threshold_millionths: u32) -> (r: String)
    ensures
        r@ == (if confidence_millionths < threshold_millionths {
            "Low-confidence claim needs clarification."@
        } else {
            "Rare predicate appears once and needs corroboration."@
        }),
{
    if confidence_millionths < threshold_millionths {
        "Low-confidence claim needs clarification.".to_string()
    } else {
        "Rare predicate appears once and needs corroboration.".to_string()
    }
}


/// A claim written as subject, predicate and object, separated by spaces.
pub open spec fn claim_words(c: crate::claims::Claim) -> Seq<char> {
    c.subject@ + " "@ + c.predicate@ + " "@ + crate::contradict::object_shown(c)
}

/// The request for a stale claim: propose an updated claim or `archive`,
/// given the source text the claim was taken from.
pub open spec fn stale_review_prompt_text(span_text: Seq<char>, c: crate::claims::Claim) -> Seq<char> {
    "Given the source note has changed, propose:\n(1) the updated claim, OR (2) 'archive' if no longer applicable.\nSource: '"@
        + span_text + "'. Old claim: '"@ + claim_words(c)
        + "'.\nOutput JSON {\"action\":\"update\"|\"archive\",\"new_claim\"?:{\"s\":\"...\",\"p\":\"...\",\"o\":\"...\"}}"@
}

/// Appends subject, predicate and object separated by spaces.
fn push_claim_words(out: &mut Vec<char>, c: &crate::claims::Claim)
    ensures
        final(out)@ == old(out)@ + claim_words(*c),
{
    push_str_chars(out, c.subject.as_str());
    push_str_chars(out, " ");
    push_str_chars(out, c.predicate.as_str());
    push_str_chars(out, " ");
    let o = c.object_display();
    push_str_chars(out, o.as_str());
    proof {
        assert(out@ =~= old(out)@ + claim_words(*c));
    }
}

/// The request for a stale claim (see `stale_review_prompt_text`).
pub fn stale_review_prompt(span_text: &str, c: &crate::claims::Claim) -> (r: String)
    ensures
        r@ == stale_review_prompt_text(span_text@, *c),
{
    let mut out: Vec<char> = Vec::new();
    push_str_chars(
        &mut out,
        "Given the source note has changed, propose:\n(1) the updated claim, OR (2) 'archive' if no longer applicable.\nSource: '",
    );
    push_str_chars(&mut out, span_text);
    push_str_chars(&mut out, "'. Old claim: '");
    push_claim_words(&mut out, c);
    push_str_chars(
        &mut out,
        "'.\nOutput JSON {\"action\":\"update\"|\"archive\",\"new_claim\"?:{\"s\":\"...\",\"p\":\"...\",\"o\":\"...\"}}",
    );
    proof {
        assert(out@ =~= stale_review_prompt_text(span_text@, *c));
    }
    string_of(&out)
}

/// The request to sum up a contradiction between two claims in a sentence.
pub open spec fn contradiction_summary_prompt_text(a: crate::claims::Claim, b: crate::claims::Claim) -> Seq<char> {
    "Summarize this contradiction in one sentence.\nClaim A: '"@ + claim_words(a) + "'\nClaim B: '"@
        + claim_words(b) + "'"@
}

/// The request to sum up a contradiction (see
/// `contradiction_summary_prompt_text`).
pub fn contradiction_summary_prompt(a: &crate::claims::Claim, b: &crate::claims::Claim) -> (r: String)
    ensures
        r@ == contradiction_summary_prompt_text(*a, *b),
{
    let mut out: Vec<char> = Vec::new();
    push_str_chars(&mut out, "Summarize this contradiction in one sentence.\nClaim A: '");
    push_claim_words(&mut out, a);
    push_str_chars(&mut out, "'\nClaim B: '");
    push_claim_words(&mut out, b);
    push_str_chars(&mut out, "'");
    proof {
        assert(out@ =~= contradiction_summary_prompt_text(*a, *b));
    }
    string_of(&out)
}

/// The request for a clarifying question about a weakly supported claim;
/// the confidence comes as it is printed.
pub open spec fn frontier_question_prompt_text(
    subject: Seq<char>,
    predicate: Seq<char>,
    object: Seq<char>,
    confidence_text: Seq<char>,
    occurrences: nat,
) -> Seq<char> {
    "Generate one short clarifying question for this uncertain claim:\n'"@ + subject + " "@ + predicate
        + " "@ + object + "' (confidence "@ + confidence_text + ", predicate occurrences "@
        + crate::claims::decimal(occurrences) + ")."@
}

/// The request for a clarifying question (see `frontier_question_prompt_text`).
pub fn frontier_question_prompt(
    subject: &str,
    predicate: &str,
    object: &str,
    confidence_text: &str,
    occurrences: usize,
) -> (r: String)
    ensures
        r@ == frontier_question_prompt_text(subject@, predicate@, object@, confidence_text@, occurrences as nat),
{
    let mut out: Vec<char> = Vec::new();
    push_str_chars(&mut out, "Generate one short clarifying question for this uncertain claim:\n'");
    push_str_chars(&mut out, subject);
    push_str_chars(&mut out, " ");
    push_str_chars(&mut out, predicate);
    push_str_chars(&mut out, " ");
    push_str_chars(&mut out, object);
    push_str_chars(&mut out, "' (confidence ");
    push_str_chars(&mut out, confidence_text);
    push_str_chars(&mut out, ", predicate occurrences ");
    let mut d = crate::claims::usize_decimal(occurrences);
    out.append(&mut d);
    push_str_chars(&mut out, ").");
    proof {
        assert(out@ =~= frontier_question_prompt_text(subject@, predicate@, object@, confidence_text@, occurrences as nat));
    }
    string_of(&out)
}

} // verus!
