//! The arguments of each command-line subcommand, and the small decisions the
//! indexing and watching commands take from them.
use vstd::prelude::*;
use crate::text::{str_eq, string_of};
use crate::entailment::trimmed;
use crate::claims::{push_str_chars, usize_decimal, decimal};

verus! {

/// `memora challenge`.
#[derive(Debug, Clone)]
pub struct ChallengeArgs {
    pub dry_run: bool,
    pub vault_root: String,
    pub index_db: String,
}

/// `memora claims extract`.
#[derive(Debug, Clone)]
pub struct ClaimsExtractArgs {
    pub note: String,
    pub vault: String,
}

/// `memora claims show`.
#[derive(Debug, Clone)]
pub struct ClaimsShowArgs {
    pub claim_id: String,
    pub vault: String,
}

/// `memora claims ...`.
#[derive(Debug, Clone)]
pub enum ClaimsCommand {
    /// Extract claims for one note id.
    Extract(ClaimsExtractArgs),
    /// Show one claim id and its source quote.
    Show(ClaimsShowArgs),
}

/// `memora consolidate`.
#[derive(Debug, Clone)]
pub struct ConsolidateArgs {
    pub region: Option<String>,
    pub all: bool,
    pub vault_root: String,
    pub index_db: String,
}

/// `memora demo`.
#[derive(Debug, Clone)]
pub struct DemoArgs {
    /// Write a standalone HTML proof report and print its path.
    pub html: bool,
    /// Open the HTML proof report in a browser (implies `html`).
    pub open: bool,
}

/// `memora doctor`.
#[derive(Debug, Clone)]
pub struct DoctorArgs {
    pub vault: String,
}

/// `memora index`.
#[derive(Debug, Clone)]
pub struct IndexArgs {
    pub vault: String,
    pub auto_fix_frontmatter: bool,
    pub no_auto_fix_frontmatter: bool,
    /// Skip contradiction detection while indexing.
    pub no_contradict: bool,
}

/// `memora ingest`.
#[derive(Debug, Clone)]
pub struct IngestArgs {
    /// File or URL to ingest.
    pub file: String,
    pub vault: String,
    /// Region (folder) to place the note under.
    pub region: String,
    /// Privacy band for the note: public, private or secret.
    pub privacy: String,
}

/// `memora init`.
#[derive(Debug, Clone)]
pub struct InitArgs {
    pub vault: String,
}

/// `memora privacy audit`.
#[derive(Debug, Clone)]
pub struct PrivacyAuditArgs {
    pub vault_root: String,
}

/// `memora privacy ...`.
#[derive(Debug, Clone)]
pub enum PrivacyCommand {
    /// Audit notes for sensitive content without an explicit privacy level.
    Audit(PrivacyAuditArgs),
}

/// `memora query`.
#[derive(Debug, Clone)]
pub struct QueryArgs {
    pub text: String,
    pub raw: bool,
    pub vault: String,
}

/// `memora report`.
#[derive(Debug, Clone)]
pub struct ReportArgs {
    pub vault: String,
    /// Output HTML path (default: `<vault>/.memora/report.html`).
    pub output: Option<String>,
    /// Open the report in a browser after writing it.
    pub open: bool,
    /// Maximum number of claims to draw in the graph.
    pub max_nodes: usize,
}

/// `memora serve`.
#[derive(Debug, Clone)]
pub struct ServeArgs {}

/// `memora verify`.
#[derive(Debug, Clone)]
pub struct VerifyArgs {
    /// File holding the answer; standard input when absent.
    pub file: Option<String>,
    pub vault: String,
    /// Emit JSON instead of the human verdict.
    pub json: bool,
    /// Do not fail on superseded citations.
    pub allow_superseded: bool,
    /// Also run the model-judged entailment check.
    pub entailment: bool,
    /// With `entailment`, count unsupported citations as failures.
    pub fail_unsupported: bool,
}

/// `memora watch`.
#[derive(Debug, Clone)]
pub struct WatchArgs {
    pub vault: String,
    pub auto_fix_frontmatter: bool,
    pub no_auto_fix_frontmatter: bool,
}

/// What the indexer does with a note whose frontmatter is missing or incomplete.
#[derive(Debug, Clone, Copy, PartialEq, Eq, Structural)]
pub enum FrontmatterFixMode {
    Strict,
    RewriteMissing,
    InferInMemoryOnly,
}

impl Default for FrontmatterFixMode {
    fn default() -> (r: Self)
        ensures
            r == FrontmatterFixMode::Strict,
    {
        FrontmatterFixMode::Strict
    }
}

/// Counts of one full index rebuild.
#[derive(Debug, Clone, Copy, PartialEq, Eq, Structural)]
pub struct RebuildStats {
    pub inserted: usize,
    pub skipped: usize,
    pub errors: usize,
}

impl Default for RebuildStats {
    fn default() -> (r: Self)
        ensures
            r.inserted == 0 && r.skipped == 0 && r.errors == 0,
    {
        RebuildStats { inserted: 0, skipped: 0, errors: 0 }
    }
}

/// The watcher rewrites missing frontmatter unless told not to.
pub fn resolve_watch_fix_mode(args: &WatchArgs) -> (r: FrontmatterFixMode)
    ensures
        r == (if args.no_auto_fix_frontmatter {
            FrontmatterFixMode::Strict
        } else {
            FrontmatterFixMode::RewriteMissing
        }),
{
    if args.no_auto_fix_frontmatter {
        FrontmatterFixMode::Strict
    } else {
        FrontmatterFixMode::RewriteMissing
    }
}

/// What indexing does about notes that need frontmatter.
#[derive(Debug, Clone, Copy, PartialEq, Eq, Structural)]
pub enum FixModeChoice {
    /// Decided from the flags and the scan.
    Decided(FrontmatterFixMode),
    /// Ask the user before rewriting files.
    Ask,
}

/// The frontmatter mode for `memora index`: strict when told not to fix,
/// rewriting when told to or when nothing needs fixing, else the user is asked.
pub fn choose_fix_mode(args: &IndexArgs, needs_fixing: usize) -> (r: FixModeChoice)
    ensures
        args.no_auto_fix_frontmatter ==> r == FixModeChoice::Decided(FrontmatterFixMode::Strict),
        !args.no_auto_fix_frontmatter && (args.auto_fix_frontmatter || needs_fixing == 0) ==> r
            == FixModeChoice::Decided(FrontmatterFixMode::RewriteMissing),
        !args.no_auto_fix_frontmatter && !args.auto_fix_frontmatter && needs_fixing != 0 ==> r
            == FixModeChoice::Ask,
{
    if args.no_auto_fix_frontmatter {
        return FixModeChoice::Decided(FrontmatterFixMode::Strict);
    }
    if args.auto_fix_frontmatter || needs_fixing == 0 {
        return FixModeChoice::Decided(FrontmatterFixMode::RewriteMissing);
    }
    FixModeChoice::Ask
}

/// The question put to the user before frontmatter is written.
pub open spec fn fix_prompt_text(total_notes: nat, needs_fixing: nat) -> Seq<char> {
    "Found "@ + decimal(total_notes) + " notes. "@ + decimal(needs_fixing)
        + " need frontmatter added.\nMemora will prepend YAML frontmatter to these files (id, region,\ncreated, updated, summary inferred from filename and content).\nYour existing content is preserved.\n\nProceed? [y/N]"@
}

/// The question put to the user before frontmatter is written.
pub fn fix_prompt(total_notes: usize, needs_fixing: usize) -> (r: String)
    ensures
        r@ == fix_prompt_text(total_notes as nat, needs_fixing as nat),
{
    let mut out: Vec<char> = Vec::new();
    push_str_chars(&mut out, "Found ");
    let a = usize_decimal(total_notes);
    let mut a = a;
    out.append(&mut a);
    push_str_chars(&mut out, " notes. ");
    let b = usize_decimal(needs_fixing);
    let mut b = b;
    out.append(&mut b);
    push_str_chars(
        &mut out,
        " need frontmatter added.\nMemora will prepend YAML frontmatter to these files (id, region,\ncreated, updated, summary inferred from filename and content).\nYour existing content is preserved.\n\nProceed? [y/N]",
    );
    string_of(&out)
}

/// ASCII lower-casing of a character sequence.
pub open spec fn ascii_lower_all(s: Seq<char>) -> Seq<char> {
    crate::text::ascii_lower_seq(s)
}

/// The refusal when the user does not agree to rewrite frontmatter.
pub open spec fn fix_declined_message() -> Seq<char> {
    "Re-run with --auto-fix-frontmatter or add frontmatter manually."@
}

/// The user's reply to `fix_prompt`: `y` or `yes` in any ASCII case, around
/// whitespace, proceeds with rewriting; anything else is refused.
pub fn fix_mode_from_answer(answer: &str) -> (r: Result<FrontmatterFixMode, String>)
    ensures
        ({
            let a = ascii_lower_all(crate::text::trim(answer@));
            &&& (a == "y"@ || a == "yes"@) ==> r == Ok::<FrontmatterFixMode, String>(
                FrontmatterFixMode::RewriteMissing,
            )
            &&& !(a == "y"@ || a == "yes"@) ==> (r is Err && r->Err_0@ == fix_declined_message())
        }),
{
    let t = trimmed(answer);
    let lower = crate::text::ascii_lowercase(t.as_str());
    if str_eq(lower.as_str(), "y") || str_eq(lower.as_str(), "yes") {
        Ok(FrontmatterFixMode::RewriteMissing)
    } else {
        Err("Re-run with --auto-fix-frontmatter or add frontmatter manually.".to_string())
    }
}

/// `ok` or `missing`, for a health check.
pub fn status_bool(value: bool) -> (r: &'static str)
    ensures
        r@ == (if value {
            "ok"@
        } else {
            "missing"@
        }),
{
    if value {
        "ok"
    } else {
        "missing"
    }
}

/// The line printed after indexing.
pub open spec fn index_summary_text(stats: RebuildStats) -> Seq<char> {
    "Indexed: inserted="@ + decimal(stats.inserted as nat) + ", skipped="@ + decimal(
        stats.skipped as nat,
    ) + ", errors="@ + decimal(stats.errors as nat)
}

/// What `memora index` reports when done: the counts on standard output, and
/// on standard error a note about failures and, after a large first import
/// with contradiction detection on, a tip.
pub fn index_report(stats: RebuildStats, no_contradict: bool) -> (r: (String, Vec<String>))
    ensures
        r.0@ == index_summary_text(stats),
        r.1@.len() == (if stats.errors > 0 {
            1int
        } else {
            0
        }) + (if stats.inserted > 50 && !no_contradict {
            1int
        } else {
            0
        }),
        stats.errors > 0 ==> r.1@[0]@ == "\n"@ + decimal(stats.errors as nat)
            + " notes failed. Re-run with RUST_LOG=warn for details."@,
        stats.inserted > 50 && !no_contradict ==> r.1@[r.1@.len() - 1]@ == index_tip(),
{
    let mut line: Vec<char> = Vec::new();
    push_str_chars(&mut line, "Indexed: inserted=");
    let a = usize_decimal(stats.inserted);
    let mut a = a;
    line.append(&mut a);
    push_str_chars(&mut line, ", skipped=");
    let b = usize_decimal(stats.skipped);
    let mut b = b;
    line.append(&mut b);
    push_str_chars(&mut line, ", errors=");
    let c = usize_decimal(stats.errors);
    let mut c = c;
    line.append(&mut c);
    let mut notes: Vec<String> = Vec::new();
    if stats.errors > 0 {
        let mut e: Vec<char> = Vec::new();
        push_str_chars(&mut e, "\n");
        let d = usize_decimal(stats.errors);
        let mut d = d;
        e.append(&mut d);
        push_str_chars(&mut e, " notes failed. Re-run with RUST_LOG=warn for details.");
        notes.push(string_of(&e));
    }
    if stats.inserted > 50 && !no_contradict {
        notes.push(
            "\nTip: For large vaults, --no-contradict speeds up first-time indexing significantly. Contradiction detection runs continuously in `memora watch`.".to_string(),
        );
    }
    (string_of(&line), notes)
}

/// The tip printed after a large first import.
pub open spec fn index_tip() -> Seq<char> {
    "\nTip: For large vaults, --no-contradict speeds up first-time indexing significantly. Contradiction detection runs continuously in `memora watch`."@
}

/// How indexing one note ended.
#[derive(Debug, Clone)]
pub enum RebuildOutcome {
    /// The note could not be parsed.
    ParseFail,
    /// Its frontmatter could not be aligned with the file system.
    AlignFail,
    /// Indexed under the given id.
    UpsertOk(String),
    /// Indexing under the given id failed.
    UpsertFail(String),
}

/// Counts of the outcomes: indexed notes are inserted, failed upserts are
/// errors, and notes that could not be parsed or aligned are both skipped
/// and errors.
pub open spec fn outcome_stats(o: Seq<RebuildOutcome>) -> (nat, nat, nat)
    decreases o.len(),
{
    if o.len() == 0 {
        (0, 0, 0)
    } else {
        let p = outcome_stats(o.drop_last());
        match o.last() {
            RebuildOutcome::UpsertOk(_) => ((p.0 + 1) as nat, p.1, p.2),
            RebuildOutcome::UpsertFail(_) => (p.0, p.1, (p.2 + 1) as nat),
            _ => (p.0, (p.1 + 1) as nat, (p.2 + 1) as nat),
        }
    }
}

/// Ids of the notes that reached the index, indexed or not, in order.
pub open spec fn seen_note_ids(o: Seq<RebuildOutcome>) -> Seq<Seq<char>>
    decreases o.len(),
{
    if o.len() == 0 {
        Seq::empty()
    } else {
        let p = seen_note_ids(o.drop_last());
        match o.last() {
            RebuildOutcome::UpsertOk(id) => p.push(id@),
            RebuildOutcome::UpsertFail(id) => p.push(id@),
            _ => p,
        }
    }
}

/// The counts of a full rebuild and the ids it saw (see `outcome_stats` and
/// `seen_note_ids`).
pub fn tally_rebuild(outcomes: &Vec<RebuildOutcome>) -> (r: (RebuildStats, Vec<String>))
    ensures
        (r.0.inserted as nat, r.0.skipped as nat, r.0.errors as nat) == outcome_stats(outcomes@),
        crate::order::texts(r.1@) == seen_note_ids(outcomes@),
{
    let mut stats = RebuildStats { inserted: 0, skipped: 0, errors: 0 };
    let mut seen: Vec<String> = Vec::new();
    let mut i: usize = 0;
    while i < outcomes.len()
        invariant
            i <= outcomes@.len(),
            stats.inserted <= i && stats.skipped <= i && stats.errors <= i,
            (stats.inserted as nat, stats.skipped as nat, stats.errors as nat) == outcome_stats(
                outcomes@.take(i as int),
            ),
            crate::order::texts(seen@) == seen_note_ids(outcomes@.take(i as int)),
        decreases outcomes.len() - i,
    {
        proof {
            assert(outcomes@.take(i + 1).drop_last() =~= outcomes@.take(i as int));
        }
        let ghost prev = seen@;
        match &outcomes[i] {
            RebuildOutcome::UpsertOk(id) => {
                seen.push(id.clone());
                stats.inserted = stats.inserted + 1;
                proof {
                    assert(crate::order::texts(seen@) =~= crate::order::texts(prev).push(id@));
                }
            },
            RebuildOutcome::UpsertFail(id) => {
                seen.push(id.clone());
                stats.errors = stats.errors + 1;
                proof {
                    assert(crate::order::texts(seen@) =~= crate::order::texts(prev).push(id@));
                }
            },
            _ => {
                stats.skipped = stats.skipped + 1;
                stats.errors = stats.errors + 1;
            },
        }
        i = i + 1;
    }
    proof {
        assert(outcomes@.take(outcomes@.len() as int) =~= outcomes@);
    }
    (stats, seen)
}

/// Whether claims are extracted from a note: always, except from reference
/// notes unless that is switched on.
pub fn should_extract_claims(extract_reference_notes: bool, is_reference: bool) -> (r: bool)
    ensures
        r == (extract_reference_notes || !is_reference),
{
    extract_reference_notes || !is_reference
}

/// At most the first `n` characters of `s`.
pub open spec fn head_chars(s: Seq<char>, n: int) -> Seq<char> {
    if s.len() <= n {
        s
    } else {
        s.take(n)
    }
}

/// The text a note is embedded by: its summary and the first 2000 characters
/// of its body on the next line, normalised (see `normalize_text`).
pub open spec fn embedding_text(summary: Seq<char>, body: Seq<char>) -> Seq<char> {
    crate::text::collapse_ws(crate::text::unicode_lowercase(summary + "\n"@ + head_chars(body, 2000)))
}

/// The text a note is embedded by (see `embedding_text`).
pub fn make_embedding_text(summary: &str, body: &str) -> (r: String)
    ensures
        r@ == embedding_text(summary@, body@),
{
    let v = crate::text::chars_of(body);
    let mut out: Vec<char> = Vec::new();
    push_str_chars(&mut out, summary);
    out.push('\n');
    let n: usize = if v.len() <= 2000 {
        v.len()
    } else {
        2000
    };
    let ghost head = out@;
    let mut i: usize = 0;
    while i < n
        invariant
            i <= n <= v@.len(),
            out@ == head + v@.take(i as int),
        decreases n - i,
    {
        out.push(v[i]);
        proof {
            assert(v@.take(i + 1) =~= v@.take(i as int).push(v@[i as int]));
        }
        i = i + 1;
    }
    proof {
        reveal_strlit("\n");
        assert(head_chars(body@, 2000) =~= v@.take(n as int));
        assert(out@ =~= summary@ + "\n"@ + head_chars(body@, 2000));
    }
    let joined = string_of(&out);
    crate::text::normalize_text(joined.as_str())
}

/// A change to a file in the vault.
#[derive(Debug, Clone)]
pub enum VaultEvent {
    Created(String),
    Modified(String),
    Renamed(String),
    Deleted(String),
}

/// An event as plain values: its kind (created, modified, renamed, deleted
/// as 0 to 3) and its path.
pub open spec fn event_view(e: VaultEvent) -> (int, Seq<char>) {
    match e {
        VaultEvent::Created(p) => (0, p@),
        VaultEvent::Modified(p) => (1, p@),
        VaultEvent::Renamed(p) => (2, p@),
        VaultEvent::Deleted(p) => (3, p@),
    }
}

/// The path an event is about.
pub fn event_path(event: &VaultEvent) -> (r: &String)
    ensures
        r@ == event_view(*event).1,
{
    match event {
        VaultEvent::Created(p) | VaultEvent::Modified(p) | VaultEvent::Renamed(p) | VaultEvent::Deleted(p) => p,
    }
}

/// A copy of an event.
fn copy_event(e: &VaultEvent) -> (r: VaultEvent)
    ensures
        event_view(r) == event_view(*e),
{
    match e {
        VaultEvent::Created(p) => VaultEvent::Created(p.clone()),
        VaultEvent::Modified(p) => VaultEvent::Modified(p.clone()),
        VaultEvent::Renamed(p) => VaultEvent::Renamed(p.clone()),
        VaultEvent::Deleted(p) => VaultEvent::Deleted(p.clone()),
    }
}

/// Paths of a list of events, in order.
pub open spec fn event_paths(es: Seq<VaultEvent>) -> Seq<Seq<char>> {
    es.map_values(|e: VaultEvent| event_view(e).1)
}

/// The last of the first `n` events about `p`, if any.
pub open spec fn last_event_for(es: Seq<VaultEvent>, p: Seq<char>, n: int) -> Option<(int, Seq<char>)>
    decreases n,
{
    if n <= 0 {
        None
    } else if event_view(es[n - 1]).1 == p {
        Some(event_view(es[n - 1]))
    } else {
        last_event_for(es, p, n - 1)
    }
}

/// Position of the event about `p`, if any.
fn find_event_path(out: &Vec<VaultEvent>, p: &str) -> (r: Option<usize>)
    ensures
        match r {
            Some(j) => j < out@.len() && event_view(out@[j as int]).1 == p@,
            None => forall|q: int| 0 <= q < out@.len() ==> event_view(#[trigger] out@[q]).1 != p@,
        },
{
    let mut j: usize = 0;
    while j < out.len()
        invariant
            j <= out@.len(),
            forall|q: int| 0 <= q < j ==> event_view(#[trigger] out@[q]).1 != p@,
        decreases out.len() - j,
    {
        if crate::text::str_eq(event_path(&out[j]).as_str(), p) {
            return Some(j);
        }
        j = j + 1;
    }
    None
}

/// A burst of events reduced to one per path: the paths in the order first
/// seen, each with the last event about it.
pub fn coalesce_events(events: &Vec<VaultEvent>) -> (r: Vec<VaultEvent>)
    ensures
        event_paths(r@) == crate::order::dedup(event_paths(events@)),
        forall|k: int|
            0 <= k < r@.len() ==> Some(event_view(#[trigger] r@[k])) == last_event_for(
                events@,
                event_view(r@[k]).1,
                events@.len() as int,
            ),
{
    let mut out: Vec<VaultEvent> = Vec::new();
    let mut i: usize = 0;
    while i < events.len()
        invariant
            i <= events@.len(),
            event_paths(out@) == crate::order::dedup(event_paths(events@.take(i as int))),
            forall|k: int|
                0 <= k < out@.len() ==> Some(event_view(#[trigger] out@[k])) == last_event_for(
                    events@,
                    event_view(out@[k]).1,
                    i as int,
                ),
        decreases events.len() - i,
    {
        let e = &events[i];
        let p = event_path(e);
        proof {
            assert(event_paths(events@.take(i + 1)).drop_last() =~= event_paths(events@.take(i as int)));
            assert(event_paths(events@.take(i + 1)).last() == p@);
        }
        let ghost before = out@;
        proof {
            crate::order::lemma_dedup_distinct(event_paths(events@.take(i as int)));
        }
        let slot = find_event_path(&out, p.as_str());
        let found = slot.is_some();
        let j: usize = match slot {
            Some(x) => x,
            None => 0,
        };
        if found {
            let c = copy_event(e);
            out.set(j, c);
            proof {
                assert(event_paths(out@) =~= event_paths(before));
                assert(event_paths(before)[j as int] == p@);
                assert(event_paths(before).contains(p@));
            }
        } else {
            let c = copy_event(e);
            out.push(c);
            proof {
                assert(event_paths(out@) =~= event_paths(before).push(p@));
                assert(!event_paths(before).contains(p@)) by {
                    if event_paths(before).contains(p@) {
                        let q = choose|q: int| 0 <= q < event_paths(before).len() && event_paths(before)[q] == p@;
                        assert(event_view(before[q]).1 == p@);
                    }
                }
            }
        }
        proof {
            assert forall|k: int| 0 <= k < out@.len() implies Some(event_view(#[trigger] out@[k])) == last_event_for(
                events@,
                event_view(out@[k]).1,
                i + 1,
            ) by {
                if event_view(out@[k]).1 == p@ {
                    if found && k != j {
                        assert(event_view(before[k]).1 == p@);
                        assert(event_paths(before)[k] == event_paths(before)[j as int]);
                    }
                } else {
                    assert(out@[k] == before[k]);
                }
            }
        }
        i = i + 1;
    }
    proof {
        assert(events@.take(events@.len() as int) =~= events@);
    }
    out
}

/// What the indexer does for an event: re-read the file, or drop it.
pub fn event_removes_note(event: &VaultEvent) -> (r: bool)
    ensures
        r == (event_view(*event).0 == 3),
{
    match event {
        VaultEvent::Deleted(_) => true,
        _ => false,
    }
}

} // verus!
