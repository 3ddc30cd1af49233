//! How citation verdicts are shown: reasons, badges, colours, the terminal
//! summary and the standalone HTML proof report.
use vstd::prelude::*;

use crate::cite::CitationStatus;
use crate::claims::{decimal, push_str_chars, usize_decimal};
use crate::text::{
    chars_of, collapse_whitespace, collapse_ws, find_chars, find_from, string_of,
    string_of_range, trim, trim_bounds,
};
use crate::validator::count_status;

verus! {

/// One line of a report on citations: a piece of text and the status of its citation.
#[derive(Debug, Clone)]
pub struct VerdictLine {
    pub text: String,
    pub status: CitationStatus,
}

/// Rendering switches.
#[derive(Debug, Clone, Copy)]
pub struct RenderOpts {
    pub color: bool,
    /// Show the "a naive tool would have shown all of this" contrast block.
    pub show_naive_contrast: bool,
}

/// Plain-English reason for a verdict.
pub open spec fn reason_text(status: CitationStatus) -> Seq<char> {
    match status {
        CitationStatus::Verified => "source verbatim contains this; hash matches"@,
        CitationStatus::Unverified => "cited a claim id that does not exist (hallucinated)"@,
        CitationStatus::FingerprintMismatch => "source span changed since extraction \u{2014} hash mismatch"@,
        CitationStatus::QuoteMismatch => "quoted text is not in the cited source span"@,
        CitationStatus::Superseded => "claim was superseded/retracted (valid_until has passed)"@,
    }
}

/// Plain-English reason a citation was rejected, flagged, or accepted.
pub fn reason(status: CitationStatus) -> (r: &'static str)
    ensures
        r@ == reason_text(status),
{
    match status {
        CitationStatus::Verified => "source verbatim contains this; hash matches",
        CitationStatus::Unverified => "cited a claim id that does not exist (hallucinated)",
        CitationStatus::FingerprintMismatch => "source span changed since extraction \u{2014} hash mismatch",
        CitationStatus::QuoteMismatch => "quoted text is not in the cited source span",
        CitationStatus::Superseded => "claim was superseded/retracted (valid_until has passed)",
    }
}

/// ANSI colour code of a verdict badge.
pub fn color_code(status: CitationStatus) -> (r: &'static str)
    ensures
        r@ == (match status {
            CitationStatus::Verified => "1;32"@,
            CitationStatus::Superseded => "1;33"@,
            _ => "1;31"@,
        }),
{
    match status {
        CitationStatus::Verified => "1;32",
        CitationStatus::Superseded => "1;33",
        _ => "1;31",
    }
}

/// Fixed-width badge of a verdict.
pub fn badge_label(status: CitationStatus) -> (r: &'static str)
    ensures
        r@ == (match status {
            CitationStatus::Verified => "\u{2713} VERIFIED  "@,
            CitationStatus::Superseded => "\u{26a0} SUPERSEDED"@,
            _ => "\u{2717} REJECTED  "@,
        }),
{
    match status {
        CitationStatus::Verified => "\u{2713} VERIFIED  ",
        CitationStatus::Superseded => "\u{26a0} SUPERSEDED",
        _ => "\u{2717} REJECTED  ",
    }
}

/// `s` wrapped in the ANSI escape for `code` when colour is on.
pub open spec fn painted(color: bool, code: Seq<char>, s: Seq<char>) -> Seq<char> {
    if color {
        "\u{1b}["@ + code + "m"@ + s + "\u{1b}[0m"@
    } else {
        s
    }
}

/// `s` wrapped in the ANSI escape for `code` when colour is on.
pub fn paint(color: bool, code: &str, s: &str) -> (r: String)
    ensures
        r@ == painted(color, code@, s@),
{
    if color {
        let mut out: Vec<char> = Vec::new();
        push_str_chars(&mut out, "\u{1b}[");
        push_str_chars(&mut out, code);
        push_str_chars(&mut out, "m");
        push_str_chars(&mut out, s);
        push_str_chars(&mut out, "\u{1b}[0m");
        string_of(&out)
    } else {
        s.to_string()
    }
}

/// The text of a verdict line: green when verified, yellow when superseded,
/// struck through in red (or marked `[rejected]` without colour) otherwise.
pub open spec fn line_shown(color: bool, status: CitationStatus, text: Seq<char>) -> Seq<char> {
    match status {
        CitationStatus::Verified => painted(color, "32"@, text),
        CitationStatus::Superseded => painted(color, "33"@, text),
        _ => if color {
            "\u{1b}[9m\u{1b}[31m"@ + text + "\u{1b}[0m"@
        } else {
            "[rejected] "@ + text
        },
    }
}

/// The text of a verdict line (see `line_shown`).
pub fn line_text(color: bool, status: CitationStatus, text: &str) -> (r: String)
    ensures
        r@ == line_shown(color, status, text@),
{
    match status {
        CitationStatus::Verified => paint(color, "32", text),
        CitationStatus::Superseded => paint(color, "33", text),
        _ => {
            let mut out: Vec<char> = Vec::new();
            if color {
                push_str_chars(&mut out, "\u{1b}[9m\u{1b}[31m");
                push_str_chars(&mut out, text);
                push_str_chars(&mut out, "\u{1b}[0m");
            } else {
                push_str_chars(&mut out, "[rejected] ");
                push_str_chars(&mut out, text);
            }
            string_of(&out)
        },
    }
}

/// Whitespace runs collapsed to single spaces, ends trimmed.
pub fn one_line(s: &str) -> (r: String)
    ensures
        r@ == collapse_ws(s@),
{
    let v = chars_of(s);
    let c = collapse_whitespace(&v);
    string_of(&c)
}

/// Statuses of verdict lines, in order.
pub open spec fn line_statuses(lines: Seq<VerdictLine>) -> Seq<CitationStatus> {
    lines.map_values(|l: VerdictLine| l.status)
}

/// A rejected citation is neither verified nor superseded.
pub open spec fn is_rejected(x: CitationStatus) -> bool {
    x != CitationStatus::Verified && x != CitationStatus::Superseded
}

/// Count of (verified, rejected, superseded) lines; "rejected" folds together
/// hallucinated ids and fingerprint or quote mismatches.
pub fn tally(lines: &Vec<VerdictLine>) -> (r: (usize, usize, usize))
    ensures
        r.0 == count_status(line_statuses(lines@), |x: CitationStatus| x == CitationStatus::Verified),
        r.1 == count_status(line_statuses(lines@), |x: CitationStatus| is_rejected(x)),
        r.2 == count_status(line_statuses(lines@), |x: CitationStatus| x == CitationStatus::Superseded),
        r.0 + r.1 + r.2 == lines@.len(),
{
    let mut v: usize = 0;
    let mut rj: usize = 0;
    let mut s: usize = 0;
    let mut i: usize = 0;
    while i < lines.len()
        invariant
            i <= lines@.len(),
            v == count_status(line_statuses(lines@.take(i as int)), |x: CitationStatus| x == CitationStatus::Verified),
            rj == count_status(line_statuses(lines@.take(i as int)), |x: CitationStatus| is_rejected(x)),
            s == count_status(line_statuses(lines@.take(i as int)), |x: CitationStatus| x == CitationStatus::Superseded),
            v + rj + s == i,
        decreases lines.len() - i,
    {
        let st = lines[i].status;
        proof {
            assert(line_statuses(lines@.take(i + 1)).drop_last() =~= line_statuses(lines@.take(i as int)));
            assert(line_statuses(lines@.take(i + 1)).last() == st);
        }
        match st {
            CitationStatus::Verified => {
                v = v + 1;
            },
            CitationStatus::Superseded => {
                s = s + 1;
            },
            _ => {
                rj = rj + 1;
            },
        }
        i = i + 1;
    }
    proof {
        assert(lines@.take(lines@.len() as int) =~= lines@);
    }
    (v, rj, s)
}

/// HTML escaping of one character.
pub open spec fn escape_char(c: char) -> Seq<char> {
    if c == '&' {
        "&amp;"@
    } else if c == '<' {
        "&lt;"@
    } else if c == '>' {
        "&gt;"@
    } else {
        seq![c]
    }
}

/// `&`, `<` and `>` replaced by their HTML entities.
pub open spec fn escaped(s: Seq<char>) -> Seq<char>
    decreases s.len(),
{
    if s.len() == 0 {
        Seq::empty()
    } else {
        escaped(s.drop_last()) + escape_char(s.last())
    }
}

/// Escapes text for inclusion in HTML element content (see `escaped`).
pub fn html_escape(s: &str) -> (r: String)
    ensures
        r@ == escaped(s@),
{
    let v = chars_of(s);
    let mut out: Vec<char> = Vec::new();
    let mut i: usize = 0;
    while i < v.len()
        invariant
            v@ == s@,
            i <= v@.len(),
            out@ == escaped(v@.take(i as int)),
        decreases v.len() - i,
    {
        let c = v[i];
        proof {
            assert(v@.take(i + 1).drop_last() =~= v@.take(i as int));
        }
        if c == '&' {
            push_str_chars(&mut out, "&amp;");
        } else if c == '<' {
            push_str_chars(&mut out, "&lt;");
        } else if c == '>' {
            push_str_chars(&mut out, "&gt;");
        } else {
            out.push(c);
            proof {
                assert(seq![c] =~= Seq::<char>::empty().push(c));
            }
        }
        i = i + 1;
    }
    proof {
        assert(v@.take(v@.len() as int) =~= v@);
    }
    string_of(&out)
}

/// The answer text shown as proven: its one-line form, or a note that
/// nothing could be verified when it is blank.
pub open spec fn proven_text(clean_text: Seq<char>) -> Seq<char> {
    if trim(clean_text).len() == 0 {
        "(nothing \u{2014} none of the citations could be verified)"@
    } else {
        collapse_ws(clean_text)
    }
}

/// Card class and label of a verdict in the HTML report.
pub open spec fn card_style(status: CitationStatus) -> (Seq<char>, Seq<char>) {
    match status {
        CitationStatus::Verified => ("ok"@, "VERIFIED"@),
        CitationStatus::Superseded => ("warn"@, "SUPERSEDED"@),
        CitationStatus::Unverified => ("bad"@, "REJECTED \u{2014} hallucinated id"@),
        CitationStatus::FingerprintMismatch => ("bad"@, "REJECTED \u{2014} hash mismatch"@),
        CitationStatus::QuoteMismatch => ("bad"@, "REJECTED \u{2014} quote not in source"@),
    }
}

/// One card of the HTML report.
pub open spec fn card_html(l: VerdictLine) -> Seq<char> {
    let text = if l.status == CitationStatus::Verified || l.status == CitationStatus::Superseded {
        escaped(l.text@)
    } else {
        "<s>"@ + escaped(l.text@) + "</s>"@
    };
    "<div class=\"card "@ + card_style(l.status).0 + "\"><span class=\"label\">"@ + card_style(l.status).1
        + "</span><div class=\"sentence\">"@ + text + "</div><div class=\"reason\">"@ + escaped(
        reason_text(l.status),
    ) + "</div></div>\n"@
}

/// Cards of the first `n` lines.
pub open spec fn cards_html(lines: Seq<VerdictLine>, n: int) -> Seq<char>
    decreases n,
{
    if n <= 0 {
        Seq::empty()
    } else {
        cards_html(lines, n - 1) + card_html(lines[n - 1])
    }
}

/// Page head of the HTML report, up to the cards.
pub open spec fn report_head() -> Seq<char> {
    "<!doctype html><html><head><meta charset=\"utf-8\"><title>Memora Proof Report</title><style>:root{color-scheme:dark}body{font:16px/1.5 -apple-system,Segoe UI,Roboto,sans-serif;background:#0b0f14;color:#e6edf3;max-width:760px;margin:40px auto;padding:0 20px}h1{font-size:22px}.sub{color:#8b949e;margin-bottom:24px}.card{border-left:4px solid #30363d;background:#11161d;border-radius:8px;padding:14px 16px;margin:12px 0}.card.ok{border-color:#2ea043}.card.bad{border-color:#f85149}.card.warn{border-color:#d29922}.label{font-size:12px;font-weight:700;letter-spacing:.04em}.card.ok .label{color:#3fb950}.card.bad .label{color:#ff7b72}.card.warn .label{color:#e3b341}.sentence{margin:6px 0;font-size:17px}.sentence s{color:#ff7b72;text-decoration-color:#f85149}.reason{color:#8b949e;font-size:14px}.final{margin-top:28px;padding:16px;background:#0d1117;border:1px solid #30363d;border-radius:8px}.final .k{color:#8b949e;font-size:13px}.final .v{color:#3fb950;margin-top:6px}</style></head><body><h1>Memora Proof Report</h1><div class=\"sub\">Every citation re-read against the source span and re-hashed. No API key, nothing mocked.</div>"@
}

/// Text between the cards and the proven answer.
pub open spec fn report_mid() -> Seq<char> {
    "<div class=\"final\"><div class=\"k\">A naive tool returns all of the above as fact. memora returns only what it could prove:</div><div class=\"v\">"@
}

/// Page end after the proven answer.
pub open spec fn report_tail() -> Seq<char> {
    "</div></div></body></html>"@
}

/// The HTML proof report: a card per line, then the proven answer.
pub open spec fn report_html(lines: Seq<VerdictLine>, clean_text: Seq<char>) -> Seq<char> {
    report_head() + cards_html(lines, lines.len() as int) + report_mid() + (if trim(clean_text).len() == 0 {
        proven_text(clean_text)
    } else {
        escaped(proven_text(clean_text))
    }) + report_tail()
}

fn push_string(out: &mut Vec<char>, s: &String)
    ensures
        final(out)@ == old(out)@ + s@,
{
    push_str_chars(out, s.as_str());
}

/// A standalone, dependency-free HTML proof report (see `report_html`).
pub fn render_html(lines: &Vec<VerdictLine>, clean_text: &str) -> (r: String)
    ensures
        r@ == report_html(lines@, clean_text@),
{
    let mut out: Vec<char> = Vec::new();
    push_str_chars(&mut out, "<!doctype html><html><head><meta charset=\"utf-8\"><title>Memora Proof Report</title><style>:root{color-scheme:dark}body{font:16px/1.5 -apple-system,Segoe UI,Roboto,sans-serif;background:#0b0f14;color:#e6edf3;max-width:760px;margin:40px auto;padding:0 20px}h1{font-size:22px}.sub{color:#8b949e;margin-bottom:24px}.card{border-left:4px solid #30363d;background:#11161d;border-radius:8px;padding:14px 16px;margin:12px 0}.card.ok{border-color:#2ea043}.card.bad{border-color:#f85149}.card.warn{border-color:#d29922}.label{font-size:12px;font-weight:700;letter-spacing:.04em}.card.ok .label{color:#3fb950}.card.bad .label{color:#ff7b72}.card.warn .label{color:#e3b341}.sentence{margin:6px 0;font-size:17px}.sentence s{color:#ff7b72;text-decoration-color:#f85149}.reason{color:#8b949e;font-size:14px}.final{margin-top:28px;padding:16px;background:#0d1117;border:1px solid #30363d;border-radius:8px}.final .k{color:#8b949e;font-size:13px}.final .v{color:#3fb950;margin-top:6px}</style></head><body><h1>Memora Proof Report</h1><div class=\"sub\">Every citation re-read against the source span and re-hashed. No API key, nothing mocked.</div>");
    let ghost head = out@;
    let mut i: usize = 0;
    while i < lines.len()
        invariant
            i <= lines@.len(),
            head == report_head(),
            out@ == head + cards_html(lines@, i as int),
        decreases lines.len() - i,
    {
        let l = &lines[i];
        let (cls, label) = match l.status {
            CitationStatus::Verified => ("ok", "VERIFIED"),
            CitationStatus::Superseded => ("warn", "SUPERSEDED"),
            CitationStatus::Unverified => ("bad", "REJECTED \u{2014} hallucinated id"),
            CitationStatus::FingerprintMismatch => ("bad", "REJECTED \u{2014} hash mismatch"),
            CitationStatus::QuoteMismatch => ("bad", "REJECTED \u{2014} quote not in source"),
        };
        let text = html_escape(l.text.as_str());
        let why = html_escape(reason(l.status));
        let ghost before = out@;
        push_str_chars(&mut out, "<div class=\"card ");
        push_str_chars(&mut out, cls);
        push_str_chars(&mut out, "\"><span class=\"label\">");
        push_str_chars(&mut out, label);
        push_str_chars(&mut out, "</span><div class=\"sentence\">");
        let struck = !(l.status == CitationStatus::Verified || l.status == CitationStatus::Superseded);
        if struck {
            push_str_chars(&mut out, "<s>");
        }
        push_string(&mut out, &text);
        if struck {
            push_str_chars(&mut out, "</s>");
        }
        push_str_chars(&mut out, "</div><div class=\"reason\">");
        push_string(&mut out, &why);
        push_str_chars(&mut out, "</div></div>\n");
        proof {
            assert(out@ =~= before + card_html(lines@[i as int]));
        }
        i = i + 1;
    }
    push_str_chars(&mut out, "<div class=\"final\"><div class=\"k\">A naive tool returns all of the above as fact. memora returns only what it could prove:</div><div class=\"v\">");
    let v = chars_of(clean_text);
    let (a, b) = trim_bounds(&v, 0, v.len());
    proof {
        assert(v@.subrange(0, v@.len() as int) =~= v@);
    }
    if a == b {
        push_str_chars(&mut out, "(nothing \u{2014} none of the citations could be verified)");
    } else {
        let one = one_line(clean_text);
        let esc = html_escape(one.as_str());
        push_string(&mut out, &esc);
    }
    push_str_chars(&mut out, "</div></div></body></html>");
    proof {
        assert(lines@.len() == i);
    }
    string_of(&out)
}

/// Sentence-ending punctuation.
pub open spec fn is_stop(c: char) -> bool {
    c == '.' || c == '!' || c == '?'
}

/// Index of the last sentence break (punctuation or line break) before `p`, or -1.
pub open spec fn last_break_before(s: Seq<char>, p: int) -> int
    decreases p,
{
    if p <= 0 {
        -1
    } else if is_stop(s[p - 1]) || s[p - 1] == '\n' {
        p - 1
    } else {
        last_break_before(s, p - 1)
    }
}

/// Index of the first sentence-ending punctuation at or after `p`, if any.
pub open spec fn first_stop_from(s: Seq<char>, p: int) -> Option<int>
    decreases s.len() - p,
{
    if p < 0 || p >= s.len() {
        None
    } else if is_stop(s[p]) {
        Some(p)
    } else {
        first_stop_from(s, p + 1)
    }
}

/// The marker text of a claim id.
pub open spec fn marker_text(claim_id: Seq<char>) -> Seq<char> {
    "[claim:"@ + claim_id + "]"@
}

/// The trimmed sentence holding the first marker of `claim_id`: from after the
/// last break before the marker to the first sentence end after it; the bare
/// marker when `text` does not cite the id.
pub open spec fn sentence_of_marker(text: Seq<char>, claim_id: Seq<char>) -> Seq<char> {
    match find_from(text, marker_text(claim_id), 0) {
        None => marker_text(claim_id),
        Some(pos) => {
            let start = last_break_before(text, pos) + 1;
            let end = match first_stop_from(text, pos) {
                Some(k) => k + 1,
                None => text.len() as int,
            };
            trim(text.subrange(start, end))
        },
    }
}

/// The sentence of `text` that cites `claim_id` (see `sentence_of_marker`).
pub fn sentence_for_marker(text: &str, claim_id: &str) -> (r: String)
    ensures
        r@ == sentence_of_marker(text@, claim_id@),
{
    let mut mk: Vec<char> = Vec::new();
    push_str_chars(&mut mk, "[claim:");
    push_str_chars(&mut mk, claim_id);
    push_str_chars(&mut mk, "]");
    let v = chars_of(text);
    let pos = match find_chars(&v, &mk) {
        None => return string_of(&mk),
        Some(p) => p,
    };
    let mut a = pos;
    while a > 0 && !(v[a - 1] == '.' || v[a - 1] == '!' || v[a - 1] == '?' || v[a - 1] == '\n')
        invariant
            a <= pos <= v@.len(),
            last_break_before(v@, pos as int) == last_break_before(v@, a as int),
        decreases a,
    {
        a = a - 1;
    }
    let mut b = pos;
    while b < v.len() && !(v[b] == '.' || v[b] == '!' || v[b] == '?')
        invariant
            pos <= b <= v@.len(),
            first_stop_from(v@, pos as int) == first_stop_from(v@, b as int),
        decreases v.len() - b,
    {
        b = b + 1;
    }
    let end = if b < v.len() {
        b + 1
    } else {
        v.len()
    };
    let (x, y) = trim_bounds(&v, a, end);
    string_of_range(&v, x, y)
}


/// Colour code of a verdict badge (see `color_code`).
pub open spec fn badge_color(status: CitationStatus) -> Seq<char> {
    match status {
        CitationStatus::Verified => "1;32"@,
        CitationStatus::Superseded => "1;33"@,
        _ => "1;31"@,
    }
}

/// Badge of a verdict (see `badge_label`).
pub open spec fn badge_text(status: CitationStatus) -> Seq<char> {
    match status {
        CitationStatus::Verified => "\u{2713} VERIFIED  "@,
        CitationStatus::Superseded => "\u{26a0} SUPERSEDED"@,
        _ => "\u{2717} REJECTED  "@,
    }
}

/// The three terminal lines shown for one citation: badge and reason, the text, a gap.
pub open spec fn verdict_block(color: bool, l: VerdictLine) -> Seq<Seq<char>> {
    seq![
        painted(color, badge_color(l.status), badge_text(l.status)) + "  "@ + painted(
            color,
            "2"@,
            reason_text(l.status),
        ),
        "   "@ + line_shown(color, l.status, l.text@),
        Seq::<char>::empty(),
    ]
}

/// The blocks of the first `n` verdicts.
pub open spec fn verdict_blocks(color: bool, lines: Seq<VerdictLine>, n: int) -> Seq<Seq<char>>
    decreases n,
{
    if n <= 0 {
        Seq::empty()
    } else {
        verdict_blocks(color, lines, n - 1) + verdict_block(color, lines[n - 1])
    }
}

/// The verdict totals line.
pub open spec fn totals_line(color: bool, v: nat, r: nat, s: nat) -> Seq<char> {
    "  "@ + painted(color, "1;32"@, decimal(v) + " verified"@) + "   "@ + painted(
        color,
        "1;31"@,
        decimal(r) + " rejected"@,
    ) + "   "@ + painted(color, "1;33"@, decimal(s) + " superseded"@)
}

/// Everything the terminal verdict shows, line by line: one block per verdict,
/// the totals, the naive contrast when asked for, and what could be proven.
pub open spec fn terminal_lines(
    lines: Seq<VerdictLine>,
    clean_text: Seq<char>,
    raw_text: Seq<char>,
    opts: RenderOpts,
) -> Seq<Seq<char>> {
    let c = opts.color;
    let st = line_statuses(lines);
    let v = count_status(st, |x: CitationStatus| x == CitationStatus::Verified);
    let r = count_status(st, |x: CitationStatus| is_rejected(x));
    let s = count_status(st, |x: CitationStatus| x == CitationStatus::Superseded);
    verdict_blocks(c, lines, lines.len() as int) + seq![
        painted(c, "1"@, "Verdict"@),
        totals_line(c, v, r, s),
        Seq::<char>::empty(),
    ] + (if opts.show_naive_contrast {
        seq![
            painted(c, "2"@, "A naive RAG/prompt-cite tool would have shown all of this as fact:"@),
            "   "@ + painted(c, "2"@, collapse_ws(raw_text)),
            Seq::<char>::empty(),
        ]
    } else {
        Seq::empty()
    }) + seq![
        painted(c, "1"@, "What memora returns (only what it could prove):"@),
        "   "@ + painted(c, "32"@, proven_text(clean_text)),
    ]
}

/// `a` followed by `b`, as a string.
fn cat(a: &str, b: &str) -> (r: String)
    ensures
        r@ == a@ + b@,
{
    let mut out: Vec<char> = Vec::new();
    push_str_chars(&mut out, a);
    push_str_chars(&mut out, b);
    string_of(&out)
}

/// `n` followed by a word, as a string.
fn count_word(n: usize, word: &str) -> (r: String)
    ensures
        r@ == decimal(n as nat) + word@,
{
    let mut out = usize_decimal(n);
    push_str_chars(&mut out, word);
    string_of(&out)
}

/// The answer text shown as proven (see `proven_text`).
fn proven(clean_text: &str) -> (r: String)
    ensures
        r@ == proven_text(clean_text@),
{
    let v = chars_of(clean_text);
    let (a, b) = trim_bounds(&v, 0, v.len());
    proof {
        assert(v@.subrange(0, v@.len() as int) =~= v@);
    }
    if a == b {
        "(nothing \u{2014} none of the citations could be verified)".to_string()
    } else {
        one_line(clean_text)
    }
}

/// The terminal verdict, line by line (see `terminal_lines`); the caller
/// prints each line.
pub fn render_terminal(lines: &Vec<VerdictLine>, clean_text: &str, raw_text: &str, opts: &RenderOpts) -> (r: Vec<String>)
    ensures
        crate::order::texts(r@) == terminal_lines(lines@, clean_text@, raw_text@, *opts),
{
    let c = opts.color;
    let mut out: Vec<String> = Vec::new();
    let mut i: usize = 0;
    while i < lines.len()
        invariant
            i <= lines@.len(),
            c == opts.color,
            crate::order::texts(out@) == verdict_blocks(c, lines@, i as int),
        decreases lines.len() - i,
    {
        let l = &lines[i];
        let badge = paint(c, color_code(l.status), badge_label(l.status));
        let why = paint(c, "2", reason(l.status));
        let head = cat(cat(badge.as_str(), "  ").as_str(), why.as_str());
        let body = cat("   ", line_text(c, l.status, l.text.as_str()).as_str());
        out.push(head);
        out.push(body);
        out.push(String::new());
        proof {
            assert(crate::order::texts(out@) =~= verdict_blocks(c, lines@, i as int) + verdict_block(c, lines@[i as int]));
        }
        i = i + 1;
    }
    let (v, rj, s) = tally(lines);
    out.push(paint(c, "1", "Verdict"));
    let t1 = paint(c, "1;32", count_word(v, " verified").as_str());
    let t2 = paint(c, "1;31", count_word(rj, " rejected").as_str());
    let t3 = paint(c, "1;33", count_word(s, " superseded").as_str());
    let totals = cat(cat(cat(cat(cat("  ", t1.as_str()).as_str(), "   ").as_str(), t2.as_str()).as_str(), "   ").as_str(), t3.as_str());
    out.push(totals);
    out.push(String::new());
    let ghost after_totals = crate::order::texts(out@);
    if opts.show_naive_contrast {
        out.push(paint(c, "2", "A naive RAG/prompt-cite tool would have shown all of this as fact:"));
        let raw = one_line(raw_text);
        out.push(cat("   ", paint(c, "2", raw.as_str()).as_str()));
        out.push(String::new());
    }
    out.push(paint(c, "1", "What memora returns (only what it could prove):"));
    let p = proven(clean_text);
    out.push(cat("   ", paint(c, "32", p.as_str()).as_str()));
    proof {
        assert(lines@.len() == i);
        assert(crate::order::texts(out@) =~= terminal_lines(lines@, clean_text@, raw_text@, *opts));
    }
    out
}

/// Escaped text holds no `<` or `>`: it cannot open or close markup.
pub proof fn lemma_escaped_has_no_markup(s: Seq<char>)
    ensures
        forall|k: int| 0 <= k < escaped(s).len() ==> #[trigger] escaped(s)[k] != '<' && escaped(s)[k] != '>',
    decreases s.len(),
{
    if s.len() > 0 {
        lemma_escaped_has_no_markup(s.drop_last());
        reveal_strlit("&amp;");
        reveal_strlit("&lt;");
        reveal_strlit("&gt;");
        let p = escaped(s.drop_last());
        let e = escape_char(s.last());
        assert forall|k: int| 0 <= k < escaped(s).len() implies #[trigger] escaped(s)[k] != '<' && escaped(s)[k] != '>' by {
            if k < p.len() {
                assert(escaped(s)[k] == p[k]);
            } else {
                assert(escaped(s)[k] == e[k - p.len()]);
            }
        }
    }
}


/// HTML text with the entities `&lt;`, `&gt;` and `&amp;` decoded, read from
/// the left.
pub open spec fn unescaped(t: Seq<char>) -> Seq<char>
    decreases t.len(),
{
    if t.len() == 0 {
        t
    } else if t.len() >= 4 && t.subrange(0, 4) == "&lt;"@ {
        seq!['<'] + unescaped(t.skip(4))
    } else if t.len() >= 4 && t.subrange(0, 4) == "&gt;"@ {
        seq!['>'] + unescaped(t.skip(4))
    } else if t.len() >= 5 && t.subrange(0, 5) == "&amp;"@ {
        seq!['&'] + unescaped(t.skip(5))
    } else {
        seq![t[0]] + unescaped(t.skip(1))
    }
}

proof fn lemma_escaped_front(s: Seq<char>)
    requires
        s.len() > 0,
    ensures
        escaped(s) == escape_char(s[0]) + escaped(s.drop_first()),
    decreases s.len(),
{
    if s.len() == 1 {
        assert(s.drop_last().len() == 0);
        assert(s.drop_first().len() == 0);
        assert(escaped(s.drop_last()).len() == 0);
        assert(escaped(s.drop_first()).len() == 0);
        assert(s.last() == s[0]);
        assert(escaped(s) == escaped(s.drop_last()) + escape_char(s.last()));
        assert(escaped(s) =~= escape_char(s[0]) + escaped(s.drop_first()));
    } else {
        lemma_escaped_front(s.drop_last());
        let a = s.drop_last();
        let b = s.drop_first();
        assert(a[0] == s[0]);
        assert(a.drop_first() =~= b.drop_last());
        assert(b.last() == s.last());
        assert(escaped(s) == escaped(a) + escape_char(s.last()));
        assert(escaped(a) == escape_char(s[0]) + escaped(b.drop_last()));
        assert(escaped(b) == escaped(b.drop_last()) + escape_char(s.last()));
        assert(escaped(s) =~= escape_char(s[0]) + escaped(s.drop_first()));
    }
}

proof fn lemma_unescape_step(c: char, r: Seq<char>)
    ensures
        unescaped(escape_char(c) + r) == seq![c] + unescaped(r),
{
    reveal_strlit("&amp;");
    reveal_strlit("&lt;");
    reveal_strlit("&gt;");
    let t = escape_char(c) + r;
    if c == '&' {
        assert(t.subrange(0, 4)[1] == 'a');
        assert(t.subrange(0, 5) =~= "&amp;"@);
        assert(t.skip(5) =~= r);
    } else if c == '<' {
        assert(t.subrange(0, 4) =~= "&lt;"@);
        assert(t.skip(4) =~= r);
    } else if c == '>' {
        assert(t.subrange(0, 4)[1] == 'g');
        assert(t.subrange(0, 4) =~= "&gt;"@);
        assert(t.skip(4) =~= r);
    } else {
        assert(t[0] == c);
        if t.len() >= 4 {
            assert(t.subrange(0, 4)[0] == c);
        }
        if t.len() >= 5 {
            assert(t.subrange(0, 5)[0] == c);
        }
        assert(t.skip(1) =~= r);
    }
}

/// Decoding the entities of escaped text gives the text back: escaping
/// loses nothing.
pub proof fn lemma_unescape_escaped(s: Seq<char>)
    ensures
        unescaped(escaped(s)) == s,
    decreases s.len(),
{
    if s.len() > 0 {
        lemma_escaped_front(s);
        lemma_unescape_step(s[0], escaped(s.drop_first()));
        lemma_unescape_escaped(s.drop_first());
        assert(seq![s[0]] + s.drop_first() =~= s);
    }
}

} // verus!
