//! Claim extraction: checking what a language model proposed against the note
//! it was extracted from, and turning the accepted records into claims.
use vstd::prelude::*;

use crate::cite::opt_view;
use crate::claims::{blake3_hex, claim_id_for, decimal, push_str_chars, usize_decimal, Claim};
use crate::privacy::Privacy;
use crate::privacy_markers::{level_for_span, privacy_for_span};
use crate::text::{
    byte_len, byte_len_of, find_char, find_char_from, is_ws, matches_at, seq_at,
    byte_offset, char_index_at_byte, char_index_of_byte, chars_of, chars_with_offsets,
    dashes_to_spaces, find_chars, find_from, lowercase, replace_dashes, string_of,
    string_of_range, trim, trim_bounds, unicode_lowercase,
};

verus! {

/// Optional string slice seen as an optional character sequence.
pub open spec fn opt_str_view(o: Option<&str>) -> Option<Seq<char>> {
    match o {
        Some(x) => Some(x@),
        None => None,
    }
}

/// Byte offset of the first occurrence of `needle` in `hay` (`str::find`).
pub open spec fn find_byte(hay: Seq<char>, needle: Seq<char>) -> Option<nat> {
    match find_from(hay, needle, 0) {
        Some(i) => Some(byte_offset(hay, i)),
        None => None,
    }
}

/// Byte offset of the first occurrence of `needle` in `hay`.
pub fn find_str(hay: &str, needle: &str) -> (r: Option<usize>)
    ensures
        match find_byte(hay@, needle@) {
            Some(b) => r is Some && r->0 == b,
            None => r is None,
        },
{
    let pair = chars_with_offsets(hay);
    let h = pair.0;
    let offs = pair.1;
    let n = chars_of(needle);
    match find_chars(&h, &n) {
        Some(i) => {
            assert(offs@[i as int] == byte_offset(hay@, i as int));
            Some(offs[i])
        },
        None => None,
    }
}

/// What `Path::new(path).file_stem()` returns, as text.
pub uninterp spec fn file_stem_of(path: Seq<char>) -> Option<Seq<char>>;

/// `std::path::Path::file_stem` on a path given as text: the final component
/// without its last extension. A stem that is not valid UTF-8 cannot arise
/// from a `&str` path. The result is named, not described.
#[verifier::external_body]
fn path_file_stem(path: &str) -> (r: Option<String>)
    ensures
        match file_stem_of(path@) {
            Some(s) => r matches Some(x) && x@ == s,
            None => r is None,
        },
{
    std::path::Path::new(path).file_stem().and_then(|s| s.to_str()).map(|s| s.to_string())
}

/// File name stem of a note path (`meeting-akmon.md` gives `meeting-akmon`),
/// or the empty string when the path has no file name.
pub fn note_title_stem(note_path: &str) -> (r: String)
    ensures
        r@ == (match file_stem_of(note_path@) {
            Some(s) => s,
            None => Seq::empty(),
        }),
{
    match path_file_stem(note_path) {
        Some(s) => s,
        None => String::new(),
    }
}

/// Lower-cased subject with `-` and `_` read as spaces, trimmed.
pub open spec fn subject_words(subject: Seq<char>) -> Seq<char> {
    trim(unicode_lowercase(dashes_to_spaces(subject)))
}

/// `subject` is evidenced in `text`: literally, case-insensitively, or as
/// its words (see `subject_words`) in the lower-cased text.
pub open spec fn evidenced(subject: Seq<char>, text: Seq<char>) -> bool {
    ||| find_from(text, subject, 0) is Some
    ||| find_from(unicode_lowercase(text), unicode_lowercase(subject), 0) is Some
    ||| (subject_words(subject).len() > 0 && find_from(
        unicode_lowercase(text),
        subject_words(subject),
        0,
    ) is Some)
}

fn contains_str(hay: &str, needle: &str) -> (b: bool)
    ensures
        b == (find_from(hay@, needle@, 0) is Some),
{
    let h = chars_of(hay);
    let n = chars_of(needle);
    find_chars(&h, &n).is_some()
}

/// Trimmed lower-case words of a subject (see `subject_words`).
fn words_of(subject: &str) -> (r: String)
    ensures
        r@ == subject_words(subject@),
{
    let replaced = replace_dashes(subject);
    let lower = lowercase(replaced.as_str());
    let v = chars_of(lower.as_str());
    let (a, b) = trim_bounds(&v, 0, v.len());
    proof {
        assert(v@.subrange(0, v@.len() as int) =~= v@);
    }
    string_of_range(&v, a, b)
}

/// Whether `subject` is evidenced in `text` (see `evidenced`).
pub fn subject_evidence_in_text(subject: &str, text: &str) -> (b: bool)
    ensures
        b == evidenced(subject@, text@),
{
    if contains_str(text, subject) {
        return true;
    }
    let text_lower = lowercase(text);
    let subject_lower = lowercase(subject);
    if contains_str(text_lower.as_str(), subject_lower.as_str()) {
        return true;
    }
    let sn = words_of(subject);
    if sn.as_str().is_empty() {
        return false;
    }
    contains_str(text_lower.as_str(), sn.as_str())
}

/// Match through the wikilinks from index `k`: the first link whose words equal
/// `sn`, located at its first literal occurrence in `body`, else at 0.
pub open spec fn wikilink_match(body: Seq<char>, sn: Seq<char>, links: Seq<String>, k: int) -> Option<
    (nat, Option<Seq<char>>),
>
    decreases links.len() - k,
{
    if k < 0 || k >= links.len() {
        None
    } else if subject_words(links[k]@) == sn {
        match find_byte(body, links[k]@) {
            Some(b) => Some((b, Some("wikilink"@))),
            None => Some((0nat, Some("wikilink"@))),
        }
    } else {
        wikilink_match(body, sn, links, k + 1)
    }
}

/// Where a subject is grounded, tried in order: literally in the body (no
/// kind), case-insensitively in the lower-cased body or by its words there
/// (`normalized`), by its words in the title stem (`title`, at 0), or as the
/// words of a wikilink (`wikilink`). The offset is in the text searched.
pub open spec fn subject_match(
    subject: Seq<char>,
    body: Seq<char>,
    title_stem: Seq<char>,
    links: Seq<String>,
) -> Option<(nat, Option<Seq<char>>)> {
    let lower_body = unicode_lowercase(body);
    let sn = subject_words(subject);
    if find_byte(body, subject) is Some {
        Some((find_byte(body, subject)->0, None))
    } else if find_byte(lower_body, unicode_lowercase(subject)) is Some {
        Some((find_byte(lower_body, unicode_lowercase(subject))->0, Some("normalized"@)))
    } else if sn.len() == 0 {
        None
    } else if find_byte(lower_body, sn) is Some {
        Some((find_byte(lower_body, sn)->0, Some("normalized"@)))
    } else if find_from(unicode_lowercase(dashes_to_spaces(title_stem)), sn, 0) is Some {
        Some((0nat, Some("title"@)))
    } else {
        wikilink_match(body, sn, links, 0)
    }
}

/// The spec view of a match result.
pub open spec fn match_view(r: Option<(usize, Option<&str>)>) -> Option<(nat, Option<Seq<char>>)> {
    match r {
        Some((b, k)) => Some((b as nat, opt_str_view(k))),
        None => None,
    }
}

/// Byte offset at which the subject is grounded, with how it matched
/// (see `subject_match`).
pub fn subject_match_start(
    subject: &str,
    body: &str,
    note_title_stem: &str,
    wikilinks: &Vec<String>,
) -> (r: Option<(usize, Option<&'static str>)>)
    ensures
        match_view(r) == subject_match(subject@, body@, note_title_stem@, wikilinks@),
{
    if let Some(start) = find_str(body, subject) {
        return Some((start, None));
    }
    let body_lower = lowercase(body);
    let subject_lower = lowercase(subject);
    if let Some(start) = find_str(body_lower.as_str(), subject_lower.as_str()) {
        return Some((start, Some("normalized")));
    }
    let sn = words_of(subject);
    if sn.as_str().is_empty() {
        return None;
    }
    if let Some(start) = find_str(body_lower.as_str(), sn.as_str()) {
        return Some((start, Some("normalized")));
    }
    let title_replaced = replace_dashes(note_title_stem);
    let title_normalized = lowercase(title_replaced.as_str());
    if contains_str(title_normalized.as_str(), sn.as_str()) {
        return Some((0, Some("title")));
    }
    assert(subject_match(subject@, body@, note_title_stem@, wikilinks@) == wikilink_match(
        body@,
        sn@,
        wikilinks@,
        0,
    ));
    let mut k: usize = 0;
    while k < wikilinks.len()
        invariant
            k <= wikilinks@.len(),
            sn@ == subject_words(subject@),
            subject_match(subject@, body@, note_title_stem@, wikilinks@) == wikilink_match(
                body@,
                sn@,
                wikilinks@,
                0,
            ),
            wikilink_match(body@, sn@, wikilinks@, 0) == wikilink_match(
                body@,
                sn@,
                wikilinks@,
                k as int,
            ),
        decreases wikilinks.len() - k,
    {
        let link = &wikilinks[k];
        let ln = words_of(link.as_str());
        if crate::text::str_eq(ln.as_str(), sn.as_str()) {
            if let Some(start) = find_str(body, link.as_str()) {
                return Some((start, Some("wikilink")));
            }
            return Some((0, Some("wikilink")));
        }
        k = k + 1;
    }
    None
}

/// `body.get(start..end)`: the text between two byte offsets, when both fall
/// on character boundaries in order.
pub open spec fn byte_slice(s: Seq<char>, start: int, end: int) -> Option<Seq<char>> {
    match (char_index_at_byte(s, start), char_index_at_byte(s, end)) {
        (Some(i), Some(j)) => if i <= j {
            Some(s.subrange(i, j))
        } else {
            None
        },
        _ => None,
    }
}

/// The text between two byte offsets of `s` (see `byte_slice`).
pub fn slice_bytes(s: &str, start: usize, end: usize) -> (r: Option<String>)
    ensures
        match byte_slice(s@, start as int, end as int) {
            Some(t) => r matches Some(x) && x@ == t,
            None => r is None,
        },
{
    let v = chars_of(s);
    match (char_index_of_byte(&v, start), char_index_of_byte(&v, end)) {
        (Some(i), Some(j)) => if i <= j {
            Some(string_of_range(&v, i, j))
        } else {
            None
        },
        _ => None,
    }
}

/// The note a claim is extracted from, as far as extraction reads it.
/// `created` is in nanoseconds since the Unix epoch.
#[derive(Debug, Clone)]
pub struct NoteMeta {
    pub id: String,
    pub path: String,
    pub created: i128,
    pub privacy: Privacy,
    pub wikilinks: Vec<String>,
}

/// One claim as proposed by the model, before it is checked.
///
/// Dates are the raw texts of the date fields when they were JSON strings;
/// confidence is in millionths.
#[derive(Debug, Clone)]
pub struct ClaimRecord {
    pub subject: Option<String>,
    pub predicate: Option<String>,
    pub object: Option<String>,
    pub span_start: i64,
    pub span_end: i64,
    pub valid_from: Option<String>,
    pub valid_until: Option<String>,
    pub confidence_millionths: Option<u32>,
}

/// How an extraction run ended.
#[derive(Debug, Clone, Copy, PartialEq, Eq, Structural)]
pub enum ClaimExtractionDisposition {
    Extracted,
    Empty,
    AllInvalidAfterRetry,
}

/// Why an extraction run failed.
#[derive(Debug, Clone)]
pub enum ClaimExtractionError {
    RateLimited,
    Parse(String),
    Llm(String),
}

/// Claims accepted from an extraction run and how the run ended.
#[derive(Debug, Clone)]
pub struct ClaimExtractionResult {
    pub claims: Vec<Claim>,
    pub disposition: ClaimExtractionDisposition,
}

/// The file stem of a path, or the empty text.
pub open spec fn stem_or_empty(path: Seq<char>) -> Seq<char> {
    match file_stem_of(path) {
        Some(s) => s,
        None => Seq::empty(),
    }
}

/// A span's trimmed text has between 5 and 300 characters.
pub open spec fn span_len_ok(t: Seq<char>) -> bool {
    5 <= trim(t).len() <= 300
}

/// The byte span a record is grounded at: the model's span when it lies in
/// the body on character boundaries, has a sensible length and evidences the
/// subject; otherwise the subject's match (see `subject_match`) and the 80
/// bytes after the subject, clipped to the body.
pub open spec fn resolve_span(
    item: ClaimRecord,
    note: NoteMeta,
    body: Seq<char>,
    subject: Seq<char>,
) -> Result<(nat, nat), Seq<char>> {
    if item.span_start < 0 || item.span_start > usize::MAX {
        Err("span_start does not fit usize"@)
    } else if item.span_end < 0 || item.span_end > usize::MAX {
        Err("span_end does not fit usize"@)
    } else {
        let a = item.span_start as int;
        let b = item.span_end as int;
        let blen = byte_len(body);
        let sl = byte_slice(body, a, b);
        if b > a && b <= blen && sl is Some && span_len_ok(sl->0) && evidenced(subject, sl->0) {
            Ok((a as nat, b as nat))
        } else {
            match subject_match(subject, body, stem_or_empty(note.path@), note.wikilinks@) {
                None => Err("subject not found in note body"@),
                Some((s, _)) => {
                    let want: int = s as int + byte_len(subject) + 80;
                    let e: int = if want < blen {
                        want
                    } else {
                        blen as int
                    };
                    if e <= s {
                        Err("recovered span invalid"@)
                    } else {
                        Ok((s, e as nat))
                    }
                },
            }
        }
    }
}

fn span_len_in_range(t: &str) -> (b: bool)
    ensures
        b == span_len_ok(t@),
{
    let v = chars_of(t);
    let (a, e) = trim_bounds(&v, 0, v.len());
    proof {
        assert(v@.subrange(0, v@.len() as int) =~= v@);
    }
    let n = e - a;
    5 <= n && n <= 300
}

fn err_text(msg: &str) -> (r: Result<(usize, usize), String>)
    ensures
        r matches Err(e) && e@ == msg@,
{
    Err(msg.to_string())
}

/// The byte span a record is grounded at (see `resolve_span`).
pub fn resolve_claim_span(
    item: &ClaimRecord,
    note: &NoteMeta,
    body: &str,
    subject: &str,
) -> (r: Result<(usize, usize), String>)
    ensures
        match resolve_span(*item, *note, body@, subject@) {
            Ok((a, b)) => r matches Ok(p) && p.0 == a && p.1 == b,
            Err(m) => r matches Err(e) && e@ == m,
        },
{
    let body_len = byte_len_of(body);
    let note_stem = note_title_stem(note.path.as_str());
    if item.span_start < 0 || item.span_start as i128 > usize::MAX as i128 {
        return err_text("span_start does not fit usize");
    }
    if item.span_end < 0 || item.span_end as i128 > usize::MAX as i128 {
        return err_text("span_end does not fit usize");
    }
    let a = item.span_start as usize;
    let b = item.span_end as usize;
    if b > a && b <= body_len {
        if let Some(slice) = slice_bytes(body, a, b) {
            if span_len_in_range(slice.as_str()) && subject_evidence_in_text(
                subject,
                slice.as_str(),
            ) {
                return Ok((a, b));
            }
        }
    }
    match subject_match_start(subject, body, note_stem.as_str(), &note.wikilinks) {
        None => err_text("subject not found in note body"),
        Some((s, _kind)) => {
            let sub_len = byte_len_of(subject);
            let e = s.saturating_add(sub_len).saturating_add(80);
            let e = if e < body_len {
                e
            } else {
                body_len
            };
            if e <= s {
                err_text("recovered span invalid")
            } else {
                Ok((s, e))
            }
        },
    }
}

/// The trimmed text of an optional field, when not empty.
pub open spec fn trimmed_field(f: Option<String>) -> Option<Seq<char>> {
    match f {
        Some(s) => if trim(s@).len() > 0 {
            Some(trim(s@))
        } else {
            None
        },
        None => None,
    }
}

/// A stand-in value that must not be stored as a claim field.
pub open spec fn is_placeholder(t: Seq<char>) -> bool {
    t == "..."@ || t == "[redacted]"@
}

/// The span accepted for a record, or the reason it is discarded, checked in
/// order: subject, predicate, placeholders, span, character boundaries, length.
pub open spec fn accepted_span(item: ClaimRecord, note: NoteMeta, body: Seq<char>) -> Result<
    (nat, nat),
    Seq<char>,
> {
    match trimmed_field(item.subject) {
        None => Err("missing or empty field: subject"@),
        Some(subj) => match trimmed_field(item.predicate) {
            None => Err("missing or empty field: predicate"@),
            Some(pred) => {
                let obj = match trimmed_field(item.object) {
                    Some(o) => o,
                    None => Seq::empty(),
                };
                if is_placeholder(subj) || is_placeholder(pred) || is_placeholder(obj) {
                    Err("invalid placeholder field value"@)
                } else {
                    match resolve_span(item, note, body, subj) {
                        Err(e) => Err(e),
                        Ok((a, b)) => match byte_slice(body, a as int, b as int) {
                            None => Err("invalid span: not on UTF-8 boundary"@),
                            Some(t) => if !span_len_ok(t) {
                                Err("invalid span text length: "@ + decimal(trim(t).len()))
                            } else {
                                Ok((a, b))
                            },
                        },
                    }
                }
            },
        },
    }
}

/// What `chrono::DateTime::parse_from_rfc3339(text)` yields, as the whole
/// seconds since the Unix epoch (`timestamp`) and the nanoseconds past them
/// (`timestamp_subsec_nanos`).
pub uninterp spec fn rfc3339_parts(text: Seq<char>) -> Option<(i64, u32)>;

/// Parses an RFC 3339 date-time with `chrono`: `DateTime::timestamp` and
/// `DateTime::timestamp_subsec_nanos` of the result, or `None` when the text
/// is not RFC 3339. The nanoseconds are below two billion (a leap second
/// counts past one billion). The parts themselves are named, not described.
#[verifier::external_body]
fn parse_rfc3339(text: &str) -> (r: Option<(i64, u32)>)
    ensures
        r == rfc3339_parts(text@),
        r matches Some(p) ==> p.1 < 2_000_000_000,
{
    chrono::DateTime::parse_from_rfc3339(text).ok().map(|dt| (dt.timestamp(), dt.timestamp_subsec_nanos()))
}

/// Nanoseconds since the Unix epoch of whole seconds and nanoseconds.
pub open spec fn nanos_of(secs: i64, nanos: u32) -> int {
    secs * 1_000_000_000 + nanos
}

/// An RFC 3339 date-time as nanoseconds since the Unix epoch.
pub open spec fn rfc3339_timestamp(text: Seq<char>) -> Option<i128> {
    match rfc3339_parts(text) {
        Some(p) => Some(nanos_of(p.0, p.1) as i128),
        None => None,
    }
}

/// An RFC 3339 date-time read as nanoseconds since the Unix epoch, if it is
/// one.
pub fn parse_rfc3339_text(text: &str) -> (r: Option<i128>)
    ensures
        r == rfc3339_timestamp(text@),
{
    match parse_rfc3339(text) {
        Some((secs, nanos)) => {
            assert(-0x8000_0000_0000_0000 * 1_000_000_000 <= secs * 1_000_000_000 <= 0x7fff_ffff_ffff_ffff * 1_000_000_000)
                by (nonlinear_arith)
                requires
                    -0x8000_0000_0000_0000 <= secs <= 0x7fff_ffff_ffff_ffff,
            ;
            let t: i128 = (secs as i128) * 1_000_000_000 + (nanos as i128);
            Some(t)
        },
        None => None,
    }
}

/// A date field read as a time, with a fallback for an absent or unreadable one.
pub open spec fn date_or(value: Option<String>, default: i128) -> i128 {
    match value {
        Some(s) => match rfc3339_timestamp(s@) {
            Some(t) => t,
            None => default,
        },
        None => default,
    }
}

/// A date field read as an optional time.
pub open spec fn optional_date(value: Option<String>) -> Option<i128> {
    match value {
        Some(s) => rfc3339_timestamp(s@),
        None => None,
    }
}

/// The time in a date field, or `default` when it is absent or not RFC 3339.
pub fn datetime_or_default(value: &Option<String>, default: i128) -> (r: i128)
    ensures
        r == date_or(*value, default),
{
    match value {
        Some(s) => match parse_rfc3339_text(s.as_str()) {
            Some(t) => t,
            None => default,
        },
        None => default,
    }
}

/// The time in a date field, if it holds an RFC 3339 text.
pub fn optional_datetime(value: &Option<String>) -> (r: Option<i128>)
    ensures
        r == optional_date(*value),
{
    match value {
        Some(s) => parse_rfc3339_text(s.as_str()),
        None => None,
    }
}

fn trimmed_opt(f: &Option<String>) -> (r: Option<String>)
    ensures
        match trimmed_field(*f) {
            Some(t) => r matches Some(x) && x@ == t,
            None => r is None,
        },
{
    match f {
        Some(s) => {
            let v = chars_of(s.as_str());
            let (a, b) = trim_bounds(&v, 0, v.len());
            proof {
                assert(v@.subrange(0, v@.len() as int) =~= v@);
            }
            if a == b {
                None
            } else {
                Some(string_of_range(&v, a, b))
            }
        },
        None => None,
    }
}

fn placeholder(t: &str) -> (b: bool)
    ensures
        b == is_placeholder(t@),
{
    crate::text::str_eq(t, "...") || crate::text::str_eq(t, "[redacted]")
}

fn span_err(msg: &str) -> (r: Result<Claim, String>)
    ensures
        r matches Err(e) && e@ == msg@,
{
    Err(msg.to_string())
}

/// `c` is the claim built from an accepted record: see `validate_extracted_record`.
pub open spec fn built_claim(
    c: Claim,
    item: ClaimRecord,
    note: NoteMeta,
    body: Seq<char>,
    marker_spans: Seq<(usize, usize, Privacy)>,
    model_label: Seq<char>,
    extracted_at: i128,
) -> bool {
    match accepted_span(item, note, body) {
        Err(_) => false,
        Ok((a, b)) => {
            let subj = trimmed_field(item.subject)->0;
            let pred = trimmed_field(item.predicate)->0;
            let obj = trimmed_field(item.object);
            &&& c.subject@ == subj
            &&& c.predicate@ == pred
            &&& opt_view(c.object) == obj
            &&& c.note_id@ == note.id@
            &&& c.span_start == a
            &&& c.span_end == b
            &&& c.id@ == claim_id_for(
                subj,
                pred,
                match obj {
                    Some(o) => o,
                    None => Seq::empty(),
                },
                note.id@,
                a,
            )
            &&& c.span_fingerprint@ == blake3_hex(
                vstd::utf8::encode_utf8(byte_slice(body, a as int, b as int)->0),
            )
            &&& c.valid_from == date_or(item.valid_from, note.created)
            &&& c.valid_until == optional_date(item.valid_until)
            &&& c.confidence_millionths == (match item.confidence_millionths {
                Some(x) => x,
                None => 700000u32,
            })
            &&& c.privacy == level_for_span(
                a as int,
                b as int,
                marker_spans,
                note.privacy,
                marker_spans.len() as int,
            )
            &&& c.extracted_by@ == model_label
            &&& c.extracted_at == extracted_at
        },
    }
}

/// Checks one proposed record against its note and builds the claim: fields
/// trimmed, span resolved (see `accepted_span`), level from the note and the
/// privacy markers, dates read with the note's creation as default, confidence
/// defaulting to 0.7.
pub fn validate_extracted_record(
    note: &NoteMeta,
    body: &str,
    marker_spans: &Vec<(usize, usize, Privacy)>,
    item: &ClaimRecord,
    model_label: &str,
    extracted_at: i128,
) -> (r: Result<Claim, String>)
    ensures
        match accepted_span(*item, *note, body@) {
            Err(m) => r matches Err(e) && e@ == m,
            Ok(_) => r matches Ok(c) && built_claim(
                c,
                *item,
                *note,
                body@,
                marker_spans@,
                model_label@,
                extracted_at,
            ),
        },
{
    let subject = match trimmed_opt(&item.subject) {
        Some(s) => s,
        None => return span_err("missing or empty field: subject"),
    };
    let predicate = match trimmed_opt(&item.predicate) {
        Some(p) => p,
        None => return span_err("missing or empty field: predicate"),
    };
    let object = trimmed_opt(&item.object);
    let object_text = match &object {
        Some(o) => o.clone(),
        None => String::new(),
    };
    if placeholder(subject.as_str()) || placeholder(predicate.as_str()) || placeholder(
        object_text.as_str(),
    ) {
        return span_err("invalid placeholder field value");
    }
    let (span_start, span_end) = match resolve_claim_span(item, note, body, subject.as_str()) {
        Ok(p) => p,
        Err(e) => return Err(e),
    };
    let span_text = match slice_bytes(body, span_start, span_end) {
        Some(t) => t,
        None => return span_err("invalid span: not on UTF-8 boundary"),
    };
    if !span_len_in_range(span_text.as_str()) {
        let v = chars_of(span_text.as_str());
        let (ta, tb) = trim_bounds(&v, 0, v.len());
        proof {
            assert(v@.subrange(0, v@.len() as int) =~= v@);
        }
        let mut out: Vec<char> = Vec::new();
        push_str_chars(&mut out, "invalid span text length: ");
        let digits = usize_decimal(tb - ta);
        let mut k: usize = 0;
        let ghost base = out@;
        while k < digits.len()
            invariant
                k <= digits@.len(),
                out@ == base + digits@.take(k as int),
            decreases digits.len() - k,
        {
            out.push(digits[k]);
            k = k + 1;
            proof {
                assert(digits@.take(k as int) =~= digits@.take(k - 1).push(digits@[k - 1]));
            }
        }
        proof {
            assert(digits@.take(digits@.len() as int) =~= digits@);
        }
        return Err(string_of(&out));
    }
    let valid_from = datetime_or_default(&item.valid_from, note.created);
    let valid_until = optional_datetime(&item.valid_until);
    let confidence = match item.confidence_millionths {
        Some(x) => x,
        None => 700000u32,
    };
    let privacy = privacy_for_span(span_start, span_end, marker_spans, note.privacy);
    let id = Claim::compute_id(
        subject.as_str(),
        predicate.as_str(),
        match &object {
            Some(o) => Some(o.as_str()),
            None => None,
        },
        note.id.as_str(),
        span_start,
    );
    let fingerprint = Claim::compute_fingerprint(span_text.as_str());
    Ok(Claim {
        id,
        subject,
        predicate,
        object,
        note_id: note.id.clone(),
        span_start,
        span_end,
        span_fingerprint: fingerprint,
        valid_from,
        valid_until,
        confidence_millionths: confidence,
        privacy,
        extracted_by: model_label.to_string(),
        extracted_at,
    })
}

/// Indices below `n` of the records that are accepted, in order.
pub open spec fn accepted_indices(
    records: Seq<ClaimRecord>,
    note: NoteMeta,
    body: Seq<char>,
    n: int,
) -> Seq<int>
    decreases n,
{
    if n <= 0 {
        Seq::empty()
    } else {
        let prev = accepted_indices(records, note, body, n - 1);
        if accepted_span(records[n - 1], note, body) is Ok {
            prev.push(n - 1)
        } else {
            prev
        }
    }
}

/// At most eight records are read from one model reply.
pub open spec fn max_records() -> int {
    8
}

/// Claims built from the first eight records that pass
/// `validate_extracted_record`, in order; the others are discarded.
pub fn validate_records(
    note: &NoteMeta,
    body: &str,
    marker_spans: &Vec<(usize, usize, Privacy)>,
    records: &Vec<ClaimRecord>,
    model_label: &str,
    extracted_at: i128,
) -> (r: Vec<Claim>)
    ensures
        ({
            let n = if records@.len() < 8 {
                records@.len() as int
            } else {
                8int
            };
            let idx = accepted_indices(records@, *note, body@, n);
            &&& r@.len() == idx.len()
            &&& forall|k: int|
                0 <= k < r@.len() ==> built_claim(
                    #[trigger] r@[k],
                    records@[idx[k]],
                    *note,
                    body@,
                    marker_spans@,
                    model_label@,
                    extracted_at,
                )
        }),
{
    let n: usize = if records.len() < 8 {
        records.len()
    } else {
        8
    };
    let mut claims: Vec<Claim> = Vec::new();
    let mut i: usize = 0;
    while i < n
        invariant
            i <= n <= records@.len(),
            claims@.len() == accepted_indices(records@, *note, body@, i as int).len(),
            forall|k: int|
                0 <= k < claims@.len() ==> built_claim(
                    #[trigger] claims@[k],
                    records@[accepted_indices(records@, *note, body@, i as int)[k]],
                    *note,
                    body@,
                    marker_spans@,
                    model_label@,
                    extracted_at,
                ),
        decreases n - i,
    {
        let ghost before = claims@;
        match validate_extracted_record(note, body, marker_spans, &records[i], model_label, extracted_at) {
            Ok(c) => {
                claims.push(c);
                proof {
                    assert forall|k: int| 0 <= k < claims@.len() implies built_claim(
                        #[trigger] claims@[k],
                        records@[accepted_indices(records@, *note, body@, i + 1)[k]],
                        *note,
                        body@,
                        marker_spans@,
                        model_label@,
                        extracted_at,
                    ) by {
                        if k < before.len() {
                            assert(claims@[k] == before[k]);
                        }
                    }
                }
            },
            Err(_) => {},
        }
        i = i + 1;
    }
    claims
}

/// What to do after the first model reply was checked.
#[derive(Debug, Clone, Copy, PartialEq, Eq, Structural)]
pub enum ExtractionStep {
    /// The run is over.
    Finish(ClaimExtractionDisposition),
    /// Every record was invalid: ask once more, with guidance.
    Retry,
}

/// After the first reply: no records means `Empty`; records that all failed
/// mean one retry; any accepted claim means `Extracted`.
pub fn after_first_attempt(records_len: usize, claims_len: usize) -> (r: ExtractionStep)
    ensures
        r == (if claims_len == 0 && records_len == 0 {
            ExtractionStep::Finish(ClaimExtractionDisposition::Empty)
        } else if claims_len == 0 {
            ExtractionStep::Retry
        } else {
            ExtractionStep::Finish(ClaimExtractionDisposition::Extracted)
        }),
{
    if claims_len == 0 && records_len == 0 {
        ExtractionStep::Finish(ClaimExtractionDisposition::Empty)
    } else if claims_len == 0 {
        ExtractionStep::Retry
    } else {
        ExtractionStep::Finish(ClaimExtractionDisposition::Extracted)
    }
}

/// After the retry reply: still only invalid records means
/// `AllInvalidAfterRetry`, no records `Empty`, any accepted claim `Extracted`.
pub fn after_retry(records_len: usize, claims_len: usize) -> (r: ClaimExtractionDisposition)
    ensures
        r == (if claims_len == 0 && records_len > 0 {
            ClaimExtractionDisposition::AllInvalidAfterRetry
        } else if claims_len == 0 {
            ClaimExtractionDisposition::Empty
        } else {
            ClaimExtractionDisposition::Extracted
        }),
{
    if claims_len == 0 && records_len > 0 {
        ClaimExtractionDisposition::AllInvalidAfterRetry
    } else if claims_len == 0 {
        ClaimExtractionDisposition::Empty
    } else {
        ClaimExtractionDisposition::Extracted
    }
}

/// Number of leading `\r` and `\n` characters of `s`.
pub open spec fn lead_newlines(s: Seq<char>) -> nat
    decreases s.len(),
{
    if s.len() > 0 && (s[0] == '\r' || s[0] == '\n') {
        1 + lead_newlines(s.drop_first())
    } else {
        0
    }
}

/// `s` opens with `prefix`, then optional line breaks, and closes with a
/// fence: the trimmed text between.
pub open spec fn fenced_inner(s: Seq<char>, prefix: Seq<char>) -> Option<Seq<char>> {
    if seq_at(s, 0, prefix) {
        let rest = s.skip(prefix.len() as int);
        let r2 = rest.skip(lead_newlines(rest) as int);
        if r2.len() >= 3 && seq_at(r2, r2.len() - 3, "```"@) {
            Some(trim(r2.take(r2.len() - 3)))
        } else {
            None
        }
    } else {
        None
    }
}

/// A reply with an optional Markdown code fence removed: the trimmed reply,
/// or the trimmed inside of a ```` ```json ````, ```` ```JSON ```` or plain fence.
pub open spec fn unfenced(input: Seq<char>) -> Seq<char> {
    let s = trim(input);
    match fenced_inner(s, "```json"@) {
        Some(x) => x,
        None => match fenced_inner(s, "```JSON"@) {
            Some(x) => x,
            None => match fenced_inner(s, "```"@) {
                Some(x) => x,
                None => s,
            },
        },
    }
}

proof fn lemma_lead_newlines(s: Seq<char>, i: int)
    requires
        0 <= i <= s.len(),
        forall|k: int| 0 <= k < i ==> (#[trigger] s[k] == '\r' || s[k] == '\n'),
    ensures
        lead_newlines(s) == i + lead_newlines(s.skip(i)),
    decreases i,
{
    if i > 0 {
        assert(s.len() > 0 && (s[0] == '\r' || s[0] == '\n'));
        lemma_lead_newlines(s.drop_first(), i - 1);
        assert(s.drop_first().skip(i - 1) =~= s.skip(i));
        assert forall|k: int| 0 <= k < i - 1 implies (#[trigger] s.drop_first()[k] == '\r' || s.drop_first()[k] == '\n') by {
            assert(s.drop_first()[k] == s[k + 1]);
        }
    } else {
        assert(s.skip(0) =~= s);
    }
}

/// Bounds within `v` of the inside of a fence opened by `prefix` in `v[lo..hi]`.
fn fence_inner(v: &Vec<char>, lo: usize, hi: usize, prefix: &str) -> (r: Option<(usize, usize)>)
    requires
        lo <= hi <= v@.len(),
    ensures
        match fenced_inner(v@.subrange(lo as int, hi as int), prefix@) {
            Some(x) => r matches Some(p) && lo <= p.0 <= p.1 <= hi && v@.subrange(p.0 as int, p.1 as int) == x,
            None => r is None,
        },
{
    let ghost s = v@.subrange(lo as int, hi as int);
    let pv = chars_of(prefix);
    let pn = pv.len();
    if pn > hi - lo || !matches_at(v, lo, prefix) {
        proof {
            if seq_at(s, 0, prefix@) {
                assert(v@.subrange(lo as int, lo + pn) =~= s.subrange(0, pn as int));
            }
        }
        return None;
    }
    proof {
        assert(s.subrange(0, pn as int) =~= v@.subrange(lo as int, lo + pn));
    }
    let mut j = lo + pn;
    while j < hi && (v[j] == '\r' || v[j] == '\n')
        invariant
            lo + pn <= j <= hi <= v@.len(),
            forall|k: int| lo + pn <= k < j ==> (#[trigger] v@[k] == '\r' || v@[k] == '\n'),
        decreases hi - j,
    {
        j = j + 1;
    }
    proof {
        let rest = s.skip(pn as int);
        assert forall|k: int| 0 <= k < j - lo - pn implies (#[trigger] rest[k] == '\r' || rest[k] == '\n') by {
            assert(rest[k] == v@[lo + pn + k]);
        }
        lemma_lead_newlines(rest, j - lo - pn);
        assert(rest.skip(j - lo - pn) =~= v@.subrange(j as int, hi as int));
        let r2 = v@.subrange(j as int, hi as int);
        if j < hi {
            assert(r2[0] == v@[j as int]);
            assert(!(r2[0] == '\r' || r2[0] == '\n'));
            assert(lead_newlines(r2) == 0);
        } else {
            assert(lead_newlines(r2) == 0);
        }
        assert(r2.skip(0) =~= r2);
    }
    if hi - j < 3 || !matches_at(v, hi - 3, "```") {
        proof {
            reveal_strlit("```");
            let r2 = v@.subrange(j as int, hi as int);
            if r2.len() >= 3 && seq_at(r2, r2.len() - 3, "```"@) {
                assert(v@.subrange(hi - 3, hi as int) =~= r2.subrange(r2.len() - 3, r2.len() as int));
            }
        }
        return None;
    }
    proof {
        reveal_strlit("```");
        let r2 = v@.subrange(j as int, hi as int);
        assert(v@.subrange(hi - 3, hi as int) =~= r2.subrange(r2.len() - 3, r2.len() as int));
        assert(r2.take(r2.len() - 3) =~= v@.subrange(j as int, hi - 3));
    }
    let (a, b) = trim_bounds(v, j, hi - 3);
    Some((a, b))
}

/// The reply with an optional Markdown code fence removed (see `unfenced`).
pub fn strip_code_fences(s: &str) -> (r: String)
    ensures
        r@ == unfenced(s@),
{
    let v = chars_of(s);
    let (lo, hi) = trim_bounds(&v, 0, v.len());
    proof {
        assert(v@.subrange(0, v@.len() as int) =~= v@);
    }
    if let Some((a, b)) = fence_inner(&v, lo, hi, "```json") {
        return string_of_range(&v, a, b);
    }
    if let Some((a, b)) = fence_inner(&v, lo, hi, "```JSON") {
        return string_of_range(&v, a, b);
    }
    if let Some((a, b)) = fence_inner(&v, lo, hi, "```") {
        return string_of_range(&v, a, b);
    }
    string_of_range(&v, lo, hi)
}

/// A reply that stands for "no claims": empty, `{}`, `null` or `[]` once
/// unfenced and trimmed.
pub open spec fn is_empty_reply(raw: Seq<char>) -> bool {
    let t = trim(unfenced(raw));
    t.len() == 0 || t == "{}"@ || t == "null"@ || t == "[]"@
}

/// Whether a model reply stands for "no claims" (see `is_empty_reply`); any
/// other reply is read as JSON by the caller.
pub fn reply_is_empty(raw: &str) -> (b: bool)
    ensures
        b == is_empty_reply(raw@),
{
    let unfenced_text = strip_code_fences(raw);
    let v = chars_of(unfenced_text.as_str());
    let (a, e) = trim_bounds(&v, 0, v.len());
    proof {
        assert(v@.subrange(0, v@.len() as int) =~= v@);
    }
    let t = string_of_range(&v, a, e);
    t.as_str().is_empty() || crate::text::str_eq(t.as_str(), "{}") || crate::text::str_eq(
        t.as_str(),
        "null",
    ) || crate::text::str_eq(t.as_str(), "[]")
}

/// Decimal digits of `n`, left-padded with zeros to at least six.
pub open spec fn pad6(n: nat) -> Seq<char> {
    let d = decimal(n);
    if d.len() < 6 {
        Seq::new((6 - d.len()) as nat, |i: int| '0') + d
    } else {
        d
    }
}

/// End of the line that starts at `i`: just past its `\n`, or the end of `s`.
pub open spec fn line_end(s: Seq<char>, i: int) -> int {
    match find_char_from(s, '\n', i, s.len() as int) {
        Some(k) => k + 1,
        None => s.len() as int,
    }
}

/// Lines of `s` from index `i`, each with its line break, prefixed by
/// `[byte:NNNNNN] ` holding the byte offset at which it starts.
pub open spec fn offset_lines(s: Seq<char>, i: int) -> Seq<char>
    decreases s.len() - i,
{
    if i < 0 || i >= s.len() {
        Seq::empty()
    } else {
        let e = line_end(s, i);
        if i < e <= s.len() {
            "[byte:"@ + pad6(byte_offset(s, i)) + "] "@ + s.subrange(i, e) + offset_lines(s, e)
        } else {
            Seq::empty()
        }
    }
}

/// A note body with the byte offset of every line shown at its start; an
/// empty body gives a single empty line at offset 0.
pub open spec fn body_with_offsets(s: Seq<char>) -> Seq<char> {
    if s.len() == 0 {
        "[byte:000000] "@
    } else {
        offset_lines(s, 0)
    }
}

fn push_chars(out: &mut Vec<char>, v: &Vec<char>, from: usize, to: usize)
    requires
        from <= to <= v@.len(),
    ensures
        final(out)@ == old(out)@ + v@.subrange(from as int, to as int),
{
    let mut i = from;
    while i < to
        invariant
            from <= i <= to <= v@.len(),
            out@ == old(out)@ + v@.subrange(from as int, i as int),
        decreases to - i,
    {
        out.push(v[i]);
        i = i + 1;
        proof {
            assert(v@.subrange(from as int, i as int) =~= v@.subrange(from as int, i - 1).push(
                v@[i - 1],
            ));
        }
    }
}

/// Decimal digits of `n`, zero-padded to at least six.
fn zero_pad6(n: usize) -> (r: Vec<char>)
    ensures
        r@ == pad6(n as nat),
{
    let d = usize_decimal(n);
    let mut out: Vec<char> = Vec::new();
    if d.len() < 6 {
        let z = 6 - d.len();
        let mut k: usize = 0;
        while k < z
            invariant
                k <= z,
                out@ == Seq::new(k as nat, |i: int| '0'),
            decreases z - k,
        {
            out.push('0');
            k = k + 1;
            proof {
                assert(out@ =~= Seq::new(k as nat, |i: int| '0'));
            }
        }
    }
    let ghost zeros = out@;
    push_chars(&mut out, &d, 0, d.len());
    proof {
        assert(d@.subrange(0, d@.len() as int) =~= d@);
        if d@.len() >= 6 {
            assert(zeros =~= Seq::<char>::empty());
            assert(out@ =~= d@);
        }
    }
    out
}

/// The body with each line prefixed by its byte offset (see `body_with_offsets`).
pub fn render_body_with_offsets(body: &str) -> (r: String)
    ensures
        r@ == body_with_offsets(body@),
{
    let pair = chars_with_offsets(body);
    let v = pair.0;
    let offs = pair.1;
    if v.len() == 0 {
        return "[byte:000000] ".to_string();
    }
    let mut out: Vec<char> = Vec::new();
    let mut i: usize = 0;
    while i < v.len()
        invariant
            v@ == body@,
            offs@.len() == v@.len() + 1,
            forall|j: int| 0 <= j <= v@.len() ==> #[trigger] offs@[j] == byte_offset(v@, j),
            i <= v@.len(),
            out@ + offset_lines(v@, i as int) == offset_lines(v@, 0),
        decreases v.len() - i,
    {
        let e = match find_char(&v, '\n', i, v.len()) {
            Some(k) => k + 1,
            None => v.len(),
        };
        let ghost before = out@;
        push_str_chars(&mut out, "[byte:");
        let digits = zero_pad6(offs[i]);
        push_chars(&mut out, &digits, 0, digits.len());
        push_str_chars(&mut out, "] ");
        push_chars(&mut out, &v, i, e);
        proof {
            assert(digits@.subrange(0, digits@.len() as int) =~= digits@);
            assert(line_end(v@, i as int) == e);
            let piece = "[byte:"@ + pad6(byte_offset(v@, i as int)) + "] "@ + v@.subrange(i as int, e as int);
            assert(out@ =~= before + piece);
            assert(offset_lines(v@, i as int) == piece + offset_lines(v@, e as int));
            assert(before + piece + offset_lines(v@, e as int) =~= before + (piece + offset_lines(v@, e as int)));
        }
        i = e;
    }
    proof {
        assert(offset_lines(v@, i as int) =~= Seq::<char>::empty());
        assert(out@ =~= offset_lines(v@, 0));
    }
    string_of(&out)
}

} // verus!
