//! The privacy audit: notes that mention sensitive matters but do not state a
//! privacy level in their frontmatter.
use vstd::prelude::*;
use crate::text::{trim, has_prefix, seq_at, chars_of, matches_at, trim_bounds, string_of};
use crate::ingest::{lines_of, line_bounds};
use crate::claims::push_str_chars;

verus! {

/// Whether `regex::Regex::new(pattern)` accepts the pattern.
pub uninterp spec fn regex_compiles(pattern: Seq<char>) -> bool;

/// The text of the first match that `regex::Regex::find` reports for the
/// compiled `pattern` in `haystack`.
pub uninterp spec fn regex_find(pattern: Seq<char>, haystack: Seq<char>) -> Option<Seq<char>>;

/// Compiles `pattern` with `regex::Regex::new` and, when it compiles, returns
/// the text of the first match of `Regex::find` in `haystack`. The match text
/// is a slice of the haystack (`Match::as_str`). What the pattern matches is
/// left to the outside crate.
#[verifier::external_body]
fn regex_first_match(pattern: &str, haystack: &str) -> (r: Result<Option<String>, String>)
    ensures
        r is Err <==> !regex_compiles(pattern@),
        r is Ok ==> match r->Ok_0 {
            Some(m) => regex_find(pattern@, haystack@) == Some(m@) && exists|i: int|
                seq_at(haystack@, i, m@),
            None => regex_find(pattern@, haystack@) is None,
        },
{
    match regex::Regex::new(pattern) {
        Ok(re) => Ok(re.find(haystack).map(|m| m.as_str().to_string())),
        Err(e) => Err(e.to_string()),
    }
}

/// The words that make a note suspect, case-insensitively and as whole words.
pub open spec fn sensitive_keywords() -> Seq<char> {
    "(?i)\\b(salary|bank|account|password|ssn|social security|medical|diagnosis|therapy|iban|routing number|credit card)\\b"@
}

/// The pattern of sensitive words (see `sensitive_keywords`).
pub fn sensitive_keywords_pattern() -> (r: &'static str)
    ensures
        r@ == sensitive_keywords(),
{
    "(?i)\\b(salary|bank|account|password|ssn|social security|medical|diagnosis|therapy|iban|routing number|credit card)\\b"
}

/// Whether a frontmatter line from index `k` on, before the closing `---`,
/// starts with `privacy:` once trimmed.
pub open spec fn privacy_key_from(ls: Seq<Seq<char>>, k: int) -> bool
    decreases ls.len() - k,
{
    if k < 0 || k >= ls.len() {
        false
    } else if trim(ls[k]) == "---"@ {
        false
    } else if has_prefix(trim(ls[k]), "privacy:"@) {
        true
    } else {
        privacy_key_from(ls, k + 1)
    }
}

/// The note opens with a `---` frontmatter block that sets `privacy:`.
pub open spec fn explicit_privacy(source: Seq<char>) -> bool {
    let ls = lines_of(source);
    ls.len() > 0 && trim(ls[0]) == "---"@ && privacy_key_from(ls, 1)
}

/// Whether `v[a..b]` equals `t`.
fn range_is(v: &Vec<char>, a: usize, b: usize, t: &str) -> (r: bool)
    requires
        a <= b <= v.len(),
    ensures
        r == (v@.subrange(a as int, b as int) == t@),
{
    let tv = chars_of(t);
    if b - a != tv.len() {
        return false;
    }
    let m = matches_at(v, a, t);
    proof {
        if m {
            assert(v@.subrange(a as int, b as int) == t@);
        } else {
            assert(!seq_at(v@, a as int, t@));
        }
    }
    m
}

/// Whether `v[a..b]` starts with `t`.
fn range_starts_with(v: &Vec<char>, a: usize, b: usize, t: &str) -> (r: bool)
    requires
        a <= b <= v.len(),
    ensures
        r == has_prefix(v@.subrange(a as int, b as int), t@),
{
    let tv = chars_of(t);
    if b - a < tv.len() {
        return false;
    }
    let m = matches_at(v, a, t);
    proof {
        let s = v@.subrange(a as int, b as int);
        if m {
            assert(s.subrange(0, t@.len() as int) =~= v@.subrange(a as int, a + t@.len()));
        } else {
            if has_prefix(s, t@) {
                assert(s.subrange(0, t@.len() as int) =~= v@.subrange(a as int, a + t@.len()));
            }
        }
    }
    m
}

/// Whether the note sets its privacy level explicitly in its frontmatter (see
/// `explicit_privacy`).
pub fn has_explicit_privacy_frontmatter(source: &str) -> (r: bool)
    ensures
        r == explicit_privacy(source@),
{
    let v = chars_of(source);
    let lines = line_bounds(&v);
    let ghost ls = lines_of(v@);
    if lines.len() == 0 {
        return false;
    }
    let (a0, b0) = lines[0];
    let (s0, e0) = trim_bounds(&v, a0, b0);
    if !range_is(&v, s0, e0, "---") {
        return false;
    }
    proof {
        assert(v@.subrange(a0 as int, b0 as int) == ls[0]);
        assert(trim(ls[0]) == "---"@);
    }
    let mut k: usize = 1;
    while k < lines.len()
        invariant
            trim(ls[0]) == "---"@,
            v@ == source@,
            ls == lines_of(v@),
            lines@.len() == ls.len(),
            1 <= k <= lines@.len(),
            forall|j: int|
                0 <= j < lines@.len() ==> (#[trigger] lines@[j]).0 <= lines@[j].1 <= v@.len()
                    && v@.subrange(lines@[j].0 as int, lines@[j].1 as int) == ls[j],
            privacy_key_from(ls, 1) == privacy_key_from(ls, k as int),
        decreases lines.len() - k,
    {
        let (a, b) = lines[k];
        let (s, e) = trim_bounds(&v, a, b);
        if range_is(&v, s, e, "---") {
            return false;
        }
        if range_starts_with(&v, s, e, "privacy:") {
            proof {
                assert(v@.subrange(a as int, b as int) == ls[k as int]);
                assert(trim(ls[k as int]) == v@.subrange(s as int, e as int));
                assert(privacy_key_from(ls, k as int));
            }
            return true;
        }
        k = k + 1;
    }
    false
}

/// The sensitive word a note is suspect for: none when it states its privacy
/// level, else the first match of the sensitive-word pattern.
pub open spec fn suspect_word(pattern: Seq<char>, source: Seq<char>) -> Option<Seq<char>> {
    if explicit_privacy(source) {
        None
    } else {
        regex_find(pattern, source)
    }
}

/// The sensitive word that makes a note suspect, if any (see `suspect_word`
/// with `sensitive_keywords`); an error when the pattern does not compile.
pub fn suspect_keyword(source: &str) -> (r: Result<Option<String>, String>)
    ensures
        r is Err ==> !regex_compiles(sensitive_keywords()),
        r is Ok ==> match r->Ok_0 {
            Some(m) => suspect_word(sensitive_keywords(), source@) == Some(m@),
            None => suspect_word(sensitive_keywords(), source@) is None,
        },
        explicit_privacy(source@) ==> r == Ok::<Option<String>, String>(None),
{
    if has_explicit_privacy_frontmatter(source) {
        return Ok(None);
    }
    regex_first_match(sensitive_keywords_pattern(), source)
}

/// A note the audit flags, by its path within the vault.
#[derive(Debug, Clone)]
pub struct SuspectNote {
    pub path: String,
    pub matched_keyword: String,
}

/// The line shown for one suspect note.
pub open spec fn suspect_line(s: SuspectNote) -> Seq<char> {
    "- "@ + s.path@ + " (matched: "@ + s.matched_keyword@ + ")"@
}

/// The lines `memora privacy audit` prints for the suspect notes it found.
pub open spec fn audit_lines(suspects: Seq<SuspectNote>) -> Seq<Seq<char>> {
    if suspects.len() == 0 {
        seq!["No suspect notes found."@]
    } else {
        seq!["Potentially sensitive notes without explicit privacy frontmatter:"@]
            + suspects.map_values(|s: SuspectNote| suspect_line(s))
            + seq!["Review these notes and add explicit `privacy:` frontmatter where needed."@]
    }
}

/// The report of `memora privacy audit` (see `audit_lines`).
pub fn run(suspects: &Vec<SuspectNote>) -> (r: Vec<String>)
    ensures
        r@.len() == audit_lines(suspects@).len(),
        forall|k: int| 0 <= k < r@.len() ==> (#[trigger] r@[k])@ == audit_lines(suspects@)[k],
{
    let mut out: Vec<String> = Vec::new();
    if suspects.len() == 0 {
        out.push("No suspect notes found.".to_string());
        return out;
    }
    out.push("Potentially sensitive notes without explicit privacy frontmatter:".to_string());
    let mut i: usize = 0;
    while i < suspects.len()
        invariant
            i <= suspects@.len(),
            suspects@.len() > 0,
            out@.len() == i + 1,
            out@[0]@ == "Potentially sensitive notes without explicit privacy frontmatter:"@,
            forall|k: int| 0 <= k < i ==> (#[trigger] out@[k + 1])@ == suspect_line(suspects@[k]),
        decreases suspects.len() - i,
    {
        let s = &suspects[i];
        let mut line: Vec<char> = Vec::new();
        push_str_chars(&mut line, "- ");
        push_str_chars(&mut line, s.path.as_str());
        push_str_chars(&mut line, " (matched: ");
        push_str_chars(&mut line, s.matched_keyword.as_str());
        push_str_chars(&mut line, ")");
        out.push(string_of(&line));
        i = i + 1;
    }
    out.push("Review these notes and add explicit `privacy:` frontmatter where needed.".to_string());
    proof {
        let want = audit_lines(suspects@);
        assert(want.len() == out@.len());
        assert forall|k: int| 0 <= k < out@.len() implies (#[trigger] out@[k])@ == want[k] by {
            if 1 <= k < out@.len() - 1 {
                assert(out@[(k - 1) + 1] == out@[k]);
            }
        }
    }
    out
}

} // verus!
