//! Citation markers in model answers: parsing, quote extraction, per-citation
//! verdicts and the rewrite that keeps only proven sentences.
use vstd::prelude::*;

use crate::text::{
    byte_len, byte_len_of, byte_offset, char_width, chars_of, lemma_byte_len_take_mono,
    lemma_ascii_run_bytes, lemma_byte_len_take_step, string_of_range, char_index_at_byte,
    char_index_of_byte, string_of, find_char, find_char_from, rfind_char, rfind_char_to, trim, trim_bounds,
};

verus! {

/// Outcome of checking one `[claim:ID]` citation.
#[derive(Debug, Clone, Copy, PartialEq, Eq, Structural)]
pub enum CitationStatus {
    Verified,
    Unverified,
    FingerprintMismatch,
    QuoteMismatch,
    Superseded,
}

/// One checked citation.
#[derive(Debug, Clone)]
pub struct CitationCheck {
    pub claim_id: String,
    pub status: CitationStatus,
    pub source_text: Option<String>,
    pub quote: Option<String>,
}

/// A model answer together with the verdict on each of its citations.
#[derive(Debug, Clone)]
pub struct CitedAnswer {
    pub raw_text: String,
    pub clean_text: String,
    pub checks: Vec<CitationCheck>,
    pub verified_count: usize,
    pub unverified_count: usize,
    pub mismatch_count: usize,
    pub superseded_count: usize,
    pub redacted_count: usize,
    pub degraded: bool,
}

/// Length in characters of a marker `[claim:` + 16 hex digits + `]`.
pub open spec fn marker_len() -> int {
    24
}

/// Lower-case hexadecimal digit.
pub open spec fn is_hex_lower(c: char) -> bool {
    ('0' <= c && c <= '9') || ('a' <= c && c <= 'f')
}

/// A claim marker `[claim:<16 lower-case hex digits>]` starts at index `i`.
pub open spec fn marker_at(s: Seq<char>, i: int) -> bool {
    &&& 0 <= i
    &&& i + 24 <= s.len()
    &&& s[i] == '['
    &&& s[i + 1] == 'c'
    &&& s[i + 2] == 'l'
    &&& s[i + 3] == 'a'
    &&& s[i + 4] == 'i'
    &&& s[i + 5] == 'm'
    &&& s[i + 6] == ':'
    &&& forall|k: int| i + 7 <= k < i + 23 ==> is_hex_lower(#[trigger] s[k])
    &&& s[i + 23] == ']'
}

/// Indices `< n` at which a marker starts, in increasing order.
pub open spec fn marker_positions(s: Seq<char>, n: int) -> Seq<int>
    decreases n,
{
    if n <= 0 {
        Seq::empty()
    } else if marker_at(s, n - 1) {
        marker_positions(s, n - 1).push(n - 1)
    } else {
        marker_positions(s, n - 1)
    }
}

/// All markers of `s`, in order of appearance.
pub open spec fn markers(s: Seq<char>) -> Seq<int> {
    marker_positions(s, s.len() as int)
}

/// The 16-digit id of the marker starting at `i`.
pub open spec fn marker_id(s: Seq<char>, i: int) -> Seq<char> {
    s.subrange(i + 7, i + 23)
}

/// The marker positions below `n` are increasing, each starts a marker, and
/// every marker below `n` is among them.
pub proof fn lemma_marker_positions(s: Seq<char>, n: int)
    requires
        0 <= n <= s.len(),
    ensures
        forall|k: int|
            0 <= k < marker_positions(s, n).len() ==> 0 <= #[trigger] marker_positions(s, n)[k] < n
                && marker_at(s, marker_positions(s, n)[k]),
        forall|a: int, b: int|
            0 <= a < b < marker_positions(s, n).len() ==> #[trigger] marker_positions(s, n)[a]
                < #[trigger] marker_positions(s, n)[b],
        forall|i: int| 0 <= i < n && marker_at(s, i) ==> marker_positions(s, n).contains(i),
    decreases n,
{
    if n > 0 {
        lemma_marker_positions(s, n - 1);
        let p = marker_positions(s, n - 1);
        assert forall|i: int| 0 <= i < n && marker_at(s, i) implies marker_positions(
            s,
            n,
        ).contains(i) by {
            if i < n - 1 {
                let k = choose|k: int| 0 <= k < p.len() && p[k] == i;
                if marker_at(s, n - 1) {
                    assert(marker_positions(s, n)[k] == i);
                }
            } else {
                assert(marker_positions(s, n)[p.len() as int] == i);
            }
        }
    }
}

/// Whether a marker starts at index `i` of `s`.
fn marker_starts_at(s: &Vec<char>, i: usize) -> (b: bool)
    ensures
        b == marker_at(s@, i as int),
{
    if i > s.len() || s.len() - i < 24 {
        return false;
    }
    if !(s[i] == '[' && s[i + 1] == 'c' && s[i + 2] == 'l' && s[i + 3] == 'a' && s[i + 4] == 'i'
        && s[i + 5] == 'm' && s[i + 6] == ':' && s[i + 23] == ']') {
        return false;
    }
    let mut k = i + 7;
    while k < i + 23
        invariant
            i + 24 <= s.len(),
            i + 7 <= k <= i + 23,
            forall|j: int| i + 7 <= j < k ==> is_hex_lower(#[trigger] s@[j]),
        decreases i + 23 - k,
    {
        let c = s[k];
        if !(('0' <= c && c <= '9') || ('a' <= c && c <= 'f')) {
            return false;
        }
        k = k + 1;
    }
    true
}

/// Every `[claim:ID]` marker in `text`, as `(start, end, id)` with byte offsets.
///
/// Markers cannot overlap, so the list holds one entry per index at which a
/// marker starts, in order.
pub fn parse_claim_markers(text: &str) -> (r: Vec<(usize, usize, String)>)
    ensures
        r@.len() == markers(text@).len(),
        forall|k: int|
            0 <= k < r@.len() ==> {
                let p = #[trigger] markers(text@)[k];
                &&& r@[k].0 == byte_offset(text@, p)
                &&& r@[k].1 == byte_offset(text@, p) + 24
                &&& r@[k].2@ == marker_id(text@, p)
            },
{
    let s = chars_of(text);
    let total = byte_len_of(text);
    let mut out: Vec<(usize, usize, String)> = Vec::new();
    let mut i: usize = 0;
    let mut off: usize = 0;
    while i < s.len()
        invariant
            i <= s.len(),
            s@ == text@,
            total == byte_len(s@),
            off == byte_offset(s@, i as int),
            out@.len() == marker_positions(s@, i as int).len(),
            forall|k: int|
                0 <= k < out@.len() ==> {
                    let p = #[trigger] marker_positions(s@, i as int)[k];
                    &&& out@[k].0 == byte_offset(s@, p)
                    &&& out@[k].1 == byte_offset(s@, p) + 24
                    &&& out@[k].2@ == marker_id(s@, p)
                },
        decreases s.len() - i,
    {
        proof {
            lemma_byte_len_take_step(s@, i as int);
            lemma_byte_len_take_mono(s@, i + 1, s@.len() as int);
            assert(s@.take(s@.len() as int) =~= s@);
        }
        if marker_starts_at(&s, i) {
            proof {
                assert forall|k: int| i <= k < i + 24 implies (#[trigger] s@[k] as u32) < 0x80 by {
                    if i + 7 <= k < i + 23 {
                        assert(is_hex_lower(s@[k]));
                    }
                }
                lemma_ascii_run_bytes(s@, i as int, 24);
                lemma_byte_len_take_mono(s@, i + 24, s@.len() as int);
            }
            let id = string_of_range(&s, i + 7, i + 23);
            out.push((off, off + 24, id));
        }
        let w = char_width(s[i]);
        off = off + w;
        i = i + 1;
    }
    proof {
        assert(s@.take(s@.len() as int) =~= s@);
    }
    out
}


/// Optional string seen as an optional character sequence.
pub open spec fn opt_view(o: Option<String>) -> Option<Seq<char>> {
    match o {
        Some(x) => Some(x@),
        None => None,
    }
}

/// A sentence break (`". "`, `"! "`, `"? "` or a blank line) occupies `p[j..j + 2]`.
pub open spec fn sentence_break_at(p: Seq<char>, j: int) -> bool {
    0 <= j && j + 1 < p.len() && ((p[j] == '.' || p[j] == '!' || p[j] == '?') && p[j + 1] == ' '
        || p[j] == '\n' && p[j + 1] == '\n')
}

/// End of the last sentence break that lies inside `p[..n]`, or 0.
pub open spec fn last_break_end(p: Seq<char>, n: int) -> int
    decreases n,
{
    if n < 2 {
        0
    } else if sentence_break_at(p, n - 2) {
        n
    } else {
        last_break_end(p, n - 1)
    }
}

/// Trimmed text between the first two `q` characters of `s`, if non-empty.
pub open spec fn quoted(s: Seq<char>, q: char) -> Option<Seq<char>> {
    match find_char_from(s, q, 0, s.len() as int) {
        None => None,
        Some(a) => match find_char_from(s, q, a + 1, s.len() as int) {
            None => None,
            Some(b) => {
                let c = trim(s.subrange(a + 1, b));
                if c.len() == 0 {
                    None
                } else {
                    Some(c)
                }
            },
        },
    }
}

/// Trimmed rest of the line after the last `>` of `s`, if non-empty.
pub open spec fn blockquoted(s: Seq<char>) -> Option<Seq<char>> {
    match rfind_char_to(s, '>', 0, s.len() as int) {
        None => None,
        Some(a) => {
            let end = match find_char_from(s, '\n', a + 1, s.len() as int) {
                Some(e) => e,
                None => s.len() as int,
            };
            let c = trim(s.subrange(a + 1, end));
            if c.len() == 0 {
                None
            } else {
                Some(c)
            }
        },
    }
}

/// The sentence that ends at character `m` of `text`, trimmed: what follows
/// the last sentence break before `m`.
pub open spec fn sentence_before(text: Seq<char>, m: int) -> Seq<char> {
    let prefix = text.take(m);
    trim(prefix.skip(last_break_end(prefix, m)))
}

/// The quote a citation at byte offset `marker_pos` refers to: inside the sentence
/// that ends at the marker, the first double-quoted text, else the first
/// single-quoted text, else the rest of the last blockquote line.
pub open spec fn quote_before(text: Seq<char>, marker_pos: int) -> Option<Seq<char>> {
    if marker_pos == 0 || marker_pos > byte_len(text) {
        None
    } else {
        match char_index_at_byte(text, marker_pos) {
            None => None,
            Some(m) => {
                let sentence = sentence_before(text, m);
                if sentence.len() == 0 {
                    None
                } else if quoted(sentence, '"') is Some {
                    quoted(sentence, '"')
                } else if quoted(sentence, '\'') is Some {
                    quoted(sentence, '\'')
                } else {
                    blockquoted(sentence)
                }
            },
        }
    }
}

proof fn lemma_find_char_at(s: Seq<char>, c: char, from: int, p: int, to: int)
    requires
        from <= p < to,
        s[p] == c,
        forall|k: int| from <= k < p ==> s[k] != c,
    ensures
        find_char_from(s, c, from, to) == Some(p),
    decreases p - from,
{
    if from < p {
        lemma_find_char_at(s, c, from + 1, p, to);
    }
}

proof fn lemma_find_char_none(s: Seq<char>, c: char, from: int, to: int)
    requires
        forall|k: int| from <= k < to ==> s[k] != c,
    ensures
        find_char_from(s, c, from, to) is None,
    decreases to - from,
{
    if from < to {
        lemma_find_char_none(s, c, from + 1, to);
    }
}

/// The text between the first two `q` of `x + q + inner + q + y`.
proof fn lemma_quoted_first(x: Seq<char>, qc: char, inner: Seq<char>, y: Seq<char>)
    requires
        !x.contains(qc),
        !inner.contains(qc),
        trim(inner).len() > 0,
    ensures
        quoted(x + seq![qc] + inner + seq![qc] + y, qc) == Some(trim(inner)),
{
    let s = x + seq![qc] + inner + seq![qc] + y;
    let a = x.len() as int;
    let b = a + 1 + inner.len();
    assert forall|k: int| 0 <= k < a implies s[k] != qc by {
        assert(s[k] == x[k]);
    }
    assert(s[a] == qc);
    lemma_find_char_at(s, qc, 0, a, s.len() as int);
    assert forall|k: int| a + 1 <= k < b implies s[k] != qc by {
        assert(s[k] == inner[k - a - 1]);
    }
    assert(s[b] == qc);
    lemma_find_char_at(s, qc, a + 1, b, s.len() as int);
    assert(s.subrange(a + 1, b) =~= inner);
}

/// Prefix byte offsets grow strictly with the index.
proof fn lemma_byte_offset_strict(text: Seq<char>, i: int, j: int)
    requires
        0 <= i < j <= text.len(),
    ensures
        byte_offset(text, i) < byte_offset(text, j),
{
    lemma_byte_len_take_step(text, i);
    lemma_byte_len_take_mono(text, i + 1, j);
}

/// The byte offset of a character boundary `m > 0` designates that boundary.
proof fn lemma_marker_boundary(text: Seq<char>, m: int)
    requires
        0 < m <= text.len(),
    ensures
        byte_offset(text, m) > 0,
        byte_offset(text, m) <= byte_len(text),
        char_index_at_byte(text, byte_offset(text, m) as int) == Some(m),
{
    assert(text.take(0) =~= Seq::<char>::empty());
    lemma_byte_offset_strict(text, 0, m);
    lemma_byte_len_take_mono(text, m, text.len() as int);
    assert(text.take(text.len() as int) =~= text);
    let b = byte_offset(text, m) as int;
    assert(0 <= m <= text.len() && byte_offset(text, m) == b);
    let i = choose|i: int| 0 <= i <= text.len() && byte_offset(text, i) == b;
    if i < m {
        lemma_byte_offset_strict(text, i, m);
    } else if m < i {
        lemma_byte_offset_strict(text, m, i);
    }
}

/// A citation quotes the first double-quoted text of its sentence, trimmed,
/// whatever apostrophes or single quotes the sentence also holds.
pub proof fn lemma_quote_prefers_double(text: Seq<char>, m: int, x: Seq<char>, q: Seq<char>, y: Seq<char>)
    requires
        0 < m <= text.len(),
        sentence_before(text, m) == x + seq!['"'] + q + seq!['"'] + y,
        !x.contains('"'),
        !q.contains('"'),
        trim(q).len() > 0,
    ensures
        quote_before(text, byte_offset(text, m) as int) == Some(trim(q)),
{
    lemma_marker_boundary(text, m);
    lemma_quoted_first(x, '"', q, y);
}

/// Without any double quote in its sentence, a citation quotes the first
/// single-quoted text of the sentence, trimmed.
pub proof fn lemma_quote_single_fallback(text: Seq<char>, m: int, x: Seq<char>, q: Seq<char>, y: Seq<char>)
    requires
        0 < m <= text.len(),
        sentence_before(text, m) == x + seq!['\''] + q + seq!['\''] + y,
        !sentence_before(text, m).contains('"'),
        !x.contains('\''),
        !q.contains('\''),
        trim(q).len() > 0,
    ensures
        quote_before(text, byte_offset(text, m) as int) == Some(trim(q)),
{
    let sent = sentence_before(text, m);
    lemma_marker_boundary(text, m);
    lemma_quoted_first(x, '\'', q, y);
    assert forall|k: int| 0 <= k < sent.len() implies sent[k] != '"' by {
        if sent[k] == '"' {
            assert(sent.contains('"'));
        }
    }
    lemma_find_char_none(sent, '"', 0, sent.len() as int);
}

/// Character index where the sentence containing position `n` of `s` begins.
fn nearest_sentence_start(s: &Vec<char>, n: usize) -> (r: usize)
    requires
        n <= s.len(),
    ensures
        r == last_break_end(s@.take(n as int), n as int),
        r <= n,
{
    let ghost p = s@.take(n as int);
    let mut k = n;
    while k >= 2
        invariant
            k <= n <= s.len(),
            p == s@.take(n as int),
            last_break_end(p, n as int) == last_break_end(p, k as int),
        decreases k,
    {
        let a = s[k - 2];
        let b = s[k - 1];
        if ((a == '.' || a == '!' || a == '?') && b == ' ') || (a == '\n' && b == '\n') {
            return k;
        }
        k = k - 1;
    }
    0
}

/// `quoted` on `s[from..to]`.
fn find_quoted(s: &Vec<char>, q: char, from: usize, to: usize) -> (r: Option<String>)
    requires
        from <= to <= s.len(),
    ensures
        opt_view(r) == quoted(s@.subrange(from as int, to as int), q),
{
    let ghost t = s@.subrange(from as int, to as int);
    proof {
        lemma_find_shift(s@, q, from as int, from as int, to as int);
    }
    let a = match find_char(s, q, from, to) {
        None => {
            assert(find_char_from(t, q, 0, t.len() as int) is None);
            return None;
        },
        Some(a) => a,
    };
    assert(find_char_from(t, q, 0, t.len() as int) == Some(a - from));
    proof {
        lemma_find_shift(s@, q, from as int, a + 1, to as int);
    }
    let b = match find_char(s, q, a + 1, to) {
        None => {
            assert(find_char_from(t, q, a + 1 - from, t.len() as int) is None);
            return None;
        },
        Some(b) => b,
    };
    assert(find_char_from(t, q, a - from + 1, t.len() as int) == Some(b - from));
    let (cs, ce) = trim_bounds(s, a + 1, b);
    proof {
        assert(t.subrange(a + 1 - from, b - from) =~= s@.subrange(a + 1, b as int));
    }
    if cs == ce {
        None
    } else {
        Some(string_of_range(s, cs, ce))
    }
}

/// `blockquoted` on `s[from..to]`.
fn find_blockquote(s: &Vec<char>, from: usize, to: usize) -> (r: Option<String>)
    requires
        from <= to <= s.len(),
    ensures
        opt_view(r) == blockquoted(s@.subrange(from as int, to as int)),
{
    let ghost t = s@.subrange(from as int, to as int);
    proof {
        lemma_rfind_shift(s@, '>', from as int, to as int, to as int);
    }
    let a = match rfind_char(s, '>', from, to) {
        None => {
            assert(rfind_char_to(t, '>', 0, t.len() as int) is None);
            return None;
        },
        Some(a) => a,
    };
    assert(rfind_char_to(t, '>', 0, t.len() as int) == Some(a - from));
    proof {
        lemma_find_shift(s@, '\n', from as int, a + 1, to as int);
    }
    let end = match find_char(s, '\n', a + 1, to) {
        Some(e) => {
            assert(find_char_from(t, '\n', a - from + 1, t.len() as int) == Some(e - from));
            e
        },
        None => {
            assert(find_char_from(t, '\n', a - from + 1, t.len() as int) is None);
            to
        },
    };
    let (cs, ce) = trim_bounds(s, a + 1, end);
    proof {
        assert(t.subrange(a + 1 - from, end - from) =~= s@.subrange(a + 1, end as int));
    }
    if cs == ce {
        None
    } else {
        Some(string_of_range(s, cs, ce))
    }
}

/// Searching a window of `s` is searching `s` itself, shifted.
pub(crate) proof fn lemma_find_shift(s: Seq<char>, c: char, base: int, from: int, to: int)
    requires
        0 <= base <= from <= to <= s.len(),
    ensures
        find_char_from(s.subrange(base, to), c, from - base, to - base) == (match find_char_from(
            s,
            c,
            from,
            to,
        ) {
            Some(k) => Some(k - base),
            None => None,
        }),
    decreases to - from,
{
    if from < to {
        lemma_find_shift(s, c, base, from + 1, to);
    }
}

/// Reverse search in a window of `s`, shifted.
proof fn lemma_rfind_shift(s: Seq<char>, c: char, base: int, to: int, wto: int)
    requires
        0 <= base <= to <= wto <= s.len(),
    ensures
        rfind_char_to(s.subrange(base, wto), c, 0, to - base) == (match rfind_char_to(
            s,
            c,
            base,
            to,
        ) {
            Some(k) => Some(k - base),
            None => None,
        }),
    decreases to - base,
{
    if base < to {
        lemma_rfind_shift(s, c, base, to - 1, wto);
    }
}

/// The text a citation quotes: see `quote_before`.
pub fn extract_quote_before(text: &str, marker_pos: usize) -> (r: Option<String>)
    ensures
        opt_view(r) == quote_before(text@, marker_pos as int),
{
    let total = byte_len_of(text);
    if marker_pos == 0 || marker_pos > total {
        return None;
    }
    let s = chars_of(text);
    let m = match char_index_of_byte(&s, marker_pos) {
        None => return None,
        Some(m) => m,
    };
    let start = nearest_sentence_start(&s, m);
    let (ss, se) = trim_bounds(&s, start, m);
    let ghost prefix = s@.take(m as int);
    proof {
        assert(prefix.skip(start as int) =~= s@.subrange(start as int, m as int));
    }
    if ss == se {
        return None;
    }
    let dq = find_quoted(&s, '"', ss, se);
    if dq.is_some() {
        return dq;
    }
    let sq = find_quoted(&s, '\'', ss, se);
    if sq.is_some() {
        return sq;
    }
    find_blockquote(&s, ss, se)
}


/// Cut points produced by scanning `s` for sentence breaks from index `idx`:
/// each break ends a sentence, and scanning resumes after it.
pub open spec fn cuts_from(s: Seq<char>, idx: int) -> Seq<int>
    decreases s.len() - idx,
{
    if idx < 0 || idx >= s.len() {
        Seq::empty()
    } else if sentence_break_at(s, idx) {
        seq![idx + 2] + cuts_from(s, idx + 2)
    } else {
        cuts_from(s, idx + 1)
    }
}

/// Ends of the sentences of `s`: every cut, then the end of `s` if text follows the last cut.
pub open spec fn sentence_ends(s: Seq<char>) -> Seq<int> {
    let c = cuts_from(s, 0);
    let last = if c.len() == 0 {
        0
    } else {
        c.last()
    };
    if last < s.len() {
        c.push(s.len() as int)
    } else {
        c
    }
}

/// Start of the `k`-th sentence.
pub open spec fn sentence_start(s: Seq<char>, k: int) -> int {
    if k == 0 {
        0
    } else {
        sentence_ends(s)[k - 1]
    }
}

proof fn lemma_cuts_from_facts(s: Seq<char>, idx: int)
    requires
        0 <= idx,
    ensures
        forall|k: int|
            0 <= k < cuts_from(s, idx).len() ==> idx + 2 <= #[trigger] cuts_from(s, idx)[k]
                <= s.len(),
        forall|a: int, b: int|
            0 <= a < b < cuts_from(s, idx).len() ==> #[trigger] cuts_from(s, idx)[a]
                < #[trigger] cuts_from(s, idx)[b],
    decreases s.len() - idx,
{
    if idx < s.len() {
        if sentence_break_at(s, idx) {
            lemma_cuts_from_facts(s, idx + 2);
            let rest = cuts_from(s, idx + 2);
            assert(cuts_from(s, idx) == seq![idx + 2] + rest);
            assert forall|k: int| 0 <= k < cuts_from(s, idx).len() implies idx + 2
                <= #[trigger] cuts_from(s, idx)[k] <= s.len() by {
                if k > 0 {
                    assert(cuts_from(s, idx)[k] == rest[k - 1]);
                }
            }
            assert forall|a: int, b: int| 0 <= a < b < cuts_from(s, idx).len() implies #[trigger] cuts_from(
                s,
                idx,
            )[a] < #[trigger] cuts_from(s, idx)[b] by {
                assert(cuts_from(s, idx)[b] == rest[b - 1]);
                if a > 0 {
                    assert(cuts_from(s, idx)[a] == rest[a - 1]);
                }
            }
        } else {
            lemma_cuts_from_facts(s, idx + 1);
            assert(cuts_from(s, idx) == cuts_from(s, idx + 1));
        }
    }
}

/// Sentence spans `(start, end)` of `s`: consecutive pieces ending at each
/// sentence break, plus the tail after the last break.
fn split_sentence_bounds(s: &Vec<char>) -> (r: Vec<(usize, usize)>)
    ensures
        r@.len() == sentence_ends(s@).len(),
        forall|k: int|
            0 <= k < r@.len() ==> (#[trigger] r@[k]).0 == sentence_start(s@, k) && r@[k].1
                == sentence_ends(s@)[k],
        forall|k: int| 0 <= k < r@.len() ==> (#[trigger] r@[k]).0 < r@[k].1 <= s@.len(),
{
    let mut bounds: Vec<(usize, usize)> = Vec::new();
    let mut start: usize = 0;
    let mut idx: usize = 0;
    let ghost mut found: Seq<int> = Seq::empty();
    proof {
        lemma_cuts_from_facts(s@, 0);
    }
    while idx < s.len()
        invariant
            start <= idx,
            idx <= s.len() + 1,
            cuts_from(s@, 0) == found + cuts_from(s@, idx as int),
            bounds@.len() == found.len(),
            start == (if found.len() == 0 {
                0
            } else {
                found.last()
            }),
            forall|k: int|
                0 <= k < bounds@.len() ==> (#[trigger] bounds@[k]).1 == found[k] && bounds@[k].0 == (
                if k == 0 {
                    0
                } else {
                    found[k - 1]
                }),
            forall|k: int| 0 <= k < bounds@.len() ==> (#[trigger] bounds@[k]).0 < bounds@[k].1 <= s@.len(),
        decreases s.len() + 1 - idx,
    {
        let at_break = idx + 1 < s.len() && (((s[idx] == '.' || s[idx] == '!' || s[idx] == '?')
            && s[idx + 1] == ' ') || (s[idx] == '\n' && s[idx + 1] == '\n'));
        if at_break {
            let end = idx + 2;
            proof {
                assert(cuts_from(s@, idx as int) == seq![end as int] + cuts_from(s@, end as int));
                assert(found + cuts_from(s@, idx as int) =~= found.push(end as int) + cuts_from(
                    s@,
                    end as int,
                ));
                found = found.push(end as int);
            }
            if end > start {
                bounds.push((start, end));
            }
            start = end;
            idx = end;
        } else {
            idx = idx + 1;
        }
    }
    proof {
        assert(cuts_from(s@, idx as int) =~= Seq::<int>::empty());
        assert(found =~= cuts_from(s@, 0));
    }
    if start < s.len() {
        bounds.push((start, s.len()));
    }
    bounds
}

/// Whether `ids` holds `id`.
pub open spec fn holds_id(ids: Seq<String>, id: Seq<char>) -> bool {
    exists|k: int| 0 <= k < ids.len() && (#[trigger] ids[k])@ == id
}

/// A sentence `[b0, b1)` is kept when every marker starting inside it cites an
/// id accepted by `ok`.
pub open spec fn sentence_kept(s: Seq<char>, ok: spec_fn(Seq<char>) -> bool, b0: int, b1: int) -> bool {
    forall|j: int|
        0 <= j < markers(s).len() && b0 <= #[trigger] markers(s)[j] < b1 ==> ok(
            marker_id(s, markers(s)[j]),
        )
}

/// Concatenation of the kept sentences among the first `n`.
pub open spec fn kept_text(s: Seq<char>, ok: spec_fn(Seq<char>) -> bool, n: int) -> Seq<char>
    decreases n,
{
    if n <= 0 {
        Seq::empty()
    } else {
        let k = n - 1;
        let prev = kept_text(s, ok, k);
        if sentence_kept(s, ok, sentence_start(s, k), sentence_ends(s)[k]) {
            prev + s.subrange(sentence_start(s, k), sentence_ends(s)[k])
        } else {
            prev
        }
    }
}

/// Joins two paragraphs with a blank line, dropping empty ones.
pub open spec fn join_paragraphs(a: Seq<char>, b: Seq<char>) -> Seq<char> {
    if a.len() == 0 {
        b
    } else if b.len() == 0 {
        a
    } else {
        a + seq!['\n', '\n'] + b
    }
}

/// First blank line (`"\n\n"`) at or after `from`.
pub open spec fn first_blank(s: Seq<char>, from: int) -> Option<int>
    decreases s.len() - from,
{
    if from < 0 || from + 1 >= s.len() {
        None
    } else if s[from] == '\n' && s[from + 1] == '\n' {
        Some(from)
    } else {
        first_blank(s, from + 1)
    }
}

/// Paragraphs of `s[from..]` split at blank lines, trimmed, empty ones dropped,
/// joined by blank lines.
pub open spec fn tidy_paragraphs_from(s: Seq<char>, from: int) -> Seq<char>
    decreases s.len() - from,
{
    if from < 0 || from > s.len() {
        Seq::empty()
    } else {
        match first_blank(s, from) {
            None => trim(s.subrange(from, s.len() as int)),
            Some(j) => if j >= from && j + 2 <= s.len() {
                join_paragraphs(trim(s.subrange(from, j)), tidy_paragraphs_from(s, j + 2))
            } else {
                Seq::empty()
            },
        }
    }
}

proof fn lemma_first_blank(s: Seq<char>, from: int)
    requires
        0 <= from,
    ensures
        first_blank(s, from) matches Some(j) ==> from <= j && j + 1 < s.len() && s[j] == '\n' && s[j
            + 1] == '\n',
    decreases s.len() - from,
{
    if from + 1 < s.len() && !(s[from] == '\n' && s[from + 1] == '\n') {
        lemma_first_blank(s, from + 1);
    }
}

proof fn lemma_join_assoc(a: Seq<char>, b: Seq<char>, c: Seq<char>)
    ensures
        join_paragraphs(join_paragraphs(a, b), c) == join_paragraphs(a, join_paragraphs(b, c)),
{
    if a.len() > 0 && b.len() > 0 && c.len() > 0 {
        assert((a + seq!['\n', '\n'] + b) + seq!['\n', '\n'] + c =~= a + seq!['\n', '\n'] + (b
            + seq!['\n', '\n'] + c));
    }
}

/// Appends `s[from..to]` to `out`.
fn push_range(out: &mut Vec<char>, s: &Vec<char>, from: usize, to: usize)
    requires
        from <= to <= s.len(),
    ensures
        final(out)@ == old(out)@ + s@.subrange(from as int, to as int),
{
    let mut i = from;
    while i < to
        invariant
            from <= i <= to <= s.len(),
            out@ == old(out)@ + s@.subrange(from as int, i as int),
        decreases to - i,
    {
        out.push(s[i]);
        i = i + 1;
        proof {
            assert(s@.subrange(from as int, i as int) =~= s@.subrange(from as int, i - 1).push(
                s@[i - 1],
            ));
        }
    }
}

/// Appends the paragraph `s[a..b]` (if non-empty) after a blank line.
fn append_paragraph(out: &mut Vec<char>, s: &Vec<char>, a: usize, b: usize)
    requires
        a <= b <= s.len(),
    ensures
        final(out)@ == join_paragraphs(old(out)@, s@.subrange(a as int, b as int)),
{
    if a < b {
        if out.len() > 0 {
            out.push('\n');
            out.push('\n');
        }
        push_range(out, s, a, b);
        proof {
            if old(out)@.len() > 0 {
                assert(old(out)@.push('\n').push('\n') =~= old(out)@ + seq!['\n', '\n']);
            }
        }
    } else {
        proof {
            assert(s@.subrange(a as int, b as int) =~= Seq::<char>::empty());
        }
    }
}

/// `tidy_paragraphs_from(s, 0)`.
fn tidy_paragraphs(s: &Vec<char>) -> (r: Vec<char>)
    ensures
        r@ == tidy_paragraphs_from(s@, 0),
{
    let mut out: Vec<char> = Vec::new();
    let mut pos: usize = 0;
    loop
        invariant
            pos <= s.len(),
            tidy_paragraphs_from(s@, 0) == join_paragraphs(out@, tidy_paragraphs_from(
                s@,
                pos as int,
            )),
        decreases s.len() - pos,
    {
        let mut j = pos;
        while j < s.len() && j + 1 < s.len() && !(s[j] == '\n' && s[j + 1] == '\n')
            invariant
                pos <= j <= s.len(),
                first_blank(s@, pos as int) == first_blank(s@, j as int),
            decreases s.len() - j,
        {
            j = j + 1;
        }
        proof {
            lemma_first_blank(s@, pos as int);
        }
        if j < s.len() && j + 1 < s.len() {
            let (a, b) = trim_bounds(s, pos, j);
            let ghost t = s@.subrange(a as int, b as int);
            proof {
                lemma_join_assoc(out@, t, tidy_paragraphs_from(s@, j + 2));
            }
            append_paragraph(&mut out, s, a, b);
            pos = j + 2;
        } else {
            let (a, b) = trim_bounds(s, pos, s.len());
            append_paragraph(&mut out, s, a, b);
            proof {
                assert(first_blank(s@, pos as int) is None);
            }
            return out;
        }
    }
}


/// Whether `ids` holds a string equal to `id`.
pub fn contains_id(ids: &Vec<String>, id: &String) -> (b: bool)
    ensures
        b == holds_id(ids@, id@),
{
    let mut k: usize = 0;
    while k < ids.len()
        invariant
            k <= ids.len(),
            forall|j: int| 0 <= j < k ==> (#[trigger] ids@[j])@ != id@,
        decreases ids.len() - k,
    {
        if ids[k] == *id {
            return true;
        }
        k = k + 1;
    }
    false
}

/// Accepts the ids held in `verified`.
pub open spec fn verified_filter(verified: Seq<String>) -> spec_fn(Seq<char>) -> bool {
    |id: Seq<char>| holds_id(verified, id)
}

/// The answer text with every sentence that cites an id outside `verified`
/// dropped, then its paragraphs tidied.
pub open spec fn rewritten_text(text: Seq<char>, verified: Seq<String>) -> Seq<char> {
    tidy_paragraphs_from(kept_text(text, verified_filter(verified), sentence_ends(text).len() as int), 0)
}

/// Character positions and ids of the markers of `s`, in order.
fn marker_char_positions(s: &Vec<char>) -> (r: Vec<(usize, String)>)
    ensures
        r@.len() == markers(s@).len(),
        forall|k: int|
            0 <= k < r@.len() ==> (#[trigger] r@[k]).0 as int == markers(s@)[k] && r@[k].1@
                == marker_id(s@, markers(s@)[k]),
{
    let mut out: Vec<(usize, String)> = Vec::new();
    let mut i: usize = 0;
    while i < s.len()
        invariant
            i <= s@.len(),
            out@.len() == marker_positions(s@, i as int).len(),
            forall|k: int|
                0 <= k < out@.len() ==> (#[trigger] out@[k]).0 as int == marker_positions(s@, i as int)[k]
                    && out@[k].1@ == marker_id(s@, marker_positions(s@, i as int)[k]),
        decreases s.len() - i,
    {
        if marker_starts_at(s, i) {
            let id = string_of_range(s, i + 7, i + 23);
            out.push((i, id));
        }
        i = i + 1;
    }
    out
}

/// Drops every sentence that holds a citation whose id is not in `verified`,
/// then tidies paragraphs: split at blank lines, trim, drop empty, rejoin.
/// Sentences and markers are found by characters, so any text is accepted.
pub fn rewrite_with_only_verified(text: &str, verified: &Vec<String>) -> (r: String)
    ensures
        r@ == rewritten_text(text@, verified@),
{
    let s = chars_of(text);
    let bounds = split_sentence_bounds(&s);
    let marks = marker_char_positions(&s);
    let ghost mk = markers(text@);
    // Which markers cite a verified id.
    let mut ok: Vec<bool> = Vec::new();
    let mut m: usize = 0;
    while m < marks.len()
        invariant
            m <= marks.len(),
            ok@.len() == m,
            marks@.len() == mk.len(),
            forall|k: int|
                0 <= k < marks@.len() ==> (#[trigger] marks@[k]).1@ == marker_id(text@, mk[k]),
            forall|k: int| 0 <= k < m ==> #[trigger] ok@[k] == holds_id(verified@, marker_id(text@, mk[k])),
        decreases marks.len() - m,
    {
        let b = contains_id(verified, &marks[m].1);
        ok.push(b);
        m = m + 1;
    }
    proof {
        lemma_marker_positions(text@, text@.len() as int);
        assert forall|k: int| 0 <= k < marks@.len() implies (#[trigger] marks@[k]).0 == mk[k] by {
        }
    }
    let mut rebuilt: Vec<char> = Vec::new();
    let mut k: usize = 0;
    while k < bounds.len()
        invariant
            k <= bounds.len(),
            s@ == text@,
            bounds@.len() == sentence_ends(s@).len(),
            forall|j: int|
                0 <= j < bounds@.len() ==> (#[trigger] bounds@[j]).0 == sentence_start(s@, j)
                    && bounds@[j].1 == sentence_ends(s@)[j],
            forall|j: int| 0 <= j < bounds@.len() ==> (#[trigger] bounds@[j]).0 < bounds@[j].1 <= s@.len(),
            marks@.len() == mk.len(),
            ok@.len() == mk.len(),
            mk == markers(text@),
            forall|j: int| 0 <= j < marks@.len() ==> (#[trigger] marks@[j]).0 == mk[j],
            forall|j: int| 0 <= j < mk.len() ==> #[trigger] ok@[j] == holds_id(verified@, marker_id(text@, mk[j])),
            rebuilt@ == kept_text(s@, verified_filter(verified@), k as int),
        decreases bounds.len() - k,
    {
        let (b0, b1) = bounds[k];
        let mut kept = true;
        let mut j: usize = 0;
        while j < marks.len()
            invariant
                j <= marks.len(),
                marks@.len() == mk.len(),
                ok@.len() == mk.len(),
                forall|i: int| 0 <= i < marks@.len() ==> (#[trigger] marks@[i]).0 == mk[i],
                forall|i: int| 0 <= i < mk.len() ==> #[trigger] ok@[i] == holds_id(verified@, marker_id(text@, mk[i])),
                kept == (forall|i: int|
                    0 <= i < j && b0 <= #[trigger] mk[i] < b1 ==> holds_id(
                        verified@,
                        marker_id(text@, mk[i]),
                    )),
            decreases marks.len() - j,
        {
            let p = marks[j].0;
            if b0 <= p && p < b1 && !ok[j] {
                kept = false;
            }
            j = j + 1;
        }
        proof {
            assert(kept == sentence_kept(
                s@,
                verified_filter(verified@),
                b0 as int,
                b1 as int,
            ));
        }
        if kept {
            push_range(&mut rebuilt, &s, b0, b1);
        }
        k = k + 1;
    }
    let tidy = tidy_paragraphs(&rebuilt);
    string_of(&tidy)
}

/// A citation written as `[claim:ID]` for a 16-digit lower-case hex id (the
/// form `Claim::compute_id` gives) is found by the parser, wherever it stands,
/// and reads back as that id.
pub proof fn lemma_written_marker_is_found(prefix: Seq<char>, id: Seq<char>, suffix: Seq<char>)
    requires
        id.len() == 16,
        forall|k: int| 0 <= k < 16 ==> is_hex_lower(#[trigger] id[k]),
    ensures
        ({
            let s = prefix + "[claim:"@ + id + "]"@ + suffix;
            &&& markers(s).contains(prefix.len() as int)
            &&& marker_id(s, prefix.len() as int) == id
        }),
{
    reveal_strlit("[claim:");
    reveal_strlit("]");
    let s = prefix + "[claim:"@ + id + "]"@ + suffix;
    let i = prefix.len() as int;
    assert(s.subrange(i + 7, i + 23) =~= id);
    assert forall|k: int| i + 7 <= k < i + 23 implies is_hex_lower(#[trigger] s[k]) by {
        assert(s[k] == id[k - i - 7]);
    }
    assert(marker_at(s, i));
    lemma_marker_positions(s, s.len() as int);
}


/// Every citation marker in `t` names an id accepted by `ok`.
pub open spec fn cites_only(t: Seq<char>, ok: spec_fn(Seq<char>) -> bool) -> bool {
    forall|i: int| #[trigger] marker_at(t, i) ==> ok(marker_id(t, i))
}

/// A space or a line break: no marker holds one.
pub open spec fn is_gap(c: char) -> bool {
    c == ' ' || c == '\n'
}

proof fn lemma_marker_has_no_gap(s: Seq<char>, i: int, p: int)
    requires
        marker_at(s, i),
        i <= p < i + 24,
    ensures
        !is_gap(s[p]),
{
    if i + 7 <= p < i + 23 {
        assert(is_hex_lower(s[p]));
    }
}

proof fn lemma_cites_only_sub(t: Seq<char>, ok: spec_fn(Seq<char>) -> bool, a: int, b: int)
    requires
        cites_only(t, ok),
        0 <= a <= b <= t.len(),
    ensures
        cites_only(t.subrange(a, b), ok),
{
    let u = t.subrange(a, b);
    assert forall|i: int| #[trigger] marker_at(u, i) implies ok(marker_id(u, i)) by {
        assert forall|k: int| a + i + 7 <= k < a + i + 23 implies is_hex_lower(#[trigger] t[k]) by {
            assert(u[k - a] == t[k]);
        }
        assert(u[i] == t[a + i] && u[i + 1] == t[a + i + 1] && u[i + 2] == t[a + i + 2]);
        assert(u[i + 3] == t[a + i + 3] && u[i + 4] == t[a + i + 4] && u[i + 5] == t[a + i + 5]);
        assert(u[i + 6] == t[a + i + 6] && u[i + 23] == t[a + i + 23]);
        assert(marker_at(t, a + i));
        assert(marker_id(u, i) =~= marker_id(t, a + i));
    }
}

proof fn lemma_cites_only_concat(x: Seq<char>, y: Seq<char>, ok: spec_fn(Seq<char>) -> bool)
    requires
        cites_only(x, ok),
        cites_only(y, ok),
        x.len() == 0 || y.len() == 0 || is_gap(x.last()) || is_gap(y[0]),
    ensures
        cites_only(x + y, ok),
{
    let t = x + y;
    assert forall|i: int| #[trigger] marker_at(t, i) implies ok(marker_id(t, i)) by {
        if i + 24 <= x.len() {
            assert forall|k: int| i + 7 <= k < i + 23 implies is_hex_lower(#[trigger] x[k]) by {
                assert(t[k] == x[k]);
            }
            assert(t[i] == x[i] && t[i + 1] == x[i + 1] && t[i + 2] == x[i + 2]);
            assert(t[i + 3] == x[i + 3] && t[i + 4] == x[i + 4] && t[i + 5] == x[i + 5]);
            assert(t[i + 6] == x[i + 6] && t[i + 23] == x[i + 23]);
            assert(marker_at(x, i));
            assert(marker_id(t, i) =~= marker_id(x, i));
        } else if i >= x.len() {
            let j = i - x.len();
            assert forall|k: int| j + 7 <= k < j + 23 implies is_hex_lower(#[trigger] y[k]) by {
                assert(t[k + x.len()] == y[k]);
            }
            assert(t[i] == y[j] && t[i + 1] == y[j + 1] && t[i + 2] == y[j + 2]);
            assert(t[i + 3] == y[j + 3] && t[i + 4] == y[j + 4] && t[i + 5] == y[j + 5]);
            assert(t[i + 6] == y[j + 6] && t[i + 23] == y[j + 23]);
            assert(marker_at(y, j));
            assert(marker_id(t, i) =~= marker_id(y, j));
        } else {
            lemma_marker_has_no_gap(t, i, x.len() - 1);
            lemma_marker_has_no_gap(t, i, x.len() as int);
            assert(t[x.len() - 1] == x.last());
            assert(t[x.len() as int] == y[0]);
        }
    }
}

/// A sentence kept by the rewrite cites only accepted ids.
proof fn lemma_kept_sentence_cites_only(s: Seq<char>, ok: spec_fn(Seq<char>) -> bool, b0: int, b1: int)
    requires
        sentence_kept(s, ok, b0, b1),
        0 <= b0 <= b1 <= s.len(),
    ensures
        cites_only(s.subrange(b0, b1), ok),
{
    let u = s.subrange(b0, b1);
    lemma_marker_positions(s, s.len() as int);
    assert forall|i: int| #[trigger] marker_at(u, i) implies ok(marker_id(u, i)) by {
        assert forall|k: int| b0 + i + 7 <= k < b0 + i + 23 implies is_hex_lower(#[trigger] s[k]) by {
            assert(u[k - b0] == s[k]);
        }
        assert(u[i] == s[b0 + i] && u[i + 1] == s[b0 + i + 1] && u[i + 2] == s[b0 + i + 2]);
        assert(u[i + 3] == s[b0 + i + 3] && u[i + 4] == s[b0 + i + 4] && u[i + 5] == s[b0 + i + 5]);
        assert(u[i + 6] == s[b0 + i + 6] && u[i + 23] == s[b0 + i + 23]);
        assert(marker_at(s, b0 + i));
        assert(markers(s).contains(b0 + i));
        let j = choose|j: int| 0 <= j < markers(s).len() && markers(s)[j] == b0 + i;
        assert(b0 <= markers(s)[j] < b1);
        assert(marker_id(u, i) =~= marker_id(s, b0 + i));
    }
}

proof fn lemma_cuts_end_in_gap(s: Seq<char>, idx: int)
    requires
        0 <= idx,
    ensures
        forall|k: int|
            0 <= k < cuts_from(s, idx).len() ==> is_gap(s[#[trigger] cuts_from(s, idx)[k] - 1]),
    decreases s.len() - idx,
{
    if idx < s.len() {
        if sentence_break_at(s, idx) {
            lemma_cuts_end_in_gap(s, idx + 2);
            let rest = cuts_from(s, idx + 2);
            assert forall|k: int| 0 <= k < cuts_from(s, idx).len() implies is_gap(
                s[#[trigger] cuts_from(s, idx)[k] - 1],
            ) by {
                if k > 0 {
                    assert(cuts_from(s, idx)[k] == rest[k - 1]);
                }
            }
        } else {
            lemma_cuts_end_in_gap(s, idx + 1);
            assert(cuts_from(s, idx) == cuts_from(s, idx + 1));
        }
    }
}

/// The sentences are consecutive non-empty spans of the text, and each one
/// that ends at a sentence break ends with a space or a line break.
proof fn lemma_sentence_spans(s: Seq<char>)
    ensures
        forall|k: int|
            0 <= k < sentence_ends(s).len() ==> 0 <= sentence_start(s, k) < #[trigger] sentence_ends(s)[k]
                <= s.len(),
        forall|k: int|
            0 <= k < cuts_from(s, 0).len() ==> #[trigger] sentence_ends(s)[k] == cuts_from(s, 0)[k]
                && is_gap(s[sentence_ends(s)[k] - 1]),
        sentence_ends(s).len() <= cuts_from(s, 0).len() + 1,
{
    lemma_cuts_from_facts(s, 0);
    lemma_cuts_end_in_gap(s, 0);
    let c = cuts_from(s, 0);
    let e = sentence_ends(s);
    assert forall|k: int| 0 <= k < c.len() implies #[trigger] e[k] == c[k] && is_gap(s[e[k] - 1]) by {
        assert(e[k] == c[k]);
    }
    assert forall|k: int| 0 <= k < e.len() implies 0 <= sentence_start(s, k) < #[trigger] e[k] <= s.len() by {
        if k < c.len() {
            assert(e[k] == c[k]);
            if k > 0 {
                assert(e[k - 1] == c[k - 1]);
            }
        } else {
            assert(e[k] == s.len());
            if k > 0 {
                assert(e[k - 1] == c[k - 1]);
                assert(c[k - 1] == c.last());
            }
        }
    }
}

/// Kept sentences, joined, cite only accepted ids; up to the last sentence
/// break their join is empty or ends with a space or a line break.
proof fn lemma_kept_text_cites_only(s: Seq<char>, ok: spec_fn(Seq<char>) -> bool, n: int)
    requires
        0 <= n <= sentence_ends(s).len(),
    ensures
        cites_only(kept_text(s, ok, n), ok),
        n <= cuts_from(s, 0).len() ==> kept_text(s, ok, n).len() == 0 || is_gap(kept_text(s, ok, n).last()),
    decreases n,
{
    if n > 0 {
        let k = n - 1;
        lemma_kept_text_cites_only(s, ok, k);
        lemma_sentence_spans(s);
        let b0 = sentence_start(s, k);
        let b1 = sentence_ends(s)[k];
        assert(0 <= b0 < b1 <= s.len());
        if sentence_kept(s, ok, b0, b1) {
            let prev = kept_text(s, ok, k);
            let piece = s.subrange(b0, b1);
            lemma_kept_sentence_cites_only(s, ok, b0, b1);
            lemma_cites_only_concat(prev, piece, ok);
            assert(kept_text(s, ok, n) == prev + piece);
            if n <= cuts_from(s, 0).len() {
                assert((prev + piece).last() == piece.last());
                assert(piece.last() == s[b1 - 1]);
            }
        }
    } else {
        assert(kept_text(s, ok, 0).len() == 0);
    }
}

/// Trimming keeps a span of the text.
proof fn lemma_trim_cites_only(x: Seq<char>, ok: spec_fn(Seq<char>) -> bool)
    requires
        cites_only(x, ok),
    ensures
        cites_only(trim(x), ok),
{
    crate::text::lemma_lead_ws_bound(x);
    let y = crate::text::trim_start(x);
    assert(y =~= x.subrange(crate::text::lead_ws(x) as int, x.len() as int));
    lemma_cites_only_sub(x, ok, crate::text::lead_ws(x) as int, x.len() as int);
    crate::text::lemma_trail_ws_bound(y);
    assert(trim(x) =~= y.subrange(0, y.len() - crate::text::trail_ws(y)));
    lemma_cites_only_sub(y, ok, 0, y.len() - crate::text::trail_ws(y));
}

/// Tidying paragraphs cites nothing new.
proof fn lemma_tidy_cites_only(t: Seq<char>, ok: spec_fn(Seq<char>) -> bool, from: int)
    requires
        cites_only(t, ok),
    ensures
        cites_only(tidy_paragraphs_from(t, from), ok),
    decreases t.len() - from,
{
    if 0 <= from <= t.len() {
        lemma_first_blank(t, from);
        match first_blank(t, from) {
            None => {
                lemma_cites_only_sub(t, ok, from, t.len() as int);
                lemma_trim_cites_only(t.subrange(from, t.len() as int), ok);
            },
            Some(j) => {
                lemma_cites_only_sub(t, ok, from, j);
                let a = trim(t.subrange(from, j));
                lemma_trim_cites_only(t.subrange(from, j), ok);
                lemma_tidy_cites_only(t, ok, j + 2);
                let b = tidy_paragraphs_from(t, j + 2);
                let nl = seq!['\n', '\n'];
                assert(cites_only(nl, ok));
                lemma_cites_only_concat(a, nl, ok);
                assert((a + nl).last() == '\n');
                lemma_cites_only_concat(a + nl, b, ok);
            },
        }
    }
}

/// The rewritten answer cites only verified claims: every `[claim:ID]`
/// marker left in it names an id in `verified`.
pub proof fn lemma_rewrite_cites_only_verified(text: Seq<char>, verified: Seq<String>)
    ensures
        forall|i: int|
            #[trigger] marker_at(rewritten_text(text, verified), i) ==> holds_id(
                verified,
                marker_id(rewritten_text(text, verified), i),
            ),
{
    let ok = verified_filter(verified);
    let n = sentence_ends(text).len() as int;
    lemma_kept_text_cites_only(text, ok, n);
    lemma_tidy_cites_only(kept_text(text, ok, n), ok, 0);
    let r = rewritten_text(text, verified);
    assert forall|i: int| #[trigger] marker_at(r, i) implies holds_id(verified, marker_id(r, i)) by {
        assert(ok(marker_id(r, i)));
    }
}

} // verus!
