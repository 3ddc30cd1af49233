//! The body of a note file: the text after its `---` frontmatter block.
use vstd::prelude::*;
use crate::text::{trim, chars_of, matches_at, seq_at, trim_bounds, find_char, find_char_from, string_of_range};
use crate::ingest::strip_eol;
use crate::extract::line_end;

verus! {

/// Whether the line starting at `i` is `---` once its line break is removed
/// and it is trimmed.
pub open spec fn is_fence_line(s: Seq<char>, i: int) -> bool {
    trim(strip_eol(s.subrange(i, line_end(s, i)))) == "---"@
}

/// Where the text after the first fence line at or after position `i` starts.
pub open spec fn after_fence_from(s: Seq<char>, i: int) -> Option<int>
    decreases s.len() - i,
{
    if i < 0 || i >= s.len() {
        None
    } else if is_fence_line(s, i) {
        Some(line_end(s, i))
    } else if i < line_end(s, i) <= s.len() {
        after_fence_from(s, line_end(s, i))
    } else {
        None
    }
}

/// The body of a note: when its first line is `---` and a later line is
/// `---` (each trimmed), the text after the closing line; otherwise the whole
/// text.
pub open spec fn body_of(s: Seq<char>) -> Seq<char> {
    if s.len() > 0 && is_fence_line(s, 0) {
        match after_fence_from(s, line_end(s, 0)) {
            Some(p) => s.skip(p),
            None => s,
        }
    } else {
        s
    }
}

/// The end of the line that starts at `i` (see `line_end`).
fn end_of_line(v: &Vec<char>, i: usize) -> (r: usize)
    requires
        i <= v@.len(),
    ensures
        r as int == line_end(v@, i as int),
        i <= r <= v@.len(),
        i < v@.len() ==> i < r,
{
    match find_char(v, '\n', i, v.len()) {
        Some(k) => k + 1,
        None => v.len(),
    }
}

/// Whether the line `v[i..e]` is a fence (see `is_fence_line`).
fn fence_at(v: &Vec<char>, i: usize, e: usize) -> (r: bool)
    requires
        i <= e <= v@.len(),
        e as int == line_end(v@, i as int),
    ensures
        r == is_fence_line(v@, i as int),
{
    let mut b = e;
    if b > i && v[b - 1] == '\n' {
        b = b - 1;
    }
    if b > i && v[b - 1] == '\r' {
        b = b - 1;
    }
    proof {
        assert(v@.subrange(i as int, b as int) =~= strip_eol(v@.subrange(i as int, e as int)));
    }
    let (s, t) = trim_bounds(v, i, b);
    proof {
        reveal_strlit("---");
    }
    if t - s != 3 {
        proof {
            assert(v@.subrange(s as int, t as int).len() != "---"@.len());
        }
        return false;
    }
    let m = matches_at(v, s, "---");
    proof {
        if !m {
            assert(!seq_at(v@, s as int, "---"@));
        }
    }
    m
}

/// The body of a note file (see `body_of`).
pub fn note_body(source: &str) -> (r: String)
    ensures
        r@ == body_of(source@),
{
    let v = chars_of(source);
    proof {
        assert(v@.subrange(0, v@.len() as int) =~= v@);
        assert(v@.skip(0) =~= v@);
    }
    if v.len() == 0 {
        return string_of_range(&v, 0, 0);
    }
    let e0 = end_of_line(&v, 0);
    if !fence_at(&v, 0, e0) {
        return string_of_range(&v, 0, v.len());
    }
    let mut i = e0;
    while i < v.len()
        invariant
            v@ == source@,
            v@.len() > 0,
            is_fence_line(v@, 0),
            e0 as int == line_end(v@, 0),
            e0 <= i <= v@.len(),
            after_fence_from(v@, e0 as int) == after_fence_from(v@, i as int),
        decreases v.len() - i,
    {
        let e = end_of_line(&v, i);
        if fence_at(&v, i, e) {
            let r = string_of_range(&v, e, v.len());
            proof {
                assert(r@ =~= v@.skip(e as int));
            }
            return r;
        }
        i = e;
    }
    string_of_range(&v, 0, v.len())
}

/// Escape of one character inside a double-quoted frontmatter value.
pub open spec fn quoted_char(c: char) -> Seq<char> {
    if c == '"' {
        seq!['\\', '"']
    } else if c == '\\' {
        seq!['\\', '\\']
    } else if c == '\n' {
        seq!['\\', 'n']
    } else {
        seq![c]
    }
}

/// A value written between double quotes, with quotes, backslashes and line
/// breaks escaped.
pub open spec fn quoted(s: Seq<char>) -> Seq<char>
    decreases s.len(),
{
    if s.len() == 0 {
        Seq::empty()
    } else {
        quoted(s.drop_last()) + quoted_char(s.last())
    }
}

/// Tags as a flow list: `[a, b]`.
pub open spec fn tag_list(tags: Seq<Seq<char>>) -> Seq<char> {
    "["@ + crate::challenge_report::comma_joined(tags, tags.len() as int) + "]"@
}

/// The fields a note file starts with.
#[derive(Debug, Clone)]
pub struct NoteHeader {
    pub id: String,
    pub region: String,
    /// `personal` or `reference`.
    pub source: String,
    pub privacy: crate::privacy::Privacy,
    /// RFC 3339 time stamps.
    pub created: String,
    pub updated: String,
    pub summary: String,
    pub tags: Vec<String>,
}

/// The frontmatter lines that a note file is written with, in order.
pub open spec fn header_lines(h: NoteHeader) -> Seq<Seq<char>> {
    seq![
        "id: "@ + h.id@,
        "region: "@ + h.region@,
        "source: "@ + h.source@,
        "privacy: "@ + crate::privacy::privacy_name(h.privacy),
        "created: "@ + h.created@,
        "updated: "@ + h.updated@,
        "summary: \""@ + quoted(h.summary@) + "\""@,
        "tags: "@ + tag_list(crate::order::texts(h.tags@)),
        "refs: []"@,
    ]
}

/// A note file: a `---` line, the header lines, a `---` line, then the body
/// and a final line break.
pub open spec fn note_file(h: NoteHeader, body: Seq<char>) -> Seq<char> {
    "---\n"@ + lines_text(header_lines(h)) + "---\n"@ + body + "\n"@
}

/// Appends `key`, `value` and a line break.
fn push_line(out: &mut Vec<char>, key: &str, value: &str)
    ensures
        final(out)@ == old(out)@ + (key@ + value@) + seq!['\n'],
{
    crate::claims::push_str_chars(out, key);
    crate::claims::push_str_chars(out, value);
    out.push('\n');
    proof {
        assert(out@ =~= old(out)@ + (key@ + value@) + seq!['\n']);
    }
}

/// Appends the summary line, the summary quoted.
fn push_summary_line(out: &mut Vec<char>, summary: &str)
    ensures
        final(out)@ == old(out)@ + ("summary: \""@ + quoted(summary@) + "\""@) + seq!['\n'],
{
    crate::claims::push_str_chars(out, "summary: \"");
    let ghost before_summary = out@;
    let sv = chars_of(summary);
    let mut i: usize = 0;
    while i < sv.len()
        invariant
            i <= sv@.len(),
            sv@ == summary@,
            out@ == before_summary + quoted(sv@.take(i as int)),
        decreases sv.len() - i,
    {
        let c = sv[i];
        proof {
            assert(sv@.take(i + 1).drop_last() =~= sv@.take(i as int));
        }
        if c == '"' {
            out.push('\\');
            out.push('"');
        } else if c == '\\' {
            out.push('\\');
            out.push('\\');
        } else if c == '\n' {
            out.push('\\');
            out.push('n');
        } else {
            out.push(c);
        }
        proof {
            assert(out@ =~= before_summary + quoted(sv@.take(i + 1)));
        }
        i = i + 1;
    }
    proof {
        assert(sv@.take(sv@.len() as int) =~= sv@);
    }
    crate::claims::push_str_chars(out, "\"");
    out.push('\n');
    proof {
        assert(out@ =~= old(out)@ + ("summary: \""@ + quoted(summary@) + "\""@) + seq!['\n']);
    }
}

/// Appends the tags line.
fn push_tags_line(out: &mut Vec<char>, tags: &Vec<String>)
    ensures
        final(out)@ == old(out)@ + ("tags: "@ + tag_list(crate::order::texts(tags@))) + seq!['\n'],
{
    crate::claims::push_str_chars(out, "tags: ");
    crate::claims::push_str_chars(out, "[");
    let ghost before_tags = out@;
    let mut k: usize = 0;
    while k < tags.len()
        invariant
            k <= tags@.len(),
            out@ == before_tags + crate::challenge_report::comma_joined(crate::order::texts(tags@), k as int),
        decreases tags.len() - k,
    {
        if k > 0 {
            crate::claims::push_str_chars(out, ", ");
        }
        crate::claims::push_str_chars(out, tags[k].as_str());
        proof {
            assert(crate::order::texts(tags@)[k as int] == tags@[k as int]@);
        }
        k = k + 1;
    }
    crate::claims::push_str_chars(out, "]");
    out.push('\n');
    proof {
        assert(out@ =~= old(out)@ + ("tags: "@ + tag_list(crate::order::texts(tags@))) + seq!['\n']);
    }
}

/// A note file for the header and body (see `note_file`).
#[verifier::spinoff_prover]
pub fn render_note_file(h: &NoteHeader, body: &str) -> (r: String)
    ensures
        r@ == note_file(*h, body@),
{
    let ghost ls = header_lines(*h);
    let mut out: Vec<char> = Vec::new();
    crate::claims::push_str_chars(&mut out, "---\n");
    let ghost top = out@;
    proof {
        assert(ls.take(0) =~= Seq::<Seq<char>>::empty());
        assert(out@ =~= top + lines_text(ls.take(0)));
    }
    push_line(&mut out, "id: ", h.id.as_str());
    proof {
        lemma_lines_take_step(ls, 0);
        assert(out@ =~= top + lines_text(ls.take(1)));
    }
    push_line(&mut out, "region: ", h.region.as_str());
    proof {
        lemma_lines_take_step(ls, 1);
        assert(out@ =~= top + lines_text(ls.take(2)));
    }
    push_line(&mut out, "source: ", h.source.as_str());
    proof {
        lemma_lines_take_step(ls, 2);
        assert(out@ =~= top + lines_text(ls.take(3)));
    }
    push_line(&mut out, "privacy: ", h.privacy.as_str());
    proof {
        lemma_lines_take_step(ls, 3);
        assert(out@ =~= top + lines_text(ls.take(4)));
    }
    push_line(&mut out, "created: ", h.created.as_str());
    proof {
        lemma_lines_take_step(ls, 4);
        assert(out@ =~= top + lines_text(ls.take(5)));
    }
    push_line(&mut out, "updated: ", h.updated.as_str());
    proof {
        lemma_lines_take_step(ls, 5);
        assert(out@ =~= top + lines_text(ls.take(6)));
    }
    push_summary_line(&mut out, h.summary.as_str());
    proof {
        lemma_lines_take_step(ls, 6);
        assert(out@ =~= top + lines_text(ls.take(7)));
    }
    push_tags_line(&mut out, &h.tags);
    proof {
        lemma_lines_take_step(ls, 7);
        assert(out@ =~= top + lines_text(ls.take(8)));
    }
    push_line(&mut out, "refs: []", "");
    proof {
        reveal_strlit("");
        assert(("refs: []"@ + ""@) =~= ls[8]);
        lemma_lines_take_step(ls, 8);
        assert(out@ =~= top + lines_text(ls.take(9)));
        assert(ls.take(9) =~= ls);
    }
    crate::claims::push_str_chars(&mut out, "---\n");
    crate::claims::push_str_chars(&mut out, body);
    crate::claims::push_str_chars(&mut out, "\n");
    proof {
        assert(out@ =~= note_file(*h, body@));
    }
    crate::text::string_of(&out)
}

/// No line break in the text.
pub open spec fn line_free(s: Seq<char>) -> bool {
    forall|k: int| 0 <= k < s.len() ==> s[k] != '\n'
}

/// A frontmatter line as written: it begins with a lower-case key and holds
/// no line break.
pub open spec fn keyed_line(l: Seq<char>) -> bool {
    l.len() > 0 && 'a' <= l[0] && l[0] <= 'z' && line_free(l)
}

/// Lines, each followed by a line break.
pub open spec fn lines_text(ls: Seq<Seq<char>>) -> Seq<char>
    decreases ls.len(),
{
    if ls.len() == 0 {
        Seq::empty()
    } else {
        ls[0] + seq!['\n'] + lines_text(ls.drop_first())
    }
}

proof fn lemma_find_newline(s: Seq<char>, i: int, n: int)
    requires
        0 <= i,
        0 <= n,
        i + n < s.len(),
        forall|k: int| i <= k < i + n ==> s[k] != '\n',
        s[i + n] == '\n',
    ensures
        find_char_from(s, '\n', i, s.len() as int) == Some(i + n),
    decreases n,
{
    if n > 0 {
        lemma_find_newline(s, i + 1, n - 1);
    }
}

proof fn lemma_trail_ws_short(x: Seq<char>)
    requires
        x.len() > 0,
        !crate::text::is_ws(x[0]),
    ensures
        crate::text::trail_ws(x) < x.len(),
    decreases x.len(),
{
    if x.len() > 1 && crate::text::is_ws(x.last()) {
        lemma_trail_ws_short(x.drop_last());
    }
}

/// A keyed line is no fence, and the scan moves past it.
proof fn lemma_pass_keyed_line(s: Seq<char>, i: int, l: Seq<char>)
    requires
        0 <= i,
        i + l.len() + 1 <= s.len(),
        s.subrange(i, i + l.len() + 1) == l + seq!['\n'],
        keyed_line(l),
    ensures
        after_fence_from(s, i) == after_fence_from(s, i + l.len() + 1),
{
    assert forall|k: int| i <= k < i + l.len() implies s[k] != '\n' by {
        assert(s[k] == s.subrange(i, i + l.len() + 1)[k - i]);
    }
    assert(s[i + l.len()] == s.subrange(i, i + l.len() + 1)[l.len() as int]);
    lemma_find_newline(s, i, l.len() as int);
    let e = i + l.len() + 1;
    assert(line_end(s, i) == e);
    let x = strip_eol(s.subrange(i, e));
    assert(s.subrange(i, e).last() == '\n');
    assert(x.len() > 0 && x[0] == l[0]) by {
        assert(s.subrange(i, e)[0] == l[0]);
        assert(s.subrange(i, e).drop_last().len() == l.len());
    }
    assert(!crate::text::is_ws(x[0]));
    lemma_trail_ws_short(x);
    assert(crate::text::lead_ws(x) == 0);
    assert(crate::text::trim_start(x) =~= x);
    let t = trim(x);
    assert(t.len() > 0 && t[0] == l[0]);
    reveal_strlit("---");
    assert("---"@[0] == '-');
    assert(!is_fence_line(s, i));
}

/// Scanning from the start of written lines moves past all of them.
proof fn lemma_pass_lines(a: Seq<char>, ls: Seq<Seq<char>>, b: Seq<char>)
    requires
        forall|k: int| 0 <= k < ls.len() ==> keyed_line(#[trigger] ls[k]),
    ensures
        after_fence_from(a + lines_text(ls) + b, a.len() as int) == after_fence_from(
            a + lines_text(ls) + b,
            (a.len() + lines_text(ls).len()) as int,
        ),
    decreases ls.len(),
{
    if ls.len() > 0 {
        let s = a + lines_text(ls) + b;
        let l = ls[0];
        let rest = ls.drop_first();
        let a2 = a + l + seq!['\n'];
        assert(lines_text(ls) == l + seq!['\n'] + lines_text(rest));
        assert(s =~= a2 + lines_text(rest) + b);
        assert(s.subrange(a.len() as int, (a.len() + l.len() + 1) as int) =~= l + seq!['\n']);
        lemma_pass_keyed_line(s, a.len() as int, l);
        assert forall|k: int| 0 <= k < rest.len() implies keyed_line(#[trigger] rest[k]) by {
            assert(rest[k] == ls[k + 1]);
        }
        lemma_pass_lines(a2, rest, b);
    }
}

/// The fence line that closes the frontmatter ends the scan.
proof fn lemma_closing_fence(s: Seq<char>, p: int)
    requires
        0 <= p,
        p + 4 <= s.len(),
        s.subrange(p, p + 4) == "---\n"@,
    ensures
        after_fence_from(s, p) == Some(p + 4),
        is_fence_line(s, p),
{
    reveal_strlit("---\n");
    reveal_strlit("---");
    assert(s[p + 3] == s.subrange(p, p + 4)[3]);
    assert forall|k: int| p <= k < p + 3 implies s[k] != '\n' by {
        assert(s[k] == s.subrange(p, p + 4)[k - p]);
    }
    lemma_find_newline(s, p, 3);
    assert(line_end(s, p) == p + 4);
    let x = strip_eol(s.subrange(p, p + 4));
    assert(x =~= "---"@);
    assert(!crate::text::is_ws(x[0]) && !crate::text::is_ws(x[2]));
    assert(crate::text::lead_ws(x) == 0);
    assert(crate::text::trail_ws(x) == 0);
    assert(crate::text::trim_start(x) =~= x);
    assert(trim(x) =~= x);
}

/// The body of a note file is read back as written: lines before a closing
/// `---` fence that each begin with a lower-case key and hold no line break
/// are skipped, and the text after the fence is returned.
pub proof fn lemma_body_after_frontmatter(ls: Seq<Seq<char>>, body: Seq<char>)
    requires
        forall|k: int| 0 <= k < ls.len() ==> keyed_line(#[trigger] ls[k]),
    ensures
        body_of("---\n"@ + lines_text(ls) + ("---\n"@ + body)) == body,
{
    reveal_strlit("---\n");
    let b = "---\n"@ + body;
    let s = "---\n"@ + lines_text(ls) + b;
    assert(s.subrange(0, 4) =~= "---\n"@);
    lemma_closing_fence(s, 0);
    lemma_pass_lines("---\n"@, ls, b);
    let p: int = 4 + lines_text(ls).len() as int;
    assert(s.subrange(p, p + 4) =~= "---\n"@);
    lemma_closing_fence(s, p);
    assert(s.skip(p + 4) =~= body);
}


proof fn lemma_quoted_line_free(s: Seq<char>)
    ensures
        line_free(quoted(s)),
    decreases s.len(),
{
    if s.len() > 0 {
        lemma_quoted_line_free(s.drop_last());
        let q = quoted(s.drop_last());
        let c = quoted_char(s.last());
        assert(line_free(c));
        assert forall|k: int| 0 <= k < (q + c).len() implies (q + c)[k] != '\n' by {
            if k >= q.len() {
                assert((q + c)[k] == c[k - q.len()]);
            }
        }
    }
}

proof fn lemma_comma_joined_line_free(ls: Seq<Seq<char>>, n: int)
    requires
        0 <= n <= ls.len(),
        forall|k: int| 0 <= k < ls.len() ==> line_free(#[trigger] ls[k]),
    ensures
        line_free(crate::challenge_report::comma_joined(ls, n)),
    decreases n,
{
    reveal_strlit(", ");
    if n > 1 {
        lemma_comma_joined_line_free(ls, n - 1);
        let a = crate::challenge_report::comma_joined(ls, n - 1);
        let b = ls[n - 1];
        assert(line_free(b));
        assert forall|k: int| 0 <= k < (a + ", "@ + b).len() implies (a + ", "@ + b)[k] != '\n' by {
            if k >= a.len() + 2 {
                assert((a + ", "@ + b)[k] == b[k - a.len() - 2]);
            } else if k >= a.len() {
                assert((a + ", "@ + b)[k] == ", "@[k - a.len()]);
            } else {
                assert((a + ", "@ + b)[k] == a[k]);
            }
        }
    } else if n == 1 {
        assert(line_free(ls[0]));
    }
}

proof fn lemma_line_free_concat(a: Seq<char>, b: Seq<char>)
    requires
        line_free(a),
        line_free(b),
    ensures
        line_free(a + b),
{
    assert forall|i: int| 0 <= i < (a + b).len() implies (a + b)[i] != '\n' by {
        if i < a.len() {
            assert((a + b)[i] == a[i]);
        } else {
            assert((a + b)[i] == b[i - a.len()]);
        }
    }
}

/// Lines written one more at a time.
proof fn lemma_lines_take_step(ls: Seq<Seq<char>>, k: int)
    requires
        0 <= k < ls.len(),
    ensures
        lines_text(ls.take(k + 1)) == lines_text(ls.take(k)) + ls[k] + seq!['\n'],
{
    assert(ls.take(k + 1) =~= ls.take(k).push(ls[k]));
    lemma_lines_push(ls.take(k), ls[k]);
}

proof fn lemma_lines_push(ls: Seq<Seq<char>>, l: Seq<char>)
    ensures
        lines_text(ls.push(l)) == lines_text(ls) + l + seq!['\n'],
    decreases ls.len(),
{
    if ls.len() == 0 {
        assert(ls.push(l).drop_first() =~= Seq::<Seq<char>>::empty());
        assert(ls.push(l)[0] == l);
        assert(lines_text(ls.push(l).drop_first()) == Seq::<char>::empty());
        assert(lines_text(ls.push(l)) =~= l + seq!['\n']);
    } else {
        assert(ls.push(l).drop_first() =~= ls.drop_first().push(l));
        lemma_lines_push(ls.drop_first(), l);
        assert(lines_text(ls.push(l)) =~= lines_text(ls) + l + seq!['\n']);
    }
}

proof fn lemma_keyed_concat(k: Seq<char>, v: Seq<char>)
    requires
        keyed_line(k),
        line_free(v),
    ensures
        keyed_line(k + v),
{
    assert((k + v)[0] == k[0]);
    assert forall|i: int| 0 <= i < (k + v).len() implies (k + v)[i] != '\n' by {
        if i < k.len() {
            assert((k + v)[i] == k[i]);
        } else {
            assert((k + v)[i] == v[i - k.len()]);
        }
    }
}

/// No field of the header but the summary holds a line break.
pub open spec fn header_fields_line_free(h: NoteHeader) -> bool {
    &&& line_free(h.id@)
    &&& line_free(h.region@)
    &&& line_free(h.source@)
    &&& line_free(h.created@)
    &&& line_free(h.updated@)
    &&& forall|k: int| 0 <= k < h.tags@.len() ==> line_free(#[trigger] h.tags@[k]@)
}

proof fn lemma_header_lines_keyed(h: NoteHeader)
    requires
        header_fields_line_free(h),
    ensures
        forall|k: int| 0 <= k < header_lines(h).len() ==> keyed_line(#[trigger] header_lines(h)[k]),
{
    reveal_strlit("id: ");
    reveal_strlit("region: ");
    reveal_strlit("source: ");
    reveal_strlit("privacy: ");
    reveal_strlit("created: ");
    reveal_strlit("updated: ");
    reveal_strlit("summary: \"");
    reveal_strlit("\"");
    reveal_strlit("tags: ");
    reveal_strlit("refs: []");
    reveal_strlit("[");
    reveal_strlit("]");
    reveal_strlit("public");
    reveal_strlit("private");
    reveal_strlit("secret");
    let ls = header_lines(h);
    lemma_keyed_concat("id: "@, h.id@);
    lemma_keyed_concat("region: "@, h.region@);
    lemma_keyed_concat("source: "@, h.source@);
    lemma_keyed_concat("privacy: "@, crate::privacy::privacy_name(h.privacy));
    lemma_keyed_concat("created: "@, h.created@);
    lemma_keyed_concat("updated: "@, h.updated@);
    lemma_quoted_line_free(h.summary@);
    lemma_keyed_concat("summary: \""@, quoted(h.summary@));
    lemma_keyed_concat("summary: \""@ + quoted(h.summary@), "\""@);
    let t = crate::order::texts(h.tags@);
    assert forall|k: int| 0 <= k < t.len() implies line_free(#[trigger] t[k]) by {
        assert(t[k] == h.tags@[k]@);
    }
    lemma_comma_joined_line_free(t, t.len() as int);
    let j = crate::challenge_report::comma_joined(t, t.len() as int);
    lemma_line_free_concat("["@, j);
    lemma_line_free_concat("["@ + j, "]"@);
    lemma_keyed_concat("tags: "@, tag_list(t));
    assert(keyed_line("refs: []"@));
}

/// Reading back a rendered note file gives its body, followed by the line
/// break the file ends with, whenever no header field but the summary holds a
/// line break (the summary is escaped).
pub proof fn lemma_rendered_note_body(h: NoteHeader, body: Seq<char>)
    requires
        header_fields_line_free(h),
    ensures
        body_of(note_file(h, body)) == body + "\n"@,
{
    lemma_header_lines_keyed(h);
    reveal_strlit("---\n");
    assert(note_file(h, body) =~= "---\n"@ + lines_text(header_lines(h)) + ("---\n"@ + (body + "\n"@)));
    lemma_body_after_frontmatter(header_lines(h), body + "\n"@);
}

} // verus!
