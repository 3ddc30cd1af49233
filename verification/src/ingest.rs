//! Turning an outside document into note text: cleaning, subtitle stripping,
//! note ids, slugs and summaries.
use vstd::prelude::*;

use crate::claims::{blake3_hex, blake3_hex_of, push_str_chars};
use crate::extract::line_end;
use crate::text::{
    ascii_lower, chars_of, collapse_whitespace, collapse_ws, find_char, has_prefix, is_ascii_alnum,
    is_ascii_digit, is_ws, seq_at, starts_with, string_of, string_of_range, trim, trim_bounds,
};

verus! {

/// Whether the source is a web address.
pub fn is_url(s: &str) -> (b: bool)
    ensures
        b == (has_prefix(s@, "http://"@) || has_prefix(s@, "https://"@)),
{
    starts_with(s, "http://") || starts_with(s, "https://")
}

/// Lower-cased ASCII letters and digits, other runs turned into one dash
/// (none before the first letter or digit), read left to right.
pub open spec fn dash_slug(s: Seq<char>) -> Seq<char>
    decreases s.len(),
{
    if s.len() == 0 {
        Seq::empty()
    } else {
        let r = dash_slug(s.drop_last());
        let c = s.last();
        if is_ascii_alnum(c) {
            r.push(ascii_lower(c))
        } else if r.len() > 0 && r.last() != '-' {
            r.push('-')
        } else {
            r
        }
    }
}

/// A readable, filesystem-safe id stem: `dash_slug` without its trailing dash,
/// cut to 48 characters, or `document` when nothing is left.
pub open spec fn slug(s: Seq<char>) -> Seq<char> {
    let d = dash_slug(s);
    let t = if d.len() > 0 && d.last() == '-' {
        d.drop_last()
    } else {
        d
    };
    let c = if t.len() > 48 {
        t.take(48)
    } else {
        t
    };
    if c.len() == 0 {
        "document"@
    } else {
        c
    }
}

/// A readable, filesystem-safe id stem (see `slug`).
pub fn slugify(s: &str) -> (r: String)
    ensures
        r@ == slug(s@),
{
    let v = chars_of(s);
    let mut out: Vec<char> = Vec::new();
    let mut i: usize = 0;
    while i < v.len()
        invariant
            v@ == s@,
            i <= v@.len(),
            out@ == dash_slug(v@.take(i as int)),
        decreases v.len() - i,
    {
        let c = v[i];
        proof {
            assert(v@.take(i + 1).drop_last() =~= v@.take(i as int));
        }
        if ('a' <= c && c <= 'z') || ('A' <= c && c <= 'Z') || ('0' <= c && c <= '9') {
            out.push(crate::text::to_ascii_lower(c));
        } else if out.len() > 0 && out[out.len() - 1] != '-' {
            out.push('-');
        }
        i = i + 1;
    }
    proof {
        assert(v@.take(v@.len() as int) =~= v@);
    }
    let mut n = out.len();
    if n > 0 && out[n - 1] == '-' {
        n = n - 1;
    }
    if n > 48 {
        n = 48;
    }
    if n == 0 {
        return "document".to_string();
    }
    proof {
        let d = dash_slug(s@);
        let t = if d.len() > 0 && d.last() == '-' {
            d.drop_last()
        } else {
            d
        };
        assert(out@.subrange(0, n as int) =~= if t.len() > 48 {
            t.take(48)
        } else {
            t
        });
    }
    string_of_range(&out, 0, n)
}

/// The part of a URL between the first `://` and the next one (or the whole
/// text when there is none), cut at the first `?` or `#`.
pub open spec fn url_part(url: Seq<char>) -> Seq<char> {
    let after = match crate::text::find_from(url, "://"@, 0) {
        Some(k) => {
            let rest = url.skip(k + 3);
            match crate::text::find_from(rest, "://"@, 0) {
                Some(j) => rest.take(j),
                None => rest,
            }
        },
        None => url,
    };
    let q = crate::text::find_char_from(after, '?', 0, after.len() as int);
    let h = crate::text::find_char_from(after, '#', 0, after.len() as int);
    let cut = match (q, h) {
        (Some(a), Some(b)) => if a < b {
            a
        } else {
            b
        },
        (Some(a), None) => a,
        (None, Some(b)) => b,
        (None, None) => after.len() as int,
    };
    after.take(cut)
}

/// A slug for a web address: host and path, without scheme, query or fragment.
pub fn url_slug(url: &str) -> (r: String)
    ensures
        r@ == slug(url_part(url@)),
{
    let v = chars_of(url);
    let sep = chars_of("://");
    let (lo, hi) = match crate::text::find_chars(&v, &sep) {
        Some(k) => {
            proof {
                reveal_strlit("://");
            }
            let rest_start = k + 3;
            let mut rest: Vec<char> = Vec::new();
            let mut t = rest_start;
            while t < v.len()
                invariant
                    rest_start <= t <= v@.len(),
                    rest@ == v@.subrange(rest_start as int, t as int),
                decreases v.len() - t,
            {
                rest.push(v[t]);
                t = t + 1;
                proof {
                    assert(rest@ =~= v@.subrange(rest_start as int, t as int));
                }
            }
            proof {
                assert(rest@ =~= url@.skip(k + 3));
            }
            match crate::text::find_chars(&rest, &sep) {
                Some(j) => (rest_start, rest_start + j),
                None => (rest_start, v.len()),
            }
        },
        None => (0, v.len()),
    };
    let ghost after = v@.subrange(lo as int, hi as int);
    proof {
        reveal_strlit("://");
        let u = url@;
        match crate::text::find_from(u, "://"@, 0) {
            Some(k) => {
                let rest = u.skip(k + 3);
                match crate::text::find_from(rest, "://"@, 0) {
                    Some(j) => {
                        assert(rest.take(j) =~= after);
                    },
                    None => {
                        assert(rest =~= after);
                    },
                }
            },
            None => {
                assert(u =~= after);
            },
        }
    }
    let q = find_char(&v, '?', lo, hi);
    let h = find_char(&v, '#', lo, hi);
    proof {
        crate::cite::lemma_find_shift(v@, '?', lo as int, lo as int, hi as int);
        crate::cite::lemma_find_shift(v@, '#', lo as int, lo as int, hi as int);
    }
    let cut = match (q, h) {
        (Some(a), Some(b)) => if a < b {
            a
        } else {
            b
        },
        (Some(a), None) => a,
        (None, Some(b)) => b,
        (None, None) => hi,
    };
    proof {
        assert(v@.subrange(lo as int, cut as int) =~= url_part(url@));
    }
    let part = string_of_range(&v, lo, cut);
    slugify(part.as_str())
}

/// Six hex digits of the BLAKE3 digest of the source's path or address, so
/// that ingesting the same source again updates the same note.
pub fn short_hash(seed: &str) -> (r: String)
    ensures
        r@ == blake3_hex(vstd::utf8::encode_utf8(seed@)).take(6),
{
    let h = blake3_hex_of(seed.as_bytes());
    let v = chars_of(h.as_str());
    string_of_range(&v, 0, 6)
}

/// Id of an ingested note: slug of its name, a dash, and its short hash.
pub fn ingested_note_id(stem: &str, seed: &str) -> (r: String)
    ensures
        r@ == slug(stem@) + "-"@ + blake3_hex(vstd::utf8::encode_utf8(seed@)).take(6),
{
    let a = slugify(stem);
    let b = short_hash(seed);
    let mut out: Vec<char> = Vec::new();
    push_str_chars(&mut out, a.as_str());
    push_str_chars(&mut out, "-");
    push_str_chars(&mut out, b.as_str());
    string_of(&out)
}

/// A line with its line break removed, and a carriage return before it.
pub open spec fn strip_eol(l: Seq<char>) -> Seq<char> {
    let a = if l.len() > 0 && l.last() == '\n' {
        l.drop_last()
    } else {
        l
    };
    if a.len() > 0 && a.last() == '\r' {
        a.drop_last()
    } else {
        a
    }
}

/// Lines of `s` from index `i`, as `str::lines` gives them.
pub open spec fn lines_from(s: Seq<char>, i: int) -> Seq<Seq<char>>
    decreases s.len() - i,
{
    if i < 0 || i >= s.len() {
        Seq::empty()
    } else {
        let e = line_end(s, i);
        if i < e <= s.len() {
            seq![strip_eol(s.subrange(i, e))] + lines_from(s, e)
        } else {
            Seq::empty()
        }
    }
}

/// Lines of `s` (`str::lines`).
pub open spec fn lines_of(s: Seq<char>) -> Seq<Seq<char>> {
    lines_from(s, 0)
}

/// Bounds of the lines of `s` from `i`.
pub(crate) fn line_bounds(v: &Vec<char>) -> (r: Vec<(usize, usize)>)
    ensures
        r@.len() == lines_of(v@).len(),
        forall|k: int|
            0 <= k < r@.len() ==> (#[trigger] r@[k]).0 <= r@[k].1 <= v@.len() && v@.subrange(
                r@[k].0 as int,
                r@[k].1 as int,
            ) == lines_of(v@)[k],
{
    let mut out: Vec<(usize, usize)> = Vec::new();
    let mut i: usize = 0;
    while i < v.len()
        invariant
            i <= v@.len(),
            out@.len() + lines_from(v@, i as int).len() == lines_of(v@).len(),
            forall|k: int|
                0 <= k < out@.len() ==> (#[trigger] out@[k]).0 <= out@[k].1 <= v@.len() && v@.subrange(
                    out@[k].0 as int,
                    out@[k].1 as int,
                ) == lines_of(v@)[k],
            forall|k: int|
                0 <= k < lines_from(v@, i as int).len() ==> #[trigger] lines_from(v@, i as int)[k]
                    == lines_of(v@)[out@.len() + k],
        decreases v.len() - i,
    {
        let e = match find_char(v, '\n', i, v.len()) {
            Some(k) => k + 1,
            None => v.len(),
        };
        let mut b = e;
        if b > i && v[b - 1] == '\n' {
            b = b - 1;
        }
        if b > i && v[b - 1] == '\r' {
            b = b - 1;
        }
        proof {
            assert(line_end(v@, i as int) == e);
            let l = v@.subrange(i as int, e as int);
            assert(v@.subrange(i as int, b as int) =~= strip_eol(l));
            assert(lines_from(v@, i as int) == seq![strip_eol(l)] + lines_from(v@, e as int));
            assert(lines_from(v@, i as int)[0] == strip_eol(l));
            assert forall|k: int| 0 <= k < lines_from(v@, e as int).len() implies #[trigger] lines_from(v@, e as int)[k]
                == lines_of(v@)[out@.len() + 1 + k] by {
                assert(lines_from(v@, e as int)[k] == lines_from(v@, i as int)[k + 1]);
            }
        }
        out.push((i, b));
        i = e;
    }
    out
}

/// First line of `s` from line `k` that is not blank once trimmed, trimmed.
pub open spec fn first_filled(ls: Seq<Seq<char>>, k: int) -> Option<Seq<char>>
    decreases ls.len() - k,
{
    if k < 0 || k >= ls.len() {
        None
    } else if trim(ls[k]).len() > 0 {
        Some(trim(ls[k]))
    } else {
        first_filled(ls, k + 1)
    }
}

/// A summary: the first non-blank line of the body, trimmed, or the stem;
/// cut to 120 characters and trimmed.
pub open spec fn summary_of(body: Seq<char>, stem: Seq<char>) -> Seq<char> {
    let base = match first_filled(lines_of(body), 0) {
        Some(l) => l,
        None => stem,
    };
    trim(
        if base.len() > 120 {
            base.take(120)
        } else {
            base
        },
    )
}

/// A summary for a note without a title (see `summary_of`).
pub fn derive_summary(body: &str, stem: &str) -> (r: String)
    ensures
        r@ == summary_of(body@, stem@),
{
    let v = chars_of(body);
    let bounds = line_bounds(&v);
    let ghost ls = lines_of(body@);
    let mut k: usize = 0;
    let mut found: Option<(usize, usize)> = None;
    while k < bounds.len() && found.is_none()
        invariant
            v@ == body@,
            ls == lines_of(v@),
            k <= bounds@.len(),
            bounds@.len() == ls.len(),
            forall|j: int|
                0 <= j < bounds@.len() ==> (#[trigger] bounds@[j]).0 <= bounds@[j].1 <= v@.len() && v@.subrange(
                    bounds@[j].0 as int,
                    bounds@[j].1 as int,
                ) == ls[j],
            found is None ==> first_filled(ls, 0) == first_filled(ls, k as int),
            found matches Some(p) ==> p.0 <= p.1 <= v@.len() && first_filled(ls, 0) == Some(v@.subrange(p.0 as int, p.1 as int)),
        decreases bounds.len() - k + (if found is None { 1int } else { 0int }),
    {
        let (a, b) = bounds[k];
        let (x, y) = trim_bounds(&v, a, b);
        if x < y {
            found = Some((x, y));
            proof {
                assert(first_filled(ls, k as int) == Some(trim(ls[k as int])));
            }
        } else {
            k = k + 1;
        }
    }
    let base: Vec<char> = match found {
        Some((x, y)) => {
            let mut t: Vec<char> = Vec::new();
            let mut q = x;
            while q < y
                invariant
                    x <= q <= y <= v@.len(),
                    t@ == v@.subrange(x as int, q as int),
                decreases y - q,
            {
                t.push(v[q]);
                q = q + 1;
                proof {
                    assert(t@ =~= v@.subrange(x as int, q as int));
                }
            }
            t
        },
        None => {
            proof {
                assert(first_filled(ls, k as int) is None);
            }
            chars_of(stem)
        },
    };
    let n = if base.len() > 120 {
        120
    } else {
        base.len()
    };
    let (x, y) = trim_bounds(&base, 0, n);
    proof {
        assert(base@.subrange(0, n as int) =~= if base@.len() > 120 {
            base@.take(120)
        } else {
            base@
        });
    }
    string_of_range(&base, x, y)
}

/// Form feeds read as line breaks, carriage returns dropped.
pub open spec fn unified(s: Seq<char>) -> Seq<char>
    decreases s.len(),
{
    if s.len() == 0 {
        s
    } else {
        let r = unified(s.drop_last());
        let c = s.last();
        if c == '\u{c}' {
            r.push('\n')
        } else if c == '\r' {
            r
        } else {
            r.push(c)
        }
    }
}

/// Cleaned text of the first `n` lines, with the count of blank lines just seen:
/// each line loses trailing whitespace; a run of blank lines leaves one break.
pub open spec fn clean_fold(ls: Seq<Seq<char>>, n: int) -> (Seq<char>, nat)
    decreases n,
{
    if n <= 0 {
        (Seq::empty(), 0)
    } else {
        let (out, blanks) = clean_fold(ls, n - 1);
        let line = crate::text::trim_end(ls[n - 1]);
        if trim(line).len() == 0 {
            if blanks + 1 == 1 {
                (out.push('\n'), blanks + 1)
            } else {
                (out, blanks + 1)
            }
        } else {
            (out + line + seq!['\n'], 0)
        }
    }
}

/// Extracted text made tidy: form feeds and carriage returns handled, trailing
/// whitespace dropped, blank-line runs collapsed, ends trimmed.
pub open spec fn cleaned(raw: Seq<char>) -> Seq<char> {
    let ls = lines_of(unified(raw));
    trim(clean_fold(ls, ls.len() as int).0)
}

/// Extracted text made tidy (see `cleaned`).
pub fn clean_text(raw: &str) -> (r: String)
    ensures
        r@ == cleaned(raw@),
{
    let v = chars_of(raw);
    let mut u: Vec<char> = Vec::new();
    let mut i: usize = 0;
    while i < v.len()
        invariant
            v@ == raw@,
            i <= v@.len(),
            u@ == unified(v@.take(i as int)),
        decreases v.len() - i,
    {
        let c = v[i];
        proof {
            assert(v@.take(i + 1).drop_last() =~= v@.take(i as int));
        }
        if c == '\u{c}' {
            u.push('\n');
        } else if c != '\r' {
            u.push(c);
        }
        i = i + 1;
    }
    proof {
        assert(v@.take(v@.len() as int) =~= v@);
    }
    let bounds = line_bounds(&u);
    let ghost ls = lines_of(u@);
    let mut out: Vec<char> = Vec::new();
    let mut blanks: usize = 0;
    let mut k: usize = 0;
    while k < bounds.len()
        invariant
            ls == lines_of(u@),
            k <= bounds@.len(),
            bounds@.len() == ls.len(),
            forall|j: int|
                0 <= j < bounds@.len() ==> (#[trigger] bounds@[j]).0 <= bounds@[j].1 <= u@.len() && u@.subrange(
                    bounds@[j].0 as int,
                    bounds@[j].1 as int,
                ) == ls[j],
            (out@, blanks as nat) == clean_fold(ls, k as int),
            blanks <= k,
        decreases bounds.len() - k,
    {
        let (a, b) = bounds[k];
        let te = crate::text::count_trail_ws(&u, a, b);
        proof {
            crate::text::lemma_trail_ws_bound(u@.subrange(a as int, b as int));
        }
        let e = b - te;
        let (x, y) = trim_bounds(&u, a, e);
        proof {
            assert(u@.subrange(a as int, e as int) =~= crate::text::trim_end(ls[k as int]));
        }
        if x == y {
            blanks = blanks + 1;
            if blanks == 1 {
                out.push('\n');
            }
        } else {
            blanks = 0;
            let mut q = a;
            let ghost o0 = out@;
            while q < e
                invariant
                    a <= q <= e <= u@.len(),
                    out@ == o0 + u@.subrange(a as int, q as int),
                decreases e - q,
            {
                out.push(u[q]);
                q = q + 1;
                proof {
                    assert(out@ =~= o0 + u@.subrange(a as int, q as int));
                }
            }
            out.push('\n');
            proof {
                assert(out@ =~= o0 + u@.subrange(a as int, e as int) + seq!['\n']);
            }
        }
        k = k + 1;
    }
    let (x, y) = trim_bounds(&out, 0, out.len());
    proof {
        assert(out@.subrange(0, out@.len() as int) =~= out@);
    }
    string_of_range(&out, x, y)
}

/// A subtitle line that carries no speech: empty, the `WEBVTT` header (any
/// case), a timing line with `-->`, or a cue number.
pub open spec fn subtitle_noise(t: Seq<char>) -> bool {
    ||| t.len() == 0
    ||| crate::text::ascii_lower_seq(t) == "webvtt"@
    ||| crate::text::find_from(t, "-->"@, 0) is Some
    ||| forall|k: int| 0 <= k < t.len() ==> is_ascii_digit(#[trigger] t[k])
}

/// The first `n` lines joined by line breaks.
pub open spec fn joined_lines(ls: Seq<Seq<char>>, n: int) -> Seq<char>
    decreases n,
{
    if n <= 0 {
        Seq::empty()
    } else if n == 1 {
        ls[0]
    } else {
        joined_lines(ls, n - 1) + seq!['\n'] + ls[n - 1]
    }
}

/// The spoken text of a VTT or SRT transcript: trimmed lines that are not
/// noise (see `subtitle_noise`), joined by line breaks.
pub open spec fn spoken(raw: Seq<char>) -> Seq<char> {
    let t = crate::atlas::kept(
        lines_of(raw).map_values(|l: Seq<char>| trim(l)),
        |l: Seq<char>| !subtitle_noise(l),
    );
    joined_lines(t, t.len() as int)
}

fn noise_line(v: &Vec<char>, a: usize, b: usize) -> (r: bool)
    requires
        a <= b <= v@.len(),
    ensures
        r == subtitle_noise(v@.subrange(a as int, b as int)),
{
    let ghost t = v@.subrange(a as int, b as int);
    if a == b {
        return true;
    }
    let mut w: Vec<char> = Vec::new();
    let mut q = a;
    while q < b
        invariant
            a <= q <= b <= v@.len(),
            w@ == v@.subrange(a as int, q as int),
        decreases b - q,
    {
        w.push(v[q]);
        q = q + 1;
        proof {
            assert(w@ =~= v@.subrange(a as int, q as int));
        }
    }
    let s = string_of(&w);
    let lower = crate::text::ascii_lowercase(s.as_str());
    if str_eq_text(lower.as_str(), "webvtt") {
        return true;
    }
    let arrow = chars_of("-->");
    if crate::text::find_chars(&w, &arrow).is_some() {
        return true;
    }
    proof {
        reveal_strlit("-->");
        assert(w@ == t);
    }
    let mut k = a;
    while k < b
        invariant
            a <= k <= b <= v@.len(),
            a < b,
            t == v@.subrange(a as int, b as int),
            crate::text::ascii_lower_seq(t) != "webvtt"@,
            crate::text::find_from(t, "-->"@, 0) is None,
            forall|j: int| a <= j < k ==> is_ascii_digit(v@[j]),
        decreases b - k,
    {
        if !('0' <= v[k] && v[k] <= '9') {
            assert(!is_ascii_digit(t[k - a]));
            return false;
        }
        k = k + 1;
    }
    proof {
        assert forall|j: int| 0 <= j < t.len() implies is_ascii_digit(#[trigger] t[j]) by {
            assert(t[j] == v@[a + j]);
        }
    }
    true
}

fn str_eq_text(a: &str, b: &str) -> (r: bool)
    ensures
        r == (a@ == b@),
{
    crate::text::str_eq(a, b)
}

/// The spoken text of a transcript (see `spoken`).
pub fn strip_subtitles(raw: &str) -> (r: String)
    ensures
        r@ == spoken(raw@),
{
    let v = chars_of(raw);
    let bounds = line_bounds(&v);
    let ghost ls = lines_of(raw@);
    let ghost tl = ls.map_values(|l: Seq<char>| trim(l));
    let mut out: Vec<char> = Vec::new();
    let ghost mut kept_so_far: Seq<Seq<char>> = Seq::empty();
    let mut k: usize = 0;
    while k < bounds.len()
        invariant
            v@ == raw@,
            ls == lines_of(raw@),
            tl == ls.map_values(|l: Seq<char>| trim(l)),
            k <= bounds@.len(),
            bounds@.len() == ls.len(),
            forall|j: int|
                0 <= j < bounds@.len() ==> (#[trigger] bounds@[j]).0 <= bounds@[j].1 <= v@.len() && v@.subrange(
                    bounds@[j].0 as int,
                    bounds@[j].1 as int,
                ) == ls[j],
            kept_so_far == crate::atlas::kept(tl.take(k as int), |l: Seq<char>| !subtitle_noise(l)),
            out@ == joined_lines(kept_so_far, kept_so_far.len() as int),
            (kept_so_far.len() > 0) == (out@.len() > 0),
        decreases bounds.len() - k,
    {
        proof {
            crate::atlas::lemma_kept_step(tl, |l: Seq<char>| !subtitle_noise(l), k as int);
        }
        let (a, b) = bounds[k];
        let (x, y) = trim_bounds(&v, a, b);
        proof {
            assert(tl[k as int] == v@.subrange(x as int, y as int));
        }
        if !noise_line(&v, x, y) {
            let ghost o0 = out@;
            if out.len() > 0 {
                out.push('\n');
            }
            let ghost o1 = out@;
            proof {
                if o0.len() > 0 {
                    assert(o1 =~= o0 + seq!['\n']);
                } else {
                    assert(o1 =~= o0);
                }
            }
            let mut q = x;
            while q < y
                invariant
                    x <= q <= y <= v@.len(),
                    out@ == o1 + v@.subrange(x as int, q as int),
                decreases y - q,
            {
                out.push(v[q]);
                q = q + 1;
                proof {
                    assert(out@ =~= o1 + v@.subrange(x as int, q as int));
                }
            }
            proof {
                let prev = kept_so_far;
                let x = tl[k as int];
                kept_so_far = prev.push(x);
                assert(out@ =~= o1 + x);
                if prev.len() == 0 {
                    assert(out@ =~= joined_lines(kept_so_far, 1));
                } else {
                    assert(kept_so_far.drop_last() =~= prev);
                    lemma_joined_prefix(kept_so_far, prev.len() as int);
                    assert(joined_lines(kept_so_far, prev.len() as int) == o0);
                    assert(kept_so_far[prev.len() as int] == x);
                    assert(out@ =~= joined_lines(kept_so_far, kept_so_far.len() as int));
                }
            }
        }
        k = k + 1;
    }
    proof {
        assert(tl.take(bounds@.len() as int) =~= tl);
    }
    string_of(&out)
}

proof fn lemma_joined_prefix(s: Seq<Seq<char>>, n: int)
    requires
        0 <= n <= s.len() - 1,
    ensures
        joined_lines(s, n) == joined_lines(s.drop_last(), n),
    decreases n,
{
    if n > 1 {
        lemma_joined_prefix(s, n - 1);
    }
}

/// The summary of an ingested note: its title when that is not blank, else
/// one derived from the body (see `summary_of`).
pub fn choose_summary(title: &Option<String>, body: &str, stem: &str) -> (r: String)
    ensures
        r@ == (match title {
            Some(t) => if trim(t@).len() > 0 {
                t@
            } else {
                summary_of(body@, stem@)
            },
            None => summary_of(body@, stem@),
        }),
{
    match title {
        Some(t) => {
            let v = chars_of(t.as_str());
            let (a, b) = trim_bounds(&v, 0, v.len());
            proof {
                assert(v@.subrange(0, v@.len() as int) =~= v@);
            }
            if a < b {
                t.clone()
            } else {
                derive_summary(body, stem)
            }
        },
        None => derive_summary(body, stem),
    }
}

/// The tag naming the kind of an ingested file: its extension, or `file`.
pub fn file_kind(ext: &str) -> (r: String)
    ensures
        r@ == (if ext@.len() == 0 {
            "file"@
        } else {
            ext@
        }),
{
    if ext.is_empty() {
        "file".to_string()
    } else {
        ext.to_string()
    }
}

/// The refusal of an unknown privacy level on the command line.
pub fn invalid_privacy_message(given: &str) -> (r: String)
    ensures
        r@ == "invalid --privacy '"@ + given@ + "' (use public|private|secret)"@,
{
    let mut out: Vec<char> = Vec::new();
    push_str_chars(&mut out, "invalid --privacy '");
    push_str_chars(&mut out, given);
    push_str_chars(&mut out, "' (use public|private|secret)");
    string_of(&out)
}

/// What `scraper` selects in an HTML document: for a CSS selector that parses,
/// the text of every matching element, in the order `Html::select` yields
/// them (the order the parser created the nodes in).
pub uninterp spec fn html_select_texts(html: Seq<char>, selector: Seq<char>) -> Option<Seq<Seq<char>>>;

/// Parses `html` with `scraper::Html::parse_document` and collects the text
/// of every element matching `selector` (`None` when the selector does not
/// parse). The result is named, not described.
#[verifier::external_body]
fn select_texts(html: &str, selector: &str) -> (r: Option<Vec<String>>)
    ensures
        match html_select_texts(html@, selector@) {
            Some(ts) => r matches Some(v) && texts_of(v@) == ts,
            None => r is None,
        },
{
    let doc = scraper::Html::parse_document(html);
    let sel = scraper::Selector::parse(selector).ok()?;
    Some(doc.select(&sel).map(|el| el.text().collect::<String>()).collect())
}

/// The texts of a list of strings.
pub open spec fn texts_of(v: Seq<String>) -> Seq<Seq<char>> {
    v.map_values(|s: String| s@)
}

/// Whitespace-collapsed texts that are not empty.
pub open spec fn filled_texts(ts: Seq<Seq<char>>) -> Seq<Seq<char>> {
    crate::atlas::kept(ts.map_values(|t: Seq<char>| collapse_ws(t)), |t: Seq<char>| t.len() > 0)
}

/// The texts joined by blank lines.
pub open spec fn paragraphs(ts: Seq<Seq<char>>, n: int) -> Seq<char>
    decreases n,
{
    if n <= 0 {
        Seq::empty()
    } else if n == 1 {
        ts[0]
    } else {
        paragraphs(ts, n - 1) + "\n\n"@ + ts[n - 1]
    }
}

/// The selector of the elements that carry a page's readable text.
pub open spec fn content_selector() -> Seq<char> {
    "p, h1, h2, h3, h4, h5, h6, li, blockquote, pre"@
}

/// The readable text of a web page and its title: whitespace-collapsed texts
/// of paragraphs, headings, list items, quotes and code, joined by blank lines;
/// the title is the first `<title>`, collapsed, when not empty.
pub open spec fn html_reading(html: Seq<char>) -> (Seq<char>, Option<Seq<char>>) {
    let title = match html_select_texts(html, "title"@) {
        Some(ts) => if ts.len() > 0 && collapse_ws(ts[0]).len() > 0 {
            Some(collapse_ws(ts[0]))
        } else {
            None
        },
        None => None,
    };
    let parts = match html_select_texts(html, content_selector()) {
        Some(ts) => filled_texts(ts),
        None => Seq::empty(),
    };
    (paragraphs(parts, parts.len() as int), title)
}

fn collapsed(s: &String) -> (r: Vec<char>)
    ensures
        r@ == collapse_ws(s@),
{
    let v = chars_of(s.as_str());
    collapse_whitespace(&v)
}

/// The readable text of a web page and its title (see `html_reading`).
pub fn extract_html(html: &str) -> (r: (String, Option<String>))
    ensures
        r.0@ == html_reading(html@).0,
        crate::cite::opt_view(r.1) == html_reading(html@).1,
{
    let title = match select_texts(html, "title") {
        Some(ts) => if ts.len() > 0 {
            let t = collapsed(&ts[0]);
            proof {
                assert(texts_of(ts@)[0] == ts@[0]@);
            }
            if t.len() > 0 {
                Some(string_of(&t))
            } else {
                None
            }
        } else {
            None
        },
        None => None,
    };
    let mut out: Vec<char> = Vec::new();
    match select_texts(html, "p, h1, h2, h3, h4, h5, h6, li, blockquote, pre") {
        Some(ts) => {
            let ghost tv = texts_of(ts@);
            let ghost mut parts: Seq<Seq<char>> = Seq::empty();
            let mut i: usize = 0;
            while i < ts.len()
                invariant
                    i <= ts@.len(),
                    tv == texts_of(ts@),
                    parts == crate::atlas::kept(
                        tv.map_values(|t: Seq<char>| collapse_ws(t)).take(i as int),
                        |t: Seq<char>| t.len() > 0,
                    ),
                    out@ == paragraphs(parts, parts.len() as int),
                    (parts.len() > 0) == (out@.len() > 0),
                decreases ts.len() - i,
            {
                proof {
                    crate::atlas::lemma_kept_step(
                        tv.map_values(|t: Seq<char>| collapse_ws(t)),
                        |t: Seq<char>| t.len() > 0,
                        i as int,
                    );
                    assert(tv.map_values(|t: Seq<char>| collapse_ws(t))[i as int] == collapse_ws(ts@[i as int]@));
                }
                let t = collapsed(&ts[i]);
                if t.len() > 0 {
                    let ghost o0 = out@;
                    if out.len() > 0 {
                        push_str_chars(&mut out, "\n\n");
                    }
                    let ghost o1 = out@;
                    let mut q: usize = 0;
                    while q < t.len()
                        invariant
                            q <= t@.len(),
                            out@ == o1 + t@.take(q as int),
                        decreases t.len() - q,
                    {
                        out.push(t[q]);
                        q = q + 1;
                        proof {
                            assert(out@ =~= o1 + t@.take(q as int));
                        }
                    }
                    proof {
                        assert(t@.take(t@.len() as int) =~= t@);
                        let prev = parts;
                        parts = prev.push(t@);
                        if prev.len() == 0 {
                            assert(out@ =~= paragraphs(parts, 1));
                        } else {
                            lemma_paragraphs_prefix(parts, prev.len() as int);
                            assert(parts.drop_last() =~= prev);
                            assert(out@ =~= paragraphs(parts, parts.len() as int));
                        }
                    }
                }
                i = i + 1;
            }
            proof {
                assert(tv.map_values(|t: Seq<char>| collapse_ws(t)).take(ts@.len() as int) =~= tv.map_values(
                    |t: Seq<char>| collapse_ws(t),
                ));
            }
        },
        None => {},
    }
    (string_of(&out), title)
}

proof fn lemma_paragraphs_prefix(s: Seq<Seq<char>>, n: int)
    requires
        0 <= n <= s.len() - 1,
    ensures
        paragraphs(s, n) == paragraphs(s.drop_last(), n),
    decreases n,
{
    if n > 1 {
        lemma_paragraphs_prefix(s, n - 1);
    }
}

/// Characters a slug may hold: lower-case ASCII letters, digits and `-`.
pub open spec fn slug_char(c: char) -> bool {
    ('a' <= c && c <= 'z') || ('0' <= c && c <= '9') || c == '-'
}

proof fn lemma_dash_slug_safe(s: Seq<char>)
    ensures
        forall|k: int| 0 <= k < dash_slug(s).len() ==> slug_char(#[trigger] dash_slug(s)[k]),
        dash_slug(s).len() > 0 ==> dash_slug(s)[0] != '-',
    decreases s.len(),
{
    if s.len() > 0 {
        lemma_dash_slug_safe(s.drop_last());
        let c = s.last();
        if is_ascii_alnum(c) {
            if 'A' <= c && c <= 'Z' {
                assert(('a' as u32) <= (c as u32) + 32 <= ('z' as u32));
            }
        }
    }
}

/// A slug is a safe file-name stem: one to 48 characters, each a lower-case
/// ASCII letter, a digit or `-`, and it does not begin with `-`.
pub proof fn lemma_slug_is_filesystem_safe(s: Seq<char>)
    ensures
        1 <= slug(s).len() <= 48,
        forall|k: int| 0 <= k < slug(s).len() ==> slug_char(#[trigger] slug(s)[k]),
        slug(s)[0] != '-',
{
    lemma_dash_slug_safe(s);
    reveal_strlit("document");
    let d = dash_slug(s);
    let t = if d.len() > 0 && d.last() == '-' {
        d.drop_last()
    } else {
        d
    };
    let c = if t.len() > 48 {
        t.take(48)
    } else {
        t
    };
    assert forall|k: int| 0 <= k < c.len() implies slug_char(#[trigger] c[k]) by {
        assert(c[k] == d[k]);
    }
    if c.len() > 0 {
        assert(c[0] == d[0]);
    }
}

/// How a local file is read, by its lower-cased extension.
#[derive(Debug, Clone, Copy, PartialEq, Eq, Structural)]
pub enum SourceKind {
    /// Plain text or markdown, read as is.
    Text,
    /// A subtitle track, reduced to its spoken text.
    Subtitles,
    /// A PDF, whose text is extracted.
    Pdf,
    /// An HTML page, reduced to its readable text.
    Html,
}

/// The refusal for an extension that cannot be ingested.
pub open spec fn unsupported_kind_message(ext: Seq<char>) -> Seq<char> {
    "unsupported file type '."@ + ext
        + "'. Supported: a URL or .html (with the `web` feature), .pdf (with the `pdf` feature), .txt, .md, .markdown, .vtt, .srt"@
}

/// How a file with the given lower-cased extension is read, or why it
/// cannot be.
pub fn source_kind(ext: &str) -> (r: Result<SourceKind, String>)
    ensures
        (ext@ == "txt"@ || ext@ == "text"@ || ext@ == "md"@ || ext@ == "markdown"@) ==> r
            == Ok::<SourceKind, String>(SourceKind::Text),
        (ext@ == "vtt"@ || ext@ == "srt"@) ==> r == Ok::<SourceKind, String>(SourceKind::Subtitles),
        ext@ == "pdf"@ ==> r == Ok::<SourceKind, String>(SourceKind::Pdf),
        (ext@ == "html"@ || ext@ == "htm"@) ==> r == Ok::<SourceKind, String>(SourceKind::Html),
        !(ext@ == "txt"@ || ext@ == "text"@ || ext@ == "md"@ || ext@ == "markdown"@ || ext@ == "vtt"@
            || ext@ == "srt"@ || ext@ == "pdf"@ || ext@ == "html"@ || ext@ == "htm"@) ==> (r is Err
            && r->Err_0@ == unsupported_kind_message(ext@)),
{
    proof {
        reveal_strlit("txt");
        reveal_strlit("text");
        reveal_strlit("md");
        reveal_strlit("markdown");
        reveal_strlit("vtt");
        reveal_strlit("srt");
        reveal_strlit("pdf");
        reveal_strlit("html");
        reveal_strlit("htm");
        assert("txt"@[0] == 't' && "text"@[0] == 't' && "md"@[0] == 'm' && "markdown"@[0] == 'm');
        assert("vtt"@[0] == 'v' && "srt"@[0] == 's' && "pdf"@[0] == 'p' && "html"@[0] == 'h' && "htm"@[0] == 'h');
        assert("txt"@.len() == 3 && "text"@.len() == 4 && "md"@.len() == 2 && "markdown"@.len() == 8);
        assert("html"@.len() == 4 && "htm"@.len() == 3);
    }
    if str_eq_text(ext, "txt") || str_eq_text(ext, "text") || str_eq_text(ext, "md") || str_eq_text(ext, "markdown") {
        Ok(SourceKind::Text)
    } else if str_eq_text(ext, "vtt") || str_eq_text(ext, "srt") {
        Ok(SourceKind::Subtitles)
    } else if str_eq_text(ext, "pdf") {
        Ok(SourceKind::Pdf)
    } else if str_eq_text(ext, "html") || str_eq_text(ext, "htm") {
        Ok(SourceKind::Html)
    } else {
        let mut out: Vec<char> = Vec::new();
        push_str_chars(&mut out, "unsupported file type '.");
        push_str_chars(&mut out, ext);
        push_str_chars(
            &mut out,
            "'. Supported: a URL or .html (with the `web` feature), .pdf (with the `pdf` feature), .txt, .md, .markdown, .vtt, .srt",
        );
        Err(string_of(&out))
    }
}


/// Holds no carriage return and no form feed.
pub open spec fn plain_text(s: Seq<char>) -> bool {
    forall|k: int| 0 <= k < s.len() ==> #[trigger] s[k] != '\r' && s[k] != '\u{c}'
}

/// Holds no line break, carriage return or form feed.
pub open spec fn plain_line(s: Seq<char>) -> bool {
    plain_text(s) && forall|k: int| 0 <= k < s.len() ==> #[trigger] s[k] != '\n'
}

/// Every line break but the first character follows a line break or a
/// character that is not whitespace: no line ends in whitespace.
pub open spec fn breaks_follow_text(s: Seq<char>) -> bool {
    forall|k: int|
        0 < k < s.len() && #[trigger] s[k] == '\n' ==> s[k - 1] == '\n' || !crate::text::is_ws(s[k - 1])
}

/// Holds no three line breaks in a row.
pub open spec fn no_triple_break(s: Seq<char>) -> bool {
    forall|k: int|
        0 <= k && k + 2 < s.len() ==> !(#[trigger] s[k] == '\n' && s[k + 1] == '\n' && s[k + 2] == '\n')
}

proof fn lemma_unified_plain(s: Seq<char>)
    ensures
        plain_text(unified(s)),
    decreases s.len(),
{
    if s.len() > 0 {
        lemma_unified_plain(s.drop_last());
        let r = unified(s.drop_last());
        let c = s.last();
        if c == '\u{c}' {
            assert(unified(s) == r.push('\n'));
            assert forall|k: int| 0 <= k < unified(s).len() implies #[trigger] unified(s)[k] != '\r' && unified(s)[k] != '\u{c}' by {
                if k < r.len() {
                    assert(unified(s)[k] == r[k]);
                }
            }
        } else if c != '\r' {
            assert(unified(s) == r.push(c));
            assert forall|k: int| 0 <= k < unified(s).len() implies #[trigger] unified(s)[k] != '\r' && unified(s)[k] != '\u{c}' by {
                if k < r.len() {
                    assert(unified(s)[k] == r[k]);
                }
            }
        }
    }
}

proof fn lemma_find_char_from_facts(s: Seq<char>, c: char, from: int, to: int)
    requires
        0 <= from,
        to <= s.len(),
    ensures
        match crate::text::find_char_from(s, c, from, to) {
            Some(k) => from <= k < to && s[k] == c && forall|j: int| from <= j < k ==> s[j] != c,
            None => forall|j: int| from <= j < to ==> s[j] != c,
        },
    decreases to - from,
{
    if from < to && s[from] != c {
        lemma_find_char_from_facts(s, c, from + 1, to);
    }
}

proof fn lemma_lines_plain(s: Seq<char>, i: int)
    requires
        plain_text(s),
        0 <= i,
    ensures
        forall|k: int| 0 <= k < lines_from(s, i).len() ==> plain_line(#[trigger] lines_from(s, i)[k]),
    decreases s.len() - i,
{
    if i < s.len() {
        let e = line_end(s, i);
        lemma_find_char_from_facts(s, '\n', i, s.len() as int);
        if i < e <= s.len() {
            lemma_lines_plain(s, e);
            let x = s.subrange(i, e);
            let l = strip_eol(x);
            assert(l.len() <= x.len());
            assert forall|k: int| 0 <= k < l.len() implies #[trigger] l[k] != '\n' && l[k] != '\r' && l[k]
                != '\u{c}' by {
                assert(l[k] == x[k]);
                assert(x[k] == s[i + k]);
                if x.len() > 0 && x.last() == '\n' {
                    assert(k < x.len() - 1);
                }
            }
            let r = lines_from(s, e);
            assert(lines_from(s, i) == seq![l] + r);
            assert forall|k: int| 0 <= k < lines_from(s, i).len() implies plain_line(#[trigger] lines_from(s, i)[k]) by {
                if k > 0 {
                    assert(lines_from(s, i)[k] == r[k - 1]);
                }
            }
        }
    }
}

proof fn lemma_plain_line_prefix(l: Seq<char>, n: int)
    requires
        plain_line(l),
        0 <= n <= l.len(),
    ensures
        plain_line(l.take(n)),
{
    assert forall|k: int| 0 <= k < l.take(n).len() implies #[trigger] l.take(n)[k] != '\n' && l.take(n)[k] != '\r' && l.take(n)[k] != '\u{c}' by {
        assert(l.take(n)[k] == l[k]);
    }
}

/// The shape of cleaned text while lines are folded in: plain, no three
/// breaks in a row, ending after a line with one break, or, after blank
/// lines, with exactly two (or just one break at the start).
pub open spec fn fold_shape(out: Seq<char>, blanks: nat) -> bool {
    &&& plain_text(out)
    &&& no_triple_break(out)
    &&& breaks_follow_text(out)
    &&& blanks == 0 ==> out.len() == 0 || (out.len() >= 2 && out.last() == '\n' && out[out.len() - 2] != '\n')
    &&& blanks >= 1 ==> out.len() >= 1 && out.last() == '\n' && (out.len() == 1 || (out.len() >= 3
        && out[out.len() - 2] == '\n' && out[out.len() - 3] != '\n'))
}

proof fn lemma_clean_fold_shape(ls: Seq<Seq<char>>, n: int)
    requires
        0 <= n <= ls.len(),
        forall|k: int| 0 <= k < ls.len() ==> plain_line(#[trigger] ls[k]),
    ensures
        fold_shape(clean_fold(ls, n).0, clean_fold(ls, n).1),
    decreases n,
{
    if n > 0 {
        lemma_clean_fold_shape(ls, n - 1);
        let (out, blanks) = clean_fold(ls, n - 1);
        let l = ls[n - 1];
        crate::text::lemma_trail_ws_bound(l);
        let line = crate::text::trim_end(l);
        assert(plain_line(l));
        lemma_plain_line_prefix(l, l.len() - crate::text::trail_ws(l));
        if trim(line).len() == 0 {
            if blanks + 1 == 1 {
                let o = out.push('\n');
                assert forall|k: int| 0 <= k < o.len() implies #[trigger] o[k] != '\r' && o[k] != '\u{c}' by {
                    if k < out.len() {
                        assert(o[k] == out[k]);
                    }
                }
                assert forall|k: int| 0 <= k && k + 2 < o.len() implies !(#[trigger] o[k] == '\n' && o[k + 1]
                    == '\n' && o[k + 2] == '\n') by {
                    if k + 2 < out.len() {
                        assert(o[k] == out[k] && o[k + 1] == out[k + 1] && o[k + 2] == out[k + 2]);
                    } else {
                        assert(o[k] == out[k] && o[k + 1] == out[k + 1]);
                    }
                }
                assert forall|k: int| 0 < k < o.len() && #[trigger] o[k] == '\n' implies o[k - 1] == '\n'
                    || !crate::text::is_ws(o[k - 1]) by {
                    if k < out.len() {
                        assert(o[k] == out[k] && o[k - 1] == out[k - 1]);
                    } else {
                        assert(o[k - 1] == out.last());
                    }
                }
                if out.len() > 0 {
                    assert(o[o.len() - 2] == out.last());
                    assert(o[o.len() - 3] == out[out.len() - 2]);
                }
            }
        } else {
            let o = out + line + seq!['\n'];
            assert(line.len() > 0);
            assert forall|k: int| 0 <= k < o.len() implies #[trigger] o[k] != '\r' && o[k] != '\u{c}' by {
                if k < out.len() {
                    assert(o[k] == out[k]);
                } else if k < out.len() + line.len() {
                    assert(o[k] == line[k - out.len()]);
                }
            }
            assert forall|k: int| 0 <= k && k + 2 < o.len() implies !(#[trigger] o[k] == '\n' && o[k + 1]
                == '\n' && o[k + 2] == '\n') by {
                if k + 2 < out.len() {
                    assert(o[k] == out[k] && o[k + 1] == out[k + 1] && o[k + 2] == out[k + 2]);
                } else if k + 2 < out.len() + line.len() {
                    assert(o[k + 2] == line[k + 2 - out.len()]);
                } else if k + 1 < out.len() + line.len() {
                    assert(o[k + 1] == line[k + 1 - out.len()]);
                } else {
                    assert(o[k] == line[k - out.len()]);
                }
            }
            assert(o[o.len() - 2] == line.last());
            assert(line.last() == l[l.len() - crate::text::trail_ws(l) - 1]);
            assert forall|k: int| 0 < k < o.len() && #[trigger] o[k] == '\n' implies o[k - 1] == '\n'
                || !crate::text::is_ws(o[k - 1]) by {
                if k < out.len() {
                    assert(o[k] == out[k] && o[k - 1] == out[k - 1]);
                } else if k < out.len() + line.len() {
                    assert(o[k] == line[k - out.len()]);
                } else {
                    assert(o[k - 1] == line.last());
                }
            }
        }
    }
}

proof fn lemma_sub_keeps_shape(s: Seq<char>, a: int, b: int)
    requires
        plain_text(s),
        no_triple_break(s),
        breaks_follow_text(s),
        0 <= a <= b <= s.len(),
    ensures
        plain_text(s.subrange(a, b)),
        no_triple_break(s.subrange(a, b)),
        breaks_follow_text(s.subrange(a, b)),
{
    let t = s.subrange(a, b);
    assert forall|k: int| 0 <= k < t.len() implies #[trigger] t[k] != '\r' && t[k] != '\u{c}' by {
        assert(t[k] == s[a + k]);
    }
    assert forall|k: int| 0 <= k && k + 2 < t.len() implies !(#[trigger] t[k] == '\n' && t[k + 1] == '\n' && t[k
        + 2] == '\n') by {
        assert(t[k] == s[a + k] && t[k + 1] == s[a + k + 1] && t[k + 2] == s[a + k + 2]);
    }
    assert forall|k: int| 0 < k < t.len() && #[trigger] t[k] == '\n' implies t[k - 1] == '\n'
        || !crate::text::is_ws(t[k - 1]) by {
        assert(t[k] == s[a + k] && t[k - 1] == s[a + k - 1]);
    }
}

/// Trimmed text is trimmed again to itself.
pub proof fn lemma_trim_idempotent(x: Seq<char>)
    ensures
        trim(trim(x)) == trim(x),
{
    crate::text::lemma_lead_ws_bound(x);
    let y = crate::text::trim_start(x);
    crate::text::lemma_trail_ws_bound(y);
    let t = trim(x);
    let m = y.len() - crate::text::trail_ws(y);
    assert(t == y.take(m));
    crate::text::lemma_lead_ws_bound(t);
    crate::text::lemma_trail_ws_bound(t);
    if t.len() > 0 {
        assert(t[0] == y[0]);
        assert(y[0] == x[crate::text::lead_ws(x) as int]);
        assert(crate::text::lead_ws(t) == 0);
        assert(t.last() == y[m - 1]);
        assert(crate::text::trail_ws(t) == 0);
        assert(crate::text::trim_start(t) =~= t);
        assert(crate::text::trim_end(t) =~= t);
    } else {
        assert(trim(t) =~= t);
    }
}

/// Cleaned text holds no carriage return, no form feed and no three line
/// breaks in a row, no line of it ends in whitespace, and it has no leading
/// or trailing whitespace.
pub proof fn lemma_cleaned_is_tidy(raw: Seq<char>)
    ensures
        plain_text(cleaned(raw)),
        no_triple_break(cleaned(raw)),
        breaks_follow_text(cleaned(raw)),
        trim(cleaned(raw)) == cleaned(raw),
{
    let u = unified(raw);
    lemma_unified_plain(raw);
    lemma_lines_plain(u, 0);
    let ls = lines_of(u);
    lemma_clean_fold_shape(ls, ls.len() as int);
    let out = clean_fold(ls, ls.len() as int).0;
    crate::text::lemma_lead_ws_bound(out);
    let y = crate::text::trim_start(out);
    let a = crate::text::lead_ws(out) as int;
    assert(y =~= out.subrange(a, out.len() as int));
    lemma_sub_keeps_shape(out, a, out.len() as int);
    crate::text::lemma_trail_ws_bound(y);
    let m = y.len() - crate::text::trail_ws(y);
    assert(trim(out) =~= y.subrange(0, m));
    lemma_sub_keeps_shape(y, 0, m);
    lemma_trim_idempotent(out);
}


/// Text as `clean_text` leaves it: plain, no three breaks in a row, no line
/// ending in whitespace, and no whitespace at either end.
pub open spec fn tidy_text(t: Seq<char>) -> bool {
    &&& plain_text(t)
    &&& no_triple_break(t)
    &&& breaks_follow_text(t)
    &&& t.len() > 0 ==> !crate::text::is_ws(t[0]) && !crate::text::is_ws(t.last())
}

proof fn lemma_trimmed_ends(x: Seq<char>)
    ensures
        trim(x).len() > 0 ==> !crate::text::is_ws(trim(x)[0]) && !crate::text::is_ws(trim(x).last()),
{
    crate::text::lemma_lead_ws_bound(x);
    let y = crate::text::trim_start(x);
    crate::text::lemma_trail_ws_bound(y);
    let m = y.len() - crate::text::trail_ws(y);
    let t = trim(x);
    if t.len() > 0 {
        assert(t == y.take(m));
        assert(t[0] == y[0] && y[0] == x[crate::text::lead_ws(x) as int]);
        assert(t.last() == y[m - 1]);
    }
}

proof fn lemma_unified_id(s: Seq<char>)
    requires
        plain_text(s),
    ensures
        unified(s) == s,
    decreases s.len(),
{
    if s.len() > 0 {
        let d = s.drop_last();
        assert(plain_text(d)) by {
            assert forall|k: int| 0 <= k < d.len() implies #[trigger] d[k] != '\r' && d[k] != '\u{c}' by {
                assert(d[k] == s[k]);
            }
        }
        lemma_unified_id(d);
        assert(s.last() == s[s.len() - 1]);
        assert(d.push(s.last()) =~= s);
    }
}

proof fn lemma_fold_push(ls: Seq<Seq<char>>, x: Seq<char>, n: int)
    requires
        0 <= n <= ls.len(),
    ensures
        clean_fold(ls.push(x), n) == clean_fold(ls, n),
    decreases n,
{
    if n > 0 {
        lemma_fold_push(ls, x, n - 1);
        assert(ls.push(x)[n - 1] == ls[n - 1]);
    }
}

proof fn lemma_line_end_prefix(s: Seq<char>, m: int, i: int)
    requires
        0 <= i < m <= s.len(),
        s[m - 1] == '\n',
    ensures
        line_end(s, i) == line_end(s.take(m), i),
        i < line_end(s, i) <= m,
{
    let r = s.take(m);
    lemma_find_char_from_facts(s, '\n', i, s.len() as int);
    lemma_find_char_from_facts(r, '\n', i, r.len() as int);
    assert(r[m - 1] == '\n');
    let fs = crate::text::find_char_from(s, '\n', i, s.len() as int);
    let fr = crate::text::find_char_from(r, '\n', i, r.len() as int);
    assert(fr is Some);
    assert(fs is Some);
    let ks = fs->0;
    let kr = fr->0;
    if ks < kr {
        assert(r[ks] == s[ks]);
    } else if kr < ks {
        assert(r[kr] == s[kr]);
    }
}

proof fn lemma_lines_split(s: Seq<char>, m: int, i: int)
    requires
        0 <= i <= m <= s.len(),
        m == 0 || s[m - 1] == '\n',
    ensures
        lines_from(s, i) == lines_from(s.take(m), i) + lines_from(s, m),
    decreases m - i,
{
    let r = s.take(m);
    if i == m {
        assert(lines_from(r, i) =~= Seq::<Seq<char>>::empty());
        assert(lines_from(s, i) =~= lines_from(r, i) + lines_from(s, m));
    } else {
        lemma_line_end_prefix(s, m, i);
        let e = line_end(s, i);
        lemma_lines_split(s, m, e);
        assert(s.subrange(i, e) =~= r.subrange(i, e));
        assert(lines_from(s, i) == seq![strip_eol(s.subrange(i, e))] + lines_from(s, e));
        assert(lines_from(r, i) == seq![strip_eol(r.subrange(i, e))] + lines_from(r, e));
        assert(lines_from(s, i) =~= lines_from(r, i) + lines_from(s, m));
    }
}

/// The text from `i` is one line: a run without breaks, either to the end or
/// followed by one final break.
proof fn lemma_one_line(s: Seq<char>, i: int, j: int)
    requires
        0 <= i <= j <= s.len(),
        plain_line(s.subrange(i, j)),
        (j == s.len() && i < j) || (j + 1 == s.len() && s[j] == '\n'),
    ensures
        lines_from(s, i) == seq![s.subrange(i, j)],
{
    lemma_find_char_from_facts(s, '\n', i, s.len() as int);
    let seg = s.subrange(i, j);
    assert forall|k: int| i <= k < j implies s[k] != '\n' by {
        assert(seg[k - i] == s[k]);
    }
    let e = line_end(s, i);
    if j == s.len() {
        assert(e == s.len());
        let x = s.subrange(i, e);
        assert(x == seg);
        assert(x.last() == seg[seg.len() - 1]);
        assert(strip_eol(x) == x);
    } else {
        assert(e == j + 1);
        let x = s.subrange(i, e);
        assert(x.drop_last() =~= seg);
        if seg.len() > 0 {
            assert(seg.last() == seg[seg.len() - 1]);
        }
        assert(strip_eol(x) == seg);
    }
    assert(lines_from(s, e) =~= Seq::<Seq<char>>::empty());
    assert(lines_from(s, i) =~= seq![seg]);
}

proof fn lemma_text_line_kept(seg: Seq<char>)
    requires
        seg.len() > 0,
        !crate::text::is_ws(seg.last()),
    ensures
        crate::text::trim_end(seg) == seg,
        trim(seg).len() > 0,
{
    assert(crate::text::trail_ws(seg) == 0);
    assert(crate::text::trim_end(seg) =~= seg);
    crate::text::lemma_lead_ws_bound(seg);
    if crate::text::lead_ws(seg) == seg.len() {
        assert(crate::text::is_ws(seg[seg.len() - 1]));
    }
    let y = crate::text::trim_start(seg);
    assert(y.len() > 0);
    assert(y.last() == seg.last());
    assert(crate::text::trail_ws(y) == 0);
    assert(trim(seg) =~= y);
}

/// The last line break before `j`, or -1.
pub open spec fn last_break(t: Seq<char>, j: int) -> int
    decreases j,
{
    if j <= 0 {
        -1
    } else if t[j - 1] == '\n' {
        j - 1
    } else {
        last_break(t, j - 1)
    }
}

proof fn lemma_last_break(t: Seq<char>, j: int)
    requires
        0 <= j <= t.len(),
    ensures
        -1 <= last_break(t, j) < j,
        last_break(t, j) >= 0 ==> t[last_break(t, j)] == '\n',
        forall|k: int| last_break(t, j) < k < j ==> #[trigger] t[k] != '\n',
    decreases j,
{
    if j > 0 && t[j - 1] != '\n' {
        lemma_last_break(t, j - 1);
    }
}

/// The fold over the lines of `t` up to `j`, and the blank lines just seen.
pub open spec fn fold_prefix(t: Seq<char>, j: int) -> (Seq<char>, nat) {
    clean_fold(lines_of(t.take(j)), lines_of(t.take(j)).len() as int)
}

proof fn lemma_fold_blank_step(t: Seq<char>, j: int)
    requires
        tidy_text(t),
        2 <= j <= t.len(),
        t[j - 1] == '\n',
        t[j - 2] == '\n',
        fold_prefix(t, j - 1) == (t.take(j - 1), 0nat),
    ensures
        fold_prefix(t, j) == (t.take(j), 1nat),
{
    let p = t.take(j);
    let q = t.take(j - 1);
    lemma_lines_split(p, j - 1, 0);
    assert(p.take(j - 1) =~= q);
    assert(p[j - 1] == '\n');
    assert(p.subrange(j - 1, j - 1) =~= Seq::<char>::empty());
    assert(plain_line(p.subrange(j - 1, j - 1)));
    lemma_one_line(p, j - 1, j - 1);
    let lq = lines_of(q);
    assert(lines_of(p) == lq + seq![Seq::<char>::empty()]);
    assert(lines_of(p) =~= lq.push(Seq::<char>::empty()));
    lemma_fold_push(lq, Seq::<char>::empty(), lq.len() as int);
    assert(trim(Seq::<char>::empty()) =~= Seq::<char>::empty());
    assert(p =~= q.push('\n'));
}

proof fn lemma_fold_text_step(t: Seq<char>, j: int, k: int)
    requires
        tidy_text(t),
        2 <= j <= t.len(),
        t[j - 1] == '\n',
        -1 <= k < j - 2,
        k >= 0 ==> t[k] == '\n',
        forall|x: int| k < x < j - 1 ==> #[trigger] t[x] != '\n',
        fold_prefix(t, k + 1).0 == t.take(k + 1),
    ensures
        fold_prefix(t, j) == (t.take(j), 0nat),
{
    let p = t.take(j);
    let r = t.take(k + 1);
    let seg = t.subrange(k + 1, j - 1);
    assert(plain_line(seg)) by {
        assert forall|x: int| 0 <= x < seg.len() implies #[trigger] seg[x] != '\n' && seg[x] != '\r' && seg[x]
            != '\u{c}' by {
            assert(seg[x] == t[k + 1 + x]);
        }
    }
    assert(seg.last() == t[j - 2]);
    assert(!crate::text::is_ws(t[j - 2]));
    lemma_text_line_kept(seg);
    lemma_lines_split(p, k + 1, 0);
    assert(p.take(k + 1) =~= r);
    assert(p.subrange(k + 1, j - 1) =~= seg);
    lemma_one_line(p, k + 1, j - 1);
    let lr = lines_of(r);
    assert(lines_of(p) =~= lr.push(seg));
    lemma_fold_push(lr, seg, lr.len() as int);
    assert(p =~= r + seg + seq!['\n']);
}

/// Folding the lines of a tidy text up to a line start gives that text back,
/// with one blank line just seen exactly when it ends in two breaks.
proof fn lemma_fold_tidy_prefix(t: Seq<char>, j: int)
    requires
        tidy_text(t),
        0 <= j <= t.len(),
        j == 0 || t[j - 1] == '\n',
    ensures
        fold_prefix(t, j) == (
            t.take(j),
            if j >= 2 && t[j - 2] == '\n' {
                1nat
            } else {
                0nat
            },
        ),
    decreases j,
{
    if j == 0 {
        assert(lines_of(t.take(0)) =~= Seq::<Seq<char>>::empty());
        assert(t.take(0) =~= Seq::<char>::empty());
    } else if j >= 2 && t[j - 2] == '\n' {
        lemma_fold_tidy_prefix(t, j - 1);
        if j >= 3 {
            assert(!(t[j - 3] == '\n' && t[j - 2] == '\n' && t[j - 1] == '\n'));
        } else {
            assert(!crate::text::is_ws(t[0]));
        }
        lemma_fold_blank_step(t, j);
    } else {
        if j == 1 {
            assert(!crate::text::is_ws(t[0]));
        }
        lemma_last_break(t, j - 1);
        let k = last_break(t, j - 1);
        assert(k < j - 2) by {
            assert(t[j - 2] != '\n');
        }
        lemma_fold_tidy_prefix(t, k + 1);
        lemma_fold_text_step(t, j, k);
    }
}

/// Cleaning text that `clean_text` produced changes nothing.
pub proof fn lemma_clean_text_idempotent(raw: Seq<char>)
    ensures
        cleaned(cleaned(raw)) == cleaned(raw),
{
    lemma_cleaned_is_tidy(raw);
    let t = cleaned(raw);
    lemma_trimmed_ends(clean_fold(lines_of(unified(raw)), lines_of(unified(raw)).len() as int).0);
    assert(tidy_text(t));
    lemma_unified_id(t);
    if t.len() == 0 {
        assert(lines_of(t) =~= Seq::<Seq<char>>::empty());
        assert(trim(Seq::<char>::empty()) =~= Seq::<char>::empty());
    } else {
        let n = t.len() as int;
        lemma_last_break(t, n);
        let k = last_break(t, n);
        assert(k < n - 1) by {
            assert(t[n - 1] == t.last());
        }
        lemma_fold_tidy_prefix(t, k + 1);
        assert(fold_prefix(t, k + 1).0 == t.take(k + 1));
        let r = t.take(k + 1);
        let b = t.subrange(k + 1, n);
        assert(plain_line(b)) by {
            assert forall|x: int| 0 <= x < b.len() implies #[trigger] b[x] != '\n' && b[x] != '\r' && b[x]
                != '\u{c}' by {
                assert(b[x] == t[k + 1 + x]);
            }
        }
        assert(b.last() == t.last());
        lemma_text_line_kept(b);
        lemma_lines_split(t, k + 1, 0);
        assert(t.take(n) =~= t);
        lemma_one_line(t, k + 1, n);
        let lr = lines_of(r);
        assert(lines_of(t) == lr.push(b));
        lemma_fold_push(lr, b, lr.len() as int);
        let o = r + b + seq!['\n'];
        assert(o =~= t.push('\n'));
        assert(clean_fold(lines_of(t), lines_of(t).len() as int).0 == o);
        // Trimming `t` followed by a break gives `t`.
        assert(crate::text::lead_ws(o) == 0) by {
            assert(o[0] == t[0]);
        }
        assert(o.drop_last() =~= t);
        assert(crate::text::trail_ws(t) == 0);
        assert(crate::text::trail_ws(o) == 1);
        assert(crate::text::trim_start(o) =~= o);
        assert(crate::text::trim_end(o) =~= t);
    }
}

} // verus!
