//! Inline privacy markers in note bodies:
//! `<!-- privacy:LEVEL -->` opens a span, `<!-- /privacy -->` closes the
//! innermost open one. Whitespace may surround the keyword inside the comment.
use vstd::prelude::*;

use crate::privacy::{privacy_name, spec_max_privacy, Privacy};
use crate::text::{
    byte_len, byte_offset, chars_with_offsets, count_lead_ws, is_ws, lead_ws, matches_at, seq_at,
};

verus! {

/// Index just past the whitespace run that starts at `i`.
pub open spec fn ws_skip(s: Seq<char>, i: int) -> int {
    i + lead_ws(s.subrange(i, s.len() as int))
}

/// The level keyword at `j`, with the index just past it.
pub open spec fn level_word_at(s: Seq<char>, j: int) -> Option<(int, Privacy)> {
    if seq_at(s, j, "public"@) {
        Some((j + 6, Privacy::Public))
    } else if seq_at(s, j, "private"@) {
        Some((j + 7, Privacy::Private))
    } else if seq_at(s, j, "secret"@) {
        Some((j + 6, Privacy::Secret))
    } else {
        None
    }
}

/// An opening marker `<!--` ws `privacy:LEVEL` ws `-->` at `i`: its end and level.
pub open spec fn open_marker_at(s: Seq<char>, i: int) -> Option<(int, Privacy)> {
    let j = ws_skip(s, i + 4);
    if seq_at(s, i, "<!--"@) && seq_at(s, j, "privacy:"@) {
        match level_word_at(s, j + 8) {
            Some((k, level)) => {
                let e = ws_skip(s, k);
                if seq_at(s, e, "-->"@) {
                    Some((e + 3, level))
                } else {
                    None
                }
            },
            None => None,
        }
    } else {
        None
    }
}

/// A closing marker `<!--` ws `/privacy` ws `-->` at `i`: its end.
pub open spec fn close_marker_at(s: Seq<char>, i: int) -> Option<int> {
    let j = ws_skip(s, i + 4);
    let e = ws_skip(s, j + 8);
    if seq_at(s, i, "<!--"@) && seq_at(s, j, "/privacy"@) && seq_at(s, e, "-->"@) {
        Some(e + 3)
    } else {
        None
    }
}

/// The marker starting at `i`, if any: its end, and its level for an opening
/// marker or `None` for a closing one. The opening form is tried first.
pub open spec fn marker_token_at(s: Seq<char>, i: int) -> Option<(int, Option<Privacy>)> {
    match open_marker_at(s, i) {
        Some((e, level)) => Some((e, Some(level))),
        None => match close_marker_at(s, i) {
            Some(e) => Some((e, None)),
            None => None,
        },
    }
}

/// Markers found scanning left to right from `i`, each as `(start, end, kind)`;
/// scanning resumes after each marker, so markers never overlap.
pub open spec fn marker_tokens_from(s: Seq<char>, i: int) -> Seq<(int, int, Option<Privacy>)>
    decreases s.len() - i,
{
    if i < 0 || i >= s.len() {
        Seq::empty()
    } else {
        match marker_token_at(s, i) {
            Some((e, kind)) => if i < e <= s.len() {
                seq![(i, e, kind)] + marker_tokens_from(s, e)
            } else {
                Seq::empty()
            },
            None => marker_tokens_from(s, i + 1),
        }
    }
}

/// State after pairing the first `n` markers: the stack of open spans
/// (content start, level) and the closed spans `(start, end, level)` in bytes.
pub open spec fn pair_markers(s: Seq<char>, toks: Seq<(int, int, Option<Privacy>)>, n: int) -> (
    Seq<(int, Privacy)>,
    Seq<(nat, nat, Privacy)>,
)
    decreases n,
{
    if n <= 0 {
        (Seq::empty(), Seq::empty())
    } else {
        let (stack, spans) = pair_markers(s, toks, n - 1);
        let t = toks[n - 1];
        match t.2 {
            Some(level) => (stack.push((t.1, level)), spans),
            None => if stack.len() == 0 {
                (stack, spans)
            } else {
                let o = stack.last();
                if t.0 >= o.0 {
                    (
                        stack.drop_last(),
                        spans.push((byte_offset(s, o.0), byte_offset(s, t.0), o.1)),
                    )
                } else {
                    (stack.drop_last(), spans)
                }
            },
        }
    }
}

/// Content spans of the properly closed privacy markers of `s`, in the order
/// they close; nested spans are all kept. Unmatched markers yield nothing.
pub open spec fn privacy_spans(s: Seq<char>) -> Seq<(nat, nat, Privacy)> {
    let toks = marker_tokens_from(s, 0);
    pair_markers(s, toks, toks.len() as int).1
}

/// Every character of `w` is whitespace.
pub open spec fn all_ws(w: Seq<char>) -> bool {
    forall|k: int| 0 <= k < w.len() ==> is_ws(#[trigger] w[k])
}

/// `w` holds no `<!--`, so no marker starts inside it.
pub open spec fn no_comment_open(w: Seq<char>) -> bool {
    forall|k: int| !seq_at(w, k, "<!--"@)
}

/// The opening marker `<!--` ws1 `privacy:LEVEL` ws2 `-->`.
#[verifier::opaque]
pub open spec fn opening_marker(ws1: Seq<char>, level: Privacy, ws2: Seq<char>) -> Seq<char> {
    "<!--"@ + ws1 + "privacy:"@ + privacy_name(level) + ws2 + "-->"@
}

/// The closing marker `<!--` ws1 `/privacy` ws2 `-->`.
#[verifier::opaque]
pub open spec fn closing_marker(ws1: Seq<char>, ws2: Seq<char>) -> Seq<char> {
    "<!--"@ + ws1 + "/privacy"@ + ws2 + "-->"@
}

proof fn lemma_lead_ws_concat(w: Seq<char>, t: Seq<char>)
    requires
        all_ws(w),
        t.len() > 0,
        !is_ws(t[0]),
    ensures
        lead_ws(w + t) == w.len(),
    decreases w.len(),
{
    if w.len() == 0 {
        assert(w + t =~= t);
    } else {
        assert((w + t)[0] == w[0]);
        assert((w + t).drop_first() =~= w.drop_first() + t);
        lemma_lead_ws_concat(w.drop_first(), t);
    }
}

proof fn lemma_ws_skip_at(s: Seq<char>, i: int, w: Seq<char>)
    requires
        0 <= i,
        i + w.len() < s.len(),
        s.subrange(i, i + w.len()) == w,
        all_ws(w),
        !is_ws(s[i + w.len()]),
    ensures
        ws_skip(s, i) == i + w.len(),
{
    let t = s.subrange(i + w.len(), s.len() as int);
    assert(s.subrange(i, s.len() as int) =~= w + t);
    lemma_lead_ws_concat(w, t);
}

proof fn lemma_tokens_skip(s: Seq<char>, i: int, j: int)
    requires
        0 <= i <= j <= s.len(),
        forall|k: int| i <= k < j ==> !seq_at(s, k, "<!--"@),
    ensures
        marker_tokens_from(s, i) == marker_tokens_from(s, j),
    decreases j - i,
{
    if i < j {
        assert(!seq_at(s, i, "<!--"@));
        assert(marker_token_at(s, i) is None);
        lemma_tokens_skip(s, i + 1, j);
    }
}

proof fn lemma_region_opens_nothing(s: Seq<char>, off: int, w: Seq<char>, k: int)
    requires
        0 <= off,
        off + w.len() <= s.len(),
        s.subrange(off, off + w.len()) == w,
        no_comment_open(w),
        off + w.len() < s.len() ==> s[off + w.len()] == '<',
        off <= k < off + w.len(),
    ensures
        !seq_at(s, k, "<!--"@),
{
    reveal_strlit("<!--");
    if seq_at(s, k, "<!--"@) {
        if k + 4 <= off + w.len() {
            assert(w.subrange(k - off, k - off + 4) =~= s.subrange(k, k + 4));
            assert(seq_at(w, k - off, "<!--"@));
        } else {
            let d = off + w.len() - k;
            assert(s.subrange(k, k + 4)[d] == s[off + w.len()]);
        }
    }
}

proof fn lemma_level_word(s: Seq<char>, j: int, level: Privacy)
    requires
        seq_at(s, j, privacy_name(level)),
    ensures
        level_word_at(s, j) == Some((j + privacy_name(level).len(), level)),
{
    reveal_strlit("public");
    reveal_strlit("private");
    reveal_strlit("secret");
    match level {
        Privacy::Public => {},
        Privacy::Private => {
            assert(s.subrange(j, j + 7)[1] == 'r');
            if seq_at(s, j, "public"@) {
                assert(s.subrange(j, j + 6)[1] == 'u');
            }
        },
        Privacy::Secret => {
            assert(s.subrange(j, j + 6)[0] == 's');
            if seq_at(s, j, "public"@) {
                assert(s.subrange(j, j + 6)[0] == 'p');
            }
            if seq_at(s, j, "private"@) {
                assert(s.subrange(j, j + 7)[0] == 'p');
            }
        },
    }
}

proof fn lemma_opening_found(s: Seq<char>, a: int, ws1: Seq<char>, level: Privacy, ws2: Seq<char>)
    requires
        0 <= a,
        a + opening_marker(ws1, level, ws2).len() <= s.len(),
        s.subrange(a, a + opening_marker(ws1, level, ws2).len()) == opening_marker(ws1, level, ws2),
        all_ws(ws1),
        all_ws(ws2),
    ensures
        marker_token_at(s, a) == Some((a + opening_marker(ws1, level, ws2).len(), Some(level))),
{
    reveal_strlit("<!--");
    reveal_strlit("privacy:");
    reveal_strlit("-->");
    reveal(opening_marker);
    let name = privacy_name(level);
    let open = opening_marker(ws1, level, ws2);
    let j1: int = 4int + ws1.len();
    let k1: int = j1 + 8 + name.len();
    let f1: int = k1 + ws2.len();
    assert(open.len() == f1 + 3);
    assert(open.subrange(0, 4) =~= "<!--"@);
    assert(open.subrange(4, j1) =~= ws1);
    assert(open.subrange(j1, j1 + 8) =~= "privacy:"@);
    assert(open.subrange(j1 + 8, k1) =~= name);
    assert(open.subrange(k1, f1) =~= ws2);
    assert(open.subrange(f1, f1 + 3) =~= "-->"@);
    assert(s.subrange(a, a + 4) =~= open.subrange(0, 4));
    assert(s.subrange(a + 4, a + j1) =~= open.subrange(4, j1));
    assert(s.subrange(a + j1, a + j1 + 8) =~= open.subrange(j1, j1 + 8));
    assert(s.subrange(a + j1 + 8, a + k1) =~= open.subrange(j1 + 8, k1));
    assert(s.subrange(a + k1, a + f1) =~= open.subrange(k1, f1));
    assert(s.subrange(a + f1, a + f1 + 3) =~= open.subrange(f1, f1 + 3));
    assert(s[a + j1] == s.subrange(a + j1, a + j1 + 8)[0]);
    assert(s[a + f1] == s.subrange(a + f1, a + f1 + 3)[0]);
    lemma_ws_skip_at(s, a + 4, ws1);
    lemma_level_word(s, a + j1 + 8, level);
    lemma_ws_skip_at(s, a + k1, ws2);
}

proof fn lemma_closing_found(s: Seq<char>, p: int, ws3: Seq<char>, ws4: Seq<char>)
    requires
        0 <= p,
        p + closing_marker(ws3, ws4).len() <= s.len(),
        s.subrange(p, p + closing_marker(ws3, ws4).len()) == closing_marker(ws3, ws4),
        all_ws(ws3),
        all_ws(ws4),
    ensures
        marker_token_at(s, p) == Some((p + closing_marker(ws3, ws4).len(), None::<Privacy>)),
{
    reveal_strlit("<!--");
    reveal_strlit("privacy:");
    reveal_strlit("/privacy");
    reveal_strlit("-->");
    reveal(closing_marker);
    let close = closing_marker(ws3, ws4);
    let j2: int = 4int + ws3.len();
    let f2: int = j2 + 8 + ws4.len();
    assert(close.len() == f2 + 3);
    assert(close.subrange(0, 4) =~= "<!--"@);
    assert(close.subrange(4, j2) =~= ws3);
    assert(close.subrange(j2, j2 + 8) =~= "/privacy"@);
    assert(close.subrange(j2 + 8, f2) =~= ws4);
    assert(close.subrange(f2, f2 + 3) =~= "-->"@);
    assert(s.subrange(p, p + 4) =~= close.subrange(0, 4));
    assert(s.subrange(p + 4, p + j2) =~= close.subrange(4, j2));
    assert(s.subrange(p + j2, p + j2 + 8) =~= close.subrange(j2, j2 + 8));
    assert(s.subrange(p + j2 + 8, p + f2) =~= close.subrange(j2 + 8, f2));
    assert(s.subrange(p + f2, p + f2 + 3) =~= close.subrange(f2, f2 + 3));
    assert(s[p + j2] == s.subrange(p + j2, p + j2 + 8)[0]);
    assert(s[p + f2] == s.subrange(p + f2, p + f2 + 3)[0]);
    lemma_ws_skip_at(s, p + 4, ws3);
    lemma_ws_skip_at(s, p + j2 + 8, ws4);
    assert(!seq_at(s, p + j2, "privacy:"@)) by {
        if seq_at(s, p + j2, "privacy:"@) {
            assert(s.subrange(p + j2, p + j2 + 8)[0] == 'p');
        }
    }
}

proof fn lemma_layout(w1: Seq<char>, open: Seq<char>, c: Seq<char>, close: Seq<char>, w2: Seq<char>)
    ensures
        ({
            let s = w1 + open + c + close + w2;
            let a = w1.len() as int;
            let e1 = a + open.len();
            let p2 = e1 + c.len();
            let e2 = p2 + close.len();
            &&& s.len() == e2 + w2.len()
            &&& s.subrange(0, a) == w1
            &&& s.subrange(a, e1) == open
            &&& s.subrange(e1, p2) == c
            &&& s.subrange(p2, e2) == close
            &&& s.subrange(e2, s.len() as int) == w2
            &&& s.take(e1) == w1 + open
            &&& s.take(p2) == w1 + open + c
        }),
{
    let s = w1 + open + c + close + w2;
    let a = w1.len() as int;
    let e1 = a + open.len();
    let p2 = e1 + c.len();
    let e2 = p2 + close.len();
    assert(s.subrange(0, a) =~= w1);
    assert(s.subrange(a, e1) =~= open);
    assert(s.subrange(e1, p2) =~= c);
    assert(s.subrange(p2, e2) =~= close);
    assert(s.subrange(e2, s.len() as int) =~= w2);
    assert(s.take(e1) =~= w1 + open);
    assert(s.take(p2) =~= w1 + open + c);
}

proof fn lemma_two_tokens(s: Seq<char>, a: int, e1: int, p2: int, e2: int, level: Privacy)
    requires
        0 <= a < e1 <= p2 < e2 <= s.len(),
        marker_token_at(s, a) == Some((e1, Some(level))),
        marker_token_at(s, p2) == Some((e2, None::<Privacy>)),
        forall|k: int| 0 <= k < a ==> !seq_at(s, k, "<!--"@),
        forall|k: int| e1 <= k < p2 ==> !seq_at(s, k, "<!--"@),
        forall|k: int| e2 <= k < s.len() ==> !seq_at(s, k, "<!--"@),
    ensures
        marker_tokens_from(s, 0) == seq![(a, e1, Some(level)), (p2, e2, None::<Privacy>)],
{
    lemma_tokens_skip(s, 0, a);
    lemma_tokens_skip(s, e1, p2);
    lemma_tokens_skip(s, e2, s.len() as int);
    assert(marker_tokens_from(s, e2) =~= Seq::<(int, int, Option<Privacy>)>::empty());
    assert(marker_tokens_from(s, p2) == seq![(p2, e2, None::<Privacy>)] + marker_tokens_from(s, e2));
    assert(marker_tokens_from(s, a) == seq![(a, e1, Some(level))] + marker_tokens_from(s, e1));
    assert(marker_tokens_from(s, 0) =~= seq![(a, e1, Some(level)), (p2, e2, None::<Privacy>)]);
}

/// One marked span in a note body: text, an opening marker of some level with
/// any whitespace around its keyword, content, a closing marker with any
/// whitespace around its keyword, and text. When no `<!--` occurs outside the
/// two markers, the body has exactly one span, the content's bytes, at that
/// level.
pub proof fn lemma_marked_span(
    w1: Seq<char>,
    ws1: Seq<char>,
    level: Privacy,
    ws2: Seq<char>,
    c: Seq<char>,
    ws3: Seq<char>,
    ws4: Seq<char>,
    w2: Seq<char>,
)
    requires
        all_ws(ws1),
        all_ws(ws2),
        all_ws(ws3),
        all_ws(ws4),
        no_comment_open(w1),
        no_comment_open(c),
        no_comment_open(w2),
    ensures
        privacy_spans(w1 + opening_marker(ws1, level, ws2) + c + closing_marker(ws3, ws4) + w2)
            == seq![
            (
                byte_len(w1 + opening_marker(ws1, level, ws2)),
                byte_len(w1 + opening_marker(ws1, level, ws2) + c),
                level,
            ),
        ],
{
    let open = opening_marker(ws1, level, ws2);
    let close = closing_marker(ws3, ws4);
    let s = w1 + open + c + close + w2;
    let a = w1.len() as int;
    let e1 = a + open.len();
    let p2 = e1 + c.len();
    let e2 = p2 + close.len();
    lemma_layout(w1, open, c, close, w2);
    lemma_opening_found(s, a, ws1, level, ws2);
    lemma_closing_found(s, p2, ws3, ws4);
    assert(s[a] == '<') by {
        reveal_strlit("<!--");
        reveal(opening_marker);
        assert(s[a] == s.subrange(a, e1)[0]);
    }
    assert(s[p2] == '<') by {
        reveal_strlit("<!--");
        reveal(closing_marker);
        assert(s[p2] == s.subrange(p2, e2)[0]);
    }
    assert forall|k: int| 0 <= k < a implies !seq_at(s, k, "<!--"@) by {
        lemma_region_opens_nothing(s, 0, w1, k);
    }
    assert forall|k: int| e1 <= k < p2 implies !seq_at(s, k, "<!--"@) by {
        lemma_region_opens_nothing(s, e1, c, k);
    }
    assert forall|k: int| e2 <= k < s.len() implies !seq_at(s, k, "<!--"@) by {
        lemma_region_opens_nothing(s, e2, w2, k);
    }
    lemma_two_tokens(s, a, e1, p2, e2, level);
    let toks = marker_tokens_from(s, 0);
    assert(pair_markers(s, toks, 2).1 =~= seq![(byte_offset(s, e1), byte_offset(s, p2), level)]) by {
        reveal_with_fuel(pair_markers, 3);
    }
}

fn ws_end(v: &Vec<char>, i: usize) -> (r: usize)
    requires
        i <= v@.len(),
    ensures
        r == ws_skip(v@, i as int),
        i <= r <= v@.len(),
{
    let n = count_lead_ws(v, i, v.len());
    proof {
        crate::text::lemma_lead_ws_bound(v@.subrange(i as int, v@.len() as int));
    }
    i + n
}

fn level_word(v: &Vec<char>, j: usize) -> (r: Option<(usize, Privacy)>)
    requires
        j <= v@.len() <= usize::MAX,
    ensures
        match level_word_at(v@, j as int) {
            Some((k, l)) => r == Some((k as usize, l)) && k <= v@.len(),
            None => r is None,
        },
{
    proof {
        reveal_strlit("public");
        reveal_strlit("private");
        reveal_strlit("secret");
    }
    if matches_at(v, j, "public") {
        Some((j + 6, Privacy::Public))
    } else if matches_at(v, j, "private") {
        Some((j + 7, Privacy::Private))
    } else if matches_at(v, j, "secret") {
        Some((j + 6, Privacy::Secret))
    } else {
        None
    }
}

fn open_marker(v: &Vec<char>, i: usize) -> (r: Option<(usize, Privacy)>)
    requires
        i < v@.len() <= usize::MAX,
    ensures
        match open_marker_at(v@, i as int) {
            Some((e, l)) => r == Some((e as usize, l)) && e <= v@.len(),
            None => r is None,
        },
{
    proof {
        reveal_strlit("<!--");
        reveal_strlit("privacy:");
        reveal_strlit("-->");
    }
    if !matches_at(v, i, "<!--") {
        return None;
    }
    let j = ws_end(v, i + 4);
    if !matches_at(v, j, "privacy:") {
        return None;
    }
    match level_word(v, j + 8) {
        None => None,
        Some((k, level)) => {
            let e = ws_end(v, k);
            if matches_at(v, e, "-->") {
                Some((e + 3, level))
            } else {
                None
            }
        },
    }
}

fn close_marker(v: &Vec<char>, i: usize) -> (r: Option<usize>)
    requires
        i < v@.len() <= usize::MAX,
    ensures
        match close_marker_at(v@, i as int) {
            Some(e) => r == Some(e as usize) && e <= v@.len(),
            None => r is None,
        },
{
    proof {
        reveal_strlit("<!--");
        reveal_strlit("/privacy");
        reveal_strlit("-->");
    }
    if !matches_at(v, i, "<!--") {
        return None;
    }
    let j = ws_end(v, i + 4);
    if !matches_at(v, j, "/privacy") {
        return None;
    }
    let e = ws_end(v, j + 8);
    if matches_at(v, e, "-->") {
        Some(e + 3)
    } else {
        None
    }
}

/// Byte spans `(start, end, level)` of the content of every properly closed
/// privacy marker of `body`; see `privacy_spans`.
pub fn parse_privacy_spans(body: &str) -> (r: Vec<(usize, usize, Privacy)>)
    ensures
        r@.len() == privacy_spans(body@).len(),
        forall|k: int|
            0 <= k < r@.len() ==> {
                let sp = #[trigger] privacy_spans(body@)[k];
                r@[k].0 == sp.0 && r@[k].1 == sp.1 && r@[k].2 == sp.2
            },
{
    let (v, offs) = chars_with_offsets(body);
    let ghost s = body@;
    // Markers, left to right.
    let mut toks: Vec<(usize, usize, Option<Privacy>)> = Vec::new();
    let mut i: usize = 0;
    while i < v.len()
        invariant
            v@ == s,
            i <= v@.len(),
            toks@.map_values(|t: (usize, usize, Option<Privacy>)| (t.0 as int, t.1 as int, t.2))
                + marker_tokens_from(s, i as int) == marker_tokens_from(s, 0),
            forall|k: int| 0 <= k < toks@.len() ==> (#[trigger] toks@[k]).0 < toks@[k].1 <= i,
        decreases v.len() - i,
    {
        let ghost before = toks@;
        let found = match open_marker(&v, i) {
            Some((e, level)) => Some((e, Some(level))),
            None => match close_marker(&v, i) {
                Some(e) => Some((e, None)),
                None => None,
            },
        };
        match found {
            Some((e, kind)) => {
                toks.push((i, e, kind));
                proof {
                    assert(toks@.map_values(
                        |t: (usize, usize, Option<Privacy>)| (t.0 as int, t.1 as int, t.2),
                    ) =~= before.map_values(
                        |t: (usize, usize, Option<Privacy>)| (t.0 as int, t.1 as int, t.2),
                    ).push((i as int, e as int, kind)));
                    assert(marker_tokens_from(s, i as int) == seq![(i as int, e as int, kind)]
                        + marker_tokens_from(s, e as int));
                    let ghost a = before.map_values(
                        |t: (usize, usize, Option<Privacy>)| (t.0 as int, t.1 as int, t.2),
                    );
                    let ghost x = (i as int, e as int, kind);
                    assert(a.push(x) + marker_tokens_from(s, e as int) =~= a + (seq![x]
                        + marker_tokens_from(s, e as int)));
                }
                i = e;
            },
            None => {
                i = i + 1;
            },
        }
    }
    let ghost tv = toks@.map_values(|t: (usize, usize, Option<Privacy>)| (t.0 as int, t.1 as int, t.2));
    proof {
        assert(marker_tokens_from(s, i as int) =~= Seq::<(int, int, Option<Privacy>)>::empty());
        assert(tv =~= marker_tokens_from(s, 0));
    }
    // Pair opening and closing markers.
    let mut stack: Vec<(usize, Privacy)> = Vec::new();
    let mut spans: Vec<(usize, usize, Privacy)> = Vec::new();
    let mut k: usize = 0;
    while k < toks.len()
        invariant
            v@ == s,
            offs@.len() == s.len() + 1,
            forall|j: int| 0 <= j <= s.len() ==> #[trigger] offs@[j] == byte_offset(s, j),
            forall|j: int| 0 <= j < toks@.len() ==> (#[trigger] toks@[j]).0 < toks@[j].1 <= s.len(),
            tv == toks@.map_values(|t: (usize, usize, Option<Privacy>)| (t.0 as int, t.1 as int, t.2)),
            k <= toks@.len(),
            stack@.map_values(|o: (usize, Privacy)| (o.0 as int, o.1)) == pair_markers(s, tv, k as int).0,
            forall|j: int| 0 <= j < stack@.len() ==> (#[trigger] stack@[j]).0 <= s.len(),
            spans@.len() == pair_markers(s, tv, k as int).1.len(),
            forall|j: int|
                0 <= j < spans@.len() ==> {
                    let sp = #[trigger] pair_markers(s, tv, k as int).1[j];
                    spans@[j].0 == sp.0 && spans@[j].1 == sp.1 && spans@[j].2 == sp.2
                },
        decreases toks.len() - k,
    {
        let t = toks[k];
        let ghost st0 = stack@;
        let ghost sp0 = spans@;
        assert(tv[k as int] == (t.0 as int, t.1 as int, t.2));
        match t.2 {
            Some(level) => {
                stack.push((t.1, level));
                proof {
                    assert(stack@.map_values(|o: (usize, Privacy)| (o.0 as int, o.1)) =~= st0.map_values(
                        |o: (usize, Privacy)| (o.0 as int, o.1),
                    ).push((t.1 as int, level)));
                }
            },
            None => {
                if stack.len() > 0 {
                    let o = stack.pop().unwrap();
                    proof {
                        assert(st0.map_values(|o: (usize, Privacy)| (o.0 as int, o.1)).last() == (
                            o.0 as int,
                            o.1,
                        ));
                        assert(stack@.map_values(|o: (usize, Privacy)| (o.0 as int, o.1))
                            =~= st0.map_values(|o: (usize, Privacy)| (o.0 as int, o.1)).drop_last());
                    }
                    if t.0 >= o.0 {
                        spans.push((offs[o.0], offs[t.0], o.1));
                    }
                }
            },
        }
        k = k + 1;
    }
    proof {
        assert(toks@.len() == tv.len());
    }
    spans
}

/// Level of a span `[span_start, span_end)` after folding in the first `n`
/// markers: each marker that overlaps the span raises the level to its own.
pub open spec fn level_for_span(
    span_start: int,
    span_end: int,
    marks: Seq<(usize, usize, Privacy)>,
    note_privacy: Privacy,
    n: int,
) -> Privacy
    decreases n,
{
    if n <= 0 {
        note_privacy
    } else {
        let level = level_for_span(span_start, span_end, marks, note_privacy, n - 1);
        let m = marks[n - 1];
        if span_start < m.1 && span_end > m.0 {
            spec_max_privacy(level, m.2)
        } else {
            level
        }
    }
}

/// A marker span overlaps `[span_start, span_end)`.
pub open spec fn overlaps(m: (usize, usize, Privacy), span_start: int, span_end: int) -> bool {
    span_start < m.1 && span_end > m.0
}

proof fn lemma_level_for_span(
    span_start: int,
    span_end: int,
    marks: Seq<(usize, usize, Privacy)>,
    note_privacy: Privacy,
    n: int,
)
    requires
        0 <= n <= marks.len(),
    ensures
        ({
            let r = level_for_span(span_start, span_end, marks, note_privacy, n);
            &&& r.spec_rank() >= note_privacy.spec_rank()
            &&& forall|j: int|
                0 <= j < n && overlaps(#[trigger] marks[j], span_start, span_end) ==> r.spec_rank()
                    >= marks[j].2.spec_rank()
            &&& (r == note_privacy || exists|j: int|
                0 <= j < n && overlaps(#[trigger] marks[j], span_start, span_end) && r == marks[j].2)
        }),
    decreases n,
{
    if n > 0 {
        lemma_level_for_span(span_start, span_end, marks, note_privacy, n - 1);
        let prev = level_for_span(span_start, span_end, marks, note_privacy, n - 1);
        if prev != note_privacy {
            let j = choose|j: int|
                0 <= j < n - 1 && overlaps(#[trigger] marks[j], span_start, span_end) && prev
                    == marks[j].2;
            assert(overlaps(marks[j], span_start, span_end));
        }
        assert(overlaps(marks[n - 1], span_start, span_end) ==> true);
    }
}

/// Privacy level of a claim span: the note's level, raised to the level of
/// every marker span that overlaps it, so the most restrictive level wins.
pub fn privacy_for_span(
    span_start: usize,
    span_end: usize,
    marker_spans: &Vec<(usize, usize, Privacy)>,
    note_privacy: Privacy,
) -> (r: Privacy)
    ensures
        r == level_for_span(
            span_start as int,
            span_end as int,
            marker_spans@,
            note_privacy,
            marker_spans@.len() as int,
        ),
        r.spec_rank() >= note_privacy.spec_rank(),
        forall|j: int|
            0 <= j < marker_spans@.len() && overlaps(
                #[trigger] marker_spans@[j],
                span_start as int,
                span_end as int,
            ) ==> r.spec_rank() >= marker_spans@[j].2.spec_rank(),
        r == note_privacy || exists|j: int|
            0 <= j < marker_spans@.len() && overlaps(
                #[trigger] marker_spans@[j],
                span_start as int,
                span_end as int,
            ) && r == marker_spans@[j].2,
{
    let mut level = note_privacy;
    let mut k: usize = 0;
    while k < marker_spans.len()
        invariant
            k <= marker_spans@.len(),
            level == level_for_span(
                span_start as int,
                span_end as int,
                marker_spans@,
                note_privacy,
                k as int,
            ),
        decreases marker_spans.len() - k,
    {
        let (ms, me, ml) = marker_spans[k];
        if span_start < me && span_end > ms {
            level = level.max_level(ml);
        }
        k = k + 1;
    }
    proof {
        lemma_level_for_span(
            span_start as int,
            span_end as int,
            marker_spans@,
            note_privacy,
            marker_spans@.len() as int,
        );
    }
    level
}

} // verus!
