//! Character-level text primitives shared by the rest of the library.
//!
//! Strings are modelled by their `Seq<char>` views; byte offsets (as Rust's
//! `str` uses them) are the UTF-8 widths of the characters before a position.
use vstd::prelude::*;

verus! {

/// True for the characters that carry the Unicode `White_Space` property,
/// which is what `char::is_whitespace` tests.
pub open spec fn is_ws(c: char) -> bool {
    ||| ('\u{9}' <= c && c <= '\u{d}')
    ||| c == ' '
    ||| c == '\u{85}'
    ||| c == '\u{a0}'
    ||| c == '\u{1680}'
    ||| ('\u{2000}' <= c && c <= '\u{200a}')
    ||| c == '\u{2028}'
    ||| c == '\u{2029}'
    ||| c == '\u{202f}'
    ||| c == '\u{205f}'
    ||| c == '\u{3000}'
}

/// Number of bytes in the UTF-8 encoding of `c`.
pub open spec fn utf8_width(c: char) -> nat {
    if (c as u32) < 0x80 {
        1
    } else if (c as u32) < 0x800 {
        2
    } else if (c as u32) < 0x10000 {
        3
    } else {
        4
    }
}

/// Number of bytes in the UTF-8 encoding of `s`.
pub open spec fn byte_len(s: Seq<char>) -> nat
    decreases s.len(),
{
    if s.len() == 0 {
        0
    } else {
        byte_len(s.drop_last()) + utf8_width(s.last())
    }
}

/// The byte offset at which the character with index `i` starts.
pub open spec fn byte_offset(s: Seq<char>, i: int) -> nat {
    byte_len(s.take(i))
}

/// ASCII letters and digits.
pub open spec fn is_ascii_alnum(c: char) -> bool {
    ('a' <= c && c <= 'z') || ('A' <= c && c <= 'Z') || ('0' <= c && c <= '9')
}

/// ASCII digits.
pub open spec fn is_ascii_digit(c: char) -> bool {
    '0' <= c && c <= '9'
}

/// ASCII upper-case letters mapped to lower case; every other character kept.
pub open spec fn ascii_lower(c: char) -> char {
    if 'A' <= c && c <= 'Z' {
        ((c as u32) + 32) as char
    } else {
        c
    }
}

/// `ascii_lower` applied to every character.
pub open spec fn ascii_lower_seq(s: Seq<char>) -> Seq<char> {
    s.map_values(|c: char| ascii_lower(c))
}

/// What `str::to_lowercase` returns for a string (full Unicode case mapping).
pub uninterp spec fn unicode_lowercase(s: Seq<char>) -> Seq<char>;

/// The characters of a string slice, in order.
#[verifier::external_body]
pub(crate) fn chars_of(s: &str) -> (v: Vec<char>)
    ensures
        v@ == s@,
{
    s.chars().collect()
}

/// A string holding exactly the given characters.
#[verifier::external_body]
pub(crate) fn string_of(v: &Vec<char>) -> (s: String)
    ensures
        s@ == v@,
{
    v.iter().collect()
}

/// Whether `c` is whitespace (see `is_ws`).
pub(crate) fn char_is_whitespace(c: char) -> (b: bool)
    ensures
        b == is_ws(c),
{
    ('\u{9}' <= c && c <= '\u{d}') || c == ' ' || c == '\u{85}' || c == '\u{a0}' || c == '\u{1680}'
        || ('\u{2000}' <= c && c <= '\u{200a}') || c == '\u{2028}' || c == '\u{2029}' || c == '\u{202f}'
        || c == '\u{205f}' || c == '\u{3000}'
}

/// `str::to_lowercase`: full Unicode lower-casing of a string.
#[verifier::external_body]
pub(crate) fn str_to_lowercase(s: &str) -> (r: String)
    ensures
        r@ == unicode_lowercase(s@),
{
    s.to_lowercase()
}

/// Whether two texts hold the same characters.
pub(crate) fn str_eq(a: &str, b: &str) -> (r: bool)
    ensures
        r == (a@ == b@),
{
    let x = chars_of(a);
    let y = chars_of(b);
    if x.len() != y.len() {
        return false;
    }
    let mut i: usize = 0;
    while i < x.len()
        invariant
            x@ == a@,
            y@ == b@,
            x@.len() == y@.len(),
            i <= x@.len(),
            forall|k: int| 0 <= k < i ==> x@[k] == y@[k],
        decreases x.len() - i,
    {
        if x[i] != y[i] {
            return false;
        }
        i = i + 1;
    }
    proof {
        assert(x@ =~= y@);
    }
    true
}

/// Lower-cases an ASCII upper-case letter; other characters are returned as is.
pub fn to_ascii_lower(c: char) -> (r: char)
    ensures
        r == ascii_lower(c),
{
    if 'A' <= c && c <= 'Z' {
        let b: u8 = c as u8;
        assert(b == c as u32);
        ((b + 32) as u8) as char
    } else {
        c
    }
}

/// UTF-8 width of a character, in bytes.
pub fn char_width(c: char) -> (w: usize)
    ensures
        w == utf8_width(c),
{
    let v: u32 = c as u32;
    if v < 0x80 {
        1
    } else if v < 0x800 {
        2
    } else if v < 0x10000 {
        3
    } else {
        4
    }
}

/// Collapsing of whitespace runs, read left to right: whitespace is dropped,
/// and a non-whitespace character is appended after a single space when
/// whitespace separated it from earlier output.
pub open spec fn collapse_ws(s: Seq<char>) -> Seq<char>
    decreases s.len(),
{
    if s.len() == 0 {
        Seq::empty()
    } else {
        let rest = s.drop_last();
        let c = s.last();
        let r = collapse_ws(rest);
        if is_ws(c) {
            r
        } else if r.len() > 0 && is_ws(rest.last()) {
            r.push(' ').push(c)
        } else {
            r.push(c)
        }
    }
}

/// Whitespace-separated words of `s` joined by single spaces
/// (`s.split_whitespace().collect::<Vec<_>>().join(" ")`).
pub fn collapse_whitespace(s: &Vec<char>) -> (r: Vec<char>)
    ensures
        r@ == collapse_ws(s@),
{
    let mut out: Vec<char> = Vec::new();
    let mut i: usize = 0;
    while i < s.len()
        invariant
            i <= s.len(),
            out@ == collapse_ws(s@.take(i as int)),
        decreases s.len() - i,
    {
        let c = s[i];
        proof {
            assert(s@.take(i + 1).drop_last() =~= s@.take(i as int));
        }
        if char_is_whitespace(c) {
        } else if out.len() > 0 && char_is_whitespace(s[i - 1]) {
            out.push(' ');
            out.push(c);
        } else {
            out.push(c);
        }
        i = i + 1;
    }
    proof {
        assert(s@.take(s@.len() as int) =~= s@);
    }
    out
}

/// Lower-cases `s` (Unicode) and collapses every whitespace run to one space,
/// dropping leading and trailing whitespace.
pub fn normalize_text(s: &str) -> (r: String)
    ensures
        r@ == collapse_ws(unicode_lowercase(s@)),
{
    let lower = str_to_lowercase(s);
    let chars = chars_of(lower.as_str());
    let collapsed = collapse_whitespace(&chars);
    string_of(&collapsed)
}


/// Width of a character matches the length of its UTF-8 encoding.
pub(crate) proof fn lemma_encode_scalar_len(c: char)
    ensures
        vstd::utf8::encode_scalar(c as u32).len() == utf8_width(c),
{
}

/// `byte_len` read from the front.
pub(crate) proof fn lemma_byte_len_front(s: Seq<char>)
    requires
        s.len() > 0,
    ensures
        byte_len(s) == utf8_width(s[0]) + byte_len(s.drop_first()),
    decreases s.len(),
{
    if s.len() == 1 {
        assert(s.drop_last() =~= Seq::<char>::empty());
        assert(s.drop_first() =~= Seq::<char>::empty());
    } else {
        lemma_byte_len_front(s.drop_last());
        assert(s.drop_last().drop_first() =~= s.drop_first().drop_last());
    }
}

/// `byte_len` is the length of the UTF-8 encoding.
pub(crate) proof fn lemma_encode_len(s: Seq<char>)
    ensures
        vstd::utf8::encode_utf8(s).len() == byte_len(s),
    decreases s.len(),
{
    if s.len() > 0 {
        lemma_byte_len_front(s);
        lemma_encode_len(s.drop_first());
        lemma_encode_scalar_len(s[0]);
    }
}

/// Byte length of a prefix never exceeds that of a longer prefix.
pub(crate) proof fn lemma_byte_len_take_mono(s: Seq<char>, i: int, j: int)
    requires
        0 <= i <= j <= s.len(),
    ensures
        byte_len(s.take(i)) <= byte_len(s.take(j)),
    decreases j - i,
{
    if i < j {
        lemma_byte_len_take_mono(s, i, j - 1);
        assert(s.take(j).drop_last() =~= s.take(j - 1));
    }
}

/// Extending a prefix by one character adds that character's width.
pub(crate) proof fn lemma_byte_len_take_step(s: Seq<char>, i: int)
    requires
        0 <= i < s.len(),
    ensures
        byte_len(s.take(i + 1)) == byte_len(s.take(i)) + utf8_width(s[i]),
{
    assert(s.take(i + 1).drop_last() =~= s.take(i));
}

/// A run of `n` ASCII characters starting at index `i` occupies `n` bytes.
pub(crate) proof fn lemma_ascii_run_bytes(s: Seq<char>, i: int, n: int)
    requires
        0 <= i,
        0 <= n,
        i + n <= s.len(),
        forall|k: int| i <= k < i + n ==> (#[trigger] s[k] as u32) < 0x80,
    ensures
        byte_len(s.take(i + n)) == byte_len(s.take(i)) + n,
    decreases n,
{
    if n > 0 {
        lemma_ascii_run_bytes(s, i, n - 1);
        lemma_byte_len_take_step(s, i + n - 1);
    }
}

/// Byte offsets strictly increase with the character index.
pub(crate) proof fn lemma_byte_offset_strict(s: Seq<char>, i: int, j: int)
    requires
        0 <= i < j <= s.len(),
    ensures
        byte_len(s.take(i)) < byte_len(s.take(j)),
{
    lemma_byte_len_take_step(s, i);
    lemma_byte_len_take_mono(s, i + 1, j);
}

/// Character index whose byte offset is `b`, if `b` falls on a character boundary.
pub open spec fn char_index_at_byte(s: Seq<char>, b: int) -> Option<int> {
    if exists|i: int| 0 <= i <= s.len() && byte_offset(s, i) == b {
        Some(choose|i: int| 0 <= i <= s.len() && byte_offset(s, i) == b)
    } else {
        None
    }
}

/// Maps a byte offset to the character index starting there (`str::is_char_boundary`).
pub fn char_index_of_byte(s: &Vec<char>, b: usize) -> (r: Option<usize>)
    ensures
        r == (match char_index_at_byte(s@, b as int) {
            Some(i) => Some(i as usize),
            None => None::<usize>,
        }),
        r matches Some(i) ==> i <= s.len() && byte_offset(s@, i as int) == b,
{
    let mut i: usize = 0;
    let mut off: usize = 0;
    loop
        invariant
            i <= s.len(),
            off == byte_offset(s@, i as int),
            off <= b,
            forall|k: int| 0 <= k < i ==> byte_offset(s@, k) < b,
        decreases s.len() - i,
    {
        if off == b {
            proof {
                assert forall|k: int| 0 <= k <= s@.len() && byte_offset(s@, k) == b implies k
                    == i by {
                    if k < i {
                    } else if k > i {
                        lemma_byte_offset_strict(s@, i as int, k);
                    }
                }
            }
            return Some(i);
        }
        if i == s.len() {
            proof {
                assert forall|k: int| 0 <= k <= s@.len() implies byte_offset(s@, k) != b by {
                    if k == i {
                    }
                }
            }
            return None;
        }
        let w = char_width(s[i]);
        proof {
            lemma_byte_len_take_step(s@, i as int);
        }
        if w > b - off {
            proof {
                assert forall|k: int| 0 <= k <= s@.len() implies byte_offset(s@, k) != b by {
                    if k > i {
                        lemma_byte_len_take_mono(s@, i + 1, k);
                    }
                }
            }
            return None;
        }
        off = off + w;
        i = i + 1;
    }
}

/// Every character is ASCII.
pub open spec fn is_ascii_seq(s: Seq<char>) -> bool {
    forall|k: int| 0 <= k < s.len() ==> (#[trigger] s[k] as u32) < 0x80
}

/// In ASCII text byte offsets equal character indices.
pub(crate) proof fn lemma_ascii_prefix_bytes(s: Seq<char>, i: int)
    requires
        is_ascii_seq(s),
        0 <= i <= s.len(),
    ensures
        byte_offset(s, i) == i,
{
    assert(s.take(0) =~= Seq::<char>::empty());
    lemma_ascii_run_bytes(s, 0, i);
}

/// Byte length of a string slice (`str::len`).
pub fn byte_len_of(s: &str) -> (n: usize)
    ensures
        n == byte_len(s@),
{
    let b = s.as_bytes();
    let n = b.len();
    proof {
        lemma_encode_len(s@);
    }
    n
}

/// Number of leading whitespace characters.
pub open spec fn lead_ws(s: Seq<char>) -> nat
    decreases s.len(),
{
    if s.len() > 0 && is_ws(s[0]) {
        1 + lead_ws(s.drop_first())
    } else {
        0
    }
}

/// Number of trailing whitespace characters.
pub open spec fn trail_ws(s: Seq<char>) -> nat
    decreases s.len(),
{
    if s.len() > 0 && is_ws(s.last()) {
        1 + trail_ws(s.drop_last())
    } else {
        0
    }
}

/// `str::trim_start`.
pub open spec fn trim_start(s: Seq<char>) -> Seq<char> {
    s.skip(lead_ws(s) as int)
}

/// `str::trim_end`.
pub open spec fn trim_end(s: Seq<char>) -> Seq<char> {
    s.take(s.len() - trail_ws(s))
}

/// `str::trim`: leading and trailing whitespace removed.
pub open spec fn trim(s: Seq<char>) -> Seq<char> {
    trim_end(trim_start(s))
}

pub(crate) proof fn lemma_lead_ws_bound(s: Seq<char>)
    ensures
        lead_ws(s) <= s.len(),
        forall|k: int| 0 <= k < lead_ws(s) ==> is_ws(#[trigger] s[k]),
        lead_ws(s) < s.len() ==> !is_ws(s[lead_ws(s) as int]),
    decreases s.len(),
{
    if s.len() > 0 && is_ws(s[0]) {
        lemma_lead_ws_bound(s.drop_first());
        assert forall|k: int| 0 <= k < lead_ws(s) implies is_ws(#[trigger] s[k]) by {
            if k > 0 {
                assert(s[k] == s.drop_first()[k - 1]);
            }
        }
    }
}

pub(crate) proof fn lemma_trail_ws_bound(s: Seq<char>)
    ensures
        trail_ws(s) <= s.len(),
        forall|k: int| s.len() - trail_ws(s) <= k < s.len() ==> is_ws(#[trigger] s[k]),
        trail_ws(s) < s.len() ==> !is_ws(s[s.len() - trail_ws(s) - 1]),
    decreases s.len(),
{
    if s.len() > 0 && is_ws(s.last()) {
        lemma_trail_ws_bound(s.drop_last());
        assert forall|k: int| s.len() - trail_ws(s) <= k < s.len() implies is_ws(
            #[trigger] s[k],
        ) by {
            if k < s.len() - 1 {
                assert(s[k] == s.drop_last()[k]);
            }
        }
    }
}

/// Index of the first whitespace-free character (count of leading whitespace).
pub fn count_lead_ws(s: &Vec<char>, from: usize, to: usize) -> (n: usize)
    requires
        from <= to <= s.len(),
    ensures
        n == lead_ws(s@.subrange(from as int, to as int)),
{
    let mut i = from;
    while i < to && char_is_whitespace(s[i])
        invariant
            from <= i <= to <= s.len(),
            lead_ws(s@.subrange(from as int, to as int)) == (i - from) + lead_ws(
                s@.subrange(i as int, to as int),
            ),
        decreases to - i,
    {
        assert(s@.subrange(i as int, to as int).drop_first() =~= s@.subrange(i + 1, to as int));
        i = i + 1;
    }
    i - from
}

/// Count of trailing whitespace characters in `s[from..to]`.
pub fn count_trail_ws(s: &Vec<char>, from: usize, to: usize) -> (n: usize)
    requires
        from <= to <= s.len(),
    ensures
        n == trail_ws(s@.subrange(from as int, to as int)),
{
    let mut j = to;
    while j > from && char_is_whitespace(s[j - 1])
        invariant
            from <= j <= to <= s.len(),
            trail_ws(s@.subrange(from as int, to as int)) == (to - j) + trail_ws(
                s@.subrange(from as int, j as int),
            ),
        decreases j - from,
    {
        assert(s@.subrange(from as int, j as int).drop_last() =~= s@.subrange(
            from as int,
            j - 1,
        ));
        j = j - 1;
    }
    to - j
}

/// Bounds `(start, end)` of `trim(s[from..to])` within `s`.
pub fn trim_bounds(s: &Vec<char>, from: usize, to: usize) -> (r: (usize, usize))
    requires
        from <= to <= s.len(),
    ensures
        from <= r.0 <= r.1 <= to,
        s@.subrange(r.0 as int, r.1 as int) == trim(s@.subrange(from as int, to as int)),
{
    let ghost t = s@.subrange(from as int, to as int);
    let lead = count_lead_ws(s, from, to);
    proof {
        lemma_lead_ws_bound(t);
    }
    let start = from + lead;
    let trail = count_trail_ws(s, start, to);
    proof {
        let ts = s@.subrange(start as int, to as int);
        lemma_trail_ws_bound(ts);
        assert(trim_start(t) =~= ts);
    }
    let end = to - trail;
    proof {
        assert(s@.subrange(start as int, end as int) =~= trim(t));
    }
    (start, end)
}

/// First index `k >= from` with `s[k] == c`, searched within `s[..to]`.
pub open spec fn find_char_from(s: Seq<char>, c: char, from: int, to: int) -> Option<int>
    decreases to - from,
{
    if from >= to {
        None
    } else if s[from] == c {
        Some(from)
    } else {
        find_char_from(s, c, from + 1, to)
    }
}

/// Last index `k < to` with `s[k] == c`, searched within `s[from..]`.
pub open spec fn rfind_char_to(s: Seq<char>, c: char, from: int, to: int) -> Option<int>
    decreases to - from,
{
    if from >= to {
        None
    } else if s[to - 1] == c {
        Some(to - 1)
    } else {
        rfind_char_to(s, c, from, to - 1)
    }
}

/// First occurrence of `c` in `s[from..to]`.
pub fn find_char(s: &Vec<char>, c: char, from: usize, to: usize) -> (r: Option<usize>)
    requires
        from <= to <= s.len(),
    ensures
        r is None <==> find_char_from(s@, c, from as int, to as int) is None,
        r matches Some(k) ==> find_char_from(s@, c, from as int, to as int) == Some(k as int),
        r matches Some(k) ==> from <= k < to && s@[k as int] == c,
{
    let mut i = from;
    while i < to
        invariant
            from <= i <= to <= s.len(),
            find_char_from(s@, c, from as int, to as int) == find_char_from(
                s@,
                c,
                i as int,
                to as int,
            ),
        decreases to - i,
    {
        if s[i] == c {
            return Some(i);
        }
        i = i + 1;
    }
    None
}

/// Last occurrence of `c` in `s[from..to]`.
pub fn rfind_char(s: &Vec<char>, c: char, from: usize, to: usize) -> (r: Option<usize>)
    requires
        from <= to <= s.len(),
    ensures
        r is None <==> rfind_char_to(s@, c, from as int, to as int) is None,
        r matches Some(k) ==> rfind_char_to(s@, c, from as int, to as int) == Some(k as int),
        r matches Some(k) ==> from <= k < to && s@[k as int] == c,
{
    let mut j = to;
    while j > from
        invariant
            from <= j <= to <= s.len(),
            rfind_char_to(s@, c, from as int, to as int) == rfind_char_to(
                s@,
                c,
                from as int,
                j as int,
            ),
        decreases j - from,
    {
        if s[j - 1] == c {
            return Some(j - 1);
        }
        j = j - 1;
    }
    None
}

/// Copy of `s[from..to]` as a string.
pub fn string_of_range(s: &Vec<char>, from: usize, to: usize) -> (r: String)
    requires
        from <= to <= s.len(),
    ensures
        r@ == s@.subrange(from as int, to as int),
{
    let mut v: Vec<char> = Vec::new();
    let mut i = from;
    while i < to
        invariant
            from <= i <= to <= s.len(),
            v@ == s@.subrange(from as int, i as int),
        decreases to - i,
    {
        v.push(s[i]);
        i = i + 1;
    }
    string_of(&v)
}

/// `t` occurs in `s` starting at index `i`.
pub open spec fn seq_at(s: Seq<char>, i: int, t: Seq<char>) -> bool {
    0 <= i && i + t.len() <= s.len() && s.subrange(i, i + t.len()) == t
}

/// Whether the characters of `t` occur in `s` starting at index `i`.
pub fn matches_at(s: &Vec<char>, i: usize, t: &str) -> (b: bool)
    ensures
        b == seq_at(s@, i as int, t@),
{
    let tv = chars_of(t);
    let n = tv.len();
    if i > s.len() || n > s.len() - i {
        return false;
    }
    let mut k: usize = 0;
    while k < n
        invariant
            tv@ == t@,
            n == tv@.len(),
            i + n <= s@.len(),
            s@.len() <= usize::MAX,
            k <= n,
            forall|j: int| 0 <= j < k ==> s@[i + j] == tv@[j],
        decreases n - k,
    {
        if s[i + k] != tv[k] {
            assert(s@.subrange(i as int, i + n)[k as int] != t@[k as int]);
            return false;
        }
        k = k + 1;
    }
    assert(s@.subrange(i as int, i + n) =~= t@);
    true
}

/// The characters of `s` with the byte offset of every character boundary:
/// `offs[i]` is the offset of character `i`, and `offs[len]` the byte length.
pub fn chars_with_offsets(s: &str) -> (r: (Vec<char>, Vec<usize>))
    ensures
        r.0@ == s@,
        r.1@.len() == s@.len() + 1,
        forall|i: int| 0 <= i <= s@.len() ==> #[trigger] r.1@[i] == byte_offset(s@, i),
{
    let v = chars_of(s);
    let total = byte_len_of(s);
    let mut offs: Vec<usize> = Vec::new();
    offs.push(0);
    let mut off: usize = 0;
    let mut i: usize = 0;
    proof {
        assert(v@.take(0) =~= Seq::<char>::empty());
    }
    while i < v.len()
        invariant
            v@ == s@,
            total == byte_len(s@),
            i <= v@.len(),
            offs@.len() == i + 1,
            off == byte_offset(s@, i as int),
            forall|j: int| 0 <= j <= i ==> #[trigger] offs@[j] == byte_offset(s@, j),
        decreases v.len() - i,
    {
        proof {
            lemma_byte_len_take_step(s@, i as int);
            lemma_byte_len_take_mono(s@, i + 1, s@.len() as int);
            assert(s@.take(s@.len() as int) =~= s@);
        }
        off = off + char_width(v[i]);
        offs.push(off);
        i = i + 1;
    }
    (v, offs)
}

/// Index of the first occurrence of `needle` in `hay` at or after `i`.
pub open spec fn find_from(hay: Seq<char>, needle: Seq<char>, i: int) -> Option<int>
    decreases hay.len() + 1 - i,
{
    if i < 0 || i + needle.len() > hay.len() {
        None
    } else if seq_at(hay, i, needle) {
        Some(i)
    } else {
        find_from(hay, needle, i + 1)
    }
}

/// Index of the first occurrence of `needle` in `hay` (`str::find`, by character).
pub fn find_chars(hay: &Vec<char>, needle: &Vec<char>) -> (r: Option<usize>)
    ensures
        match find_from(hay@, needle@, 0) {
            Some(i) => r is Some && r->0 == i && i + needle@.len() <= hay@.len(),
            None => r is None,
        },
{
    let n = needle.len();
    if n > hay.len() {
        return None;
    }
    let last = hay.len() - n;
    let mut i: usize = 0;
    while i <= last
        invariant
            n == needle@.len(),
            n <= hay@.len(),
            hay@.len() <= usize::MAX,
            last == hay@.len() - n,
            i <= last + 1,
            find_from(hay@, needle@, 0) == find_from(hay@, needle@, i as int),
        decreases last + 1 - i,
    {
        let mut k: usize = 0;
        let mut same = true;
        while k < n
            invariant
                hay@.len() <= usize::MAX,
                n == needle@.len(),
                i <= last,
                last == hay@.len() - n,
                k <= n,
                same == (forall|t: int| 0 <= t < k ==> hay@[i + t] == needle@[t]),
            decreases n - k,
        {
            if hay[i + k] != needle[k] {
                same = false;
            }
            k = k + 1;
        }
        if same {
            assert(hay@.subrange(i as int, i + n) =~= needle@);
            return Some(i);
        }
        proof {
            if seq_at(hay@, i as int, needle@) {
                let t = choose|t: int| 0 <= t < n && hay@[i + t] != needle@[t];
                assert(hay@.subrange(i as int, i + n)[t] == hay@[i + t]);
            }
        }
        if i == last {
            assert(find_from(hay@, needle@, i + 1) is None);
            return None;
        }
        i = i + 1;
    }
    None
}

/// `-` and `_` replaced by spaces.
pub open spec fn dashes_to_spaces(s: Seq<char>) -> Seq<char> {
    s.map_values(|c: char| if c == '-' || c == '_' { ' ' } else { c })
}

/// `s.replace(['-', '_'], " ")`.
pub fn replace_dashes(s: &str) -> (r: String)
    ensures
        r@ == dashes_to_spaces(s@),
{
    let v = chars_of(s);
    let mut out: Vec<char> = Vec::new();
    let mut i: usize = 0;
    while i < v.len()
        invariant
            v@ == s@,
            i <= v@.len(),
            out@ == dashes_to_spaces(v@.take(i as int)),
        decreases v.len() - i,
    {
        let c = v[i];
        if c == '-' || c == '_' {
            out.push(' ');
        } else {
            out.push(c);
        }
        proof {
            assert(dashes_to_spaces(v@.take(i + 1)) =~= dashes_to_spaces(v@.take(i as int)).push(
                if c == '-' || c == '_' { ' ' } else { c },
            ));
        }
        i = i + 1;
    }
    proof {
        assert(v@.take(v@.len() as int) =~= v@);
    }
    string_of(&out)
}

/// Full Unicode lower-casing of `s` (`str::to_lowercase`).
pub fn lowercase(s: &str) -> (r: String)
    ensures
        r@ == unicode_lowercase(s@),
{
    str_to_lowercase(s)
}

/// `s` with ASCII upper-case letters lowered (`str::to_ascii_lowercase`).
pub fn ascii_lowercase(s: &str) -> (r: String)
    ensures
        r@ == ascii_lower_seq(s@),
{
    let v = chars_of(s);
    let mut out: Vec<char> = Vec::new();
    let mut i: usize = 0;
    while i < v.len()
        invariant
            v@ == s@,
            i <= v@.len(),
            out@ == ascii_lower_seq(v@.take(i as int)),
        decreases v.len() - i,
    {
        out.push(to_ascii_lower(v[i]));
        proof {
            assert(ascii_lower_seq(v@.take(i + 1)) =~= ascii_lower_seq(v@.take(i as int)).push(
                ascii_lower(v@[i as int]),
            ));
        }
        i = i + 1;
    }
    proof {
        assert(v@.take(v@.len() as int) =~= v@);
    }
    string_of(&out)
}

/// `s` begins with `p`.
pub open spec fn has_prefix(s: Seq<char>, p: Seq<char>) -> bool {
    seq_at(s, 0, p)
}

/// `s` ends with `p`.
pub open spec fn has_suffix(s: Seq<char>, p: Seq<char>) -> bool {
    seq_at(s, s.len() - p.len(), p)
}

/// `str::starts_with`.
pub fn starts_with(s: &str, p: &str) -> (b: bool)
    ensures
        b == has_prefix(s@, p@),
{
    let v = chars_of(s);
    matches_at(&v, 0, p)
}

/// `str::ends_with`.
pub fn ends_with(s: &str, p: &str) -> (b: bool)
    ensures
        b == has_suffix(s@, p@),
{
    let v = chars_of(s);
    let pv = chars_of(p);
    if pv.len() > v.len() {
        return false;
    }
    matches_at(&v, v.len() - pv.len(), p)
}

/// Lexicographic order of character sequences, by code point (the order of
/// `str` comparison, since UTF-8 preserves code point order).
pub open spec fn lex_lt(a: Seq<char>, b: Seq<char>) -> bool
    decreases a.len(),
{
    if a.len() == 0 {
        b.len() > 0
    } else if b.len() == 0 {
        false
    } else if (a[0] as u32) < (b[0] as u32) {
        true
    } else if (a[0] as u32) > (b[0] as u32) {
        false
    } else {
        lex_lt(a.drop_first(), b.drop_first())
    }
}

/// Whether `a` sorts strictly before `b` (see `lex_lt`).
pub fn str_lt(a: &str, b: &str) -> (r: bool)
    ensures
        r == lex_lt(a@, b@),
{
    let x = chars_of(a);
    let y = chars_of(b);
    let mut i: usize = 0;
    proof {
        assert(a@.skip(0) =~= a@);
        assert(b@.skip(0) =~= b@);
    }
    while i < x.len() && i < y.len()
        invariant
            x@ == a@,
            y@ == b@,
            i <= x@.len(),
            i <= y@.len(),
            lex_lt(a@, b@) == lex_lt(a@.skip(i as int), b@.skip(i as int)),
        decreases x.len() - i,
    {
        let cx = x[i];
        let cy = y[i];
        proof {
            assert(a@.skip(i as int)[0] == cx);
            assert(b@.skip(i as int)[0] == cy);
            assert(a@.skip(i as int).drop_first() =~= a@.skip(i + 1));
            assert(b@.skip(i as int).drop_first() =~= b@.skip(i + 1));
        }
        if (cx as u32) < (cy as u32) {
            return true;
        }
        if (cx as u32) > (cy as u32) {
            return false;
        }
        i = i + 1;
    }
    proof {
        assert(a@.skip(i as int).len() == 0 || b@.skip(i as int).len() == 0);
    }
    i == x.len() && i < y.len()
}

} // verus!
