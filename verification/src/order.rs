//! Ordering tools shared by the finding detectors and the atlas: grouping
//! items under string keys in ascending key order, first-seen deduplication,
//! and a stable sort by (count descending, then two texts ascending).
use vstd::prelude::*;

use crate::text::{lex_lt, str_eq, str_lt};

verus! {

/// Keys made of text components, compared component by component.
pub open spec fn key_lt(a: Seq<Seq<char>>, b: Seq<Seq<char>>) -> bool
    decreases a.len(),
{
    if a.len() == 0 {
        b.len() > 0
    } else if b.len() == 0 {
        false
    } else if lex_lt(a[0], b[0]) {
        true
    } else if a[0] == b[0] {
        key_lt(a.drop_first(), b.drop_first())
    } else {
        false
    }
}

/// The texts of a list of strings.
pub open spec fn texts(v: Seq<String>) -> Seq<Seq<char>> {
    v.map_values(|s: String| s@)
}

/// `x` inserted into the ascending list `s` unless already present.
pub open spec fn insert_key(s: Seq<Seq<Seq<char>>>, x: Seq<Seq<char>>) -> Seq<Seq<Seq<char>>>
    decreases s.len(),
{
    if s.len() == 0 {
        seq![x]
    } else if s[0] == x {
        s
    } else if key_lt(x, s[0]) {
        seq![x] + s
    } else {
        seq![s[0]] + insert_key(s.drop_first(), x)
    }
}

/// The distinct keys present among the first `n` entries, in ascending order.
pub open spec fn sorted_keys(keys: Seq<Option<Seq<Seq<char>>>>, n: int) -> Seq<Seq<Seq<char>>>
    decreases n,
{
    if n <= 0 {
        Seq::empty()
    } else {
        match keys[n - 1] {
            Some(k) => insert_key(sorted_keys(keys, n - 1), k),
            None => sorted_keys(keys, n - 1),
        }
    }
}

proof fn lemma_insert_key_elems(s: Seq<Seq<Seq<char>>>, x: Seq<Seq<char>>)
    ensures
        forall|j: int|
            0 <= j < insert_key(s, x).len() ==> #[trigger] insert_key(s, x)[j] == x || s.contains(
                insert_key(s, x)[j],
            ),
    decreases s.len(),
{
    if s.len() > 0 && s[0] != x && !key_lt(x, s[0]) {
        lemma_insert_key_elems(s.drop_first(), x);
        let r = insert_key(s, x);
        assert forall|j: int| 0 <= j < r.len() implies #[trigger] r[j] == x || s.contains(r[j]) by {
            if j == 0 {
                assert(s[0] == r[0]);
            } else {
                let t = insert_key(s.drop_first(), x);
                assert(r[j] == t[j - 1]);
                if t[j - 1] != x {
                    let w = choose|w: int| 0 <= w < s.drop_first().len() && s.drop_first()[w] == t[j - 1];
                    assert(s[w + 1] == r[j]);
                }
            }
        }
    } else if s.len() > 0 && s[0] != x {
        let r = insert_key(s, x);
        assert forall|j: int| 0 <= j < r.len() implies #[trigger] r[j] == x || s.contains(r[j]) by {
            if j > 0 {
                assert(r[j] == s[j - 1]);
            }
        }
    } else if s.len() > 0 {
        let r = insert_key(s, x);
        assert forall|j: int| 0 <= j < r.len() implies #[trigger] r[j] == x || s.contains(r[j]) by {
            assert(r[j] == s[j]);
        }
    }
}

/// Every key listed by `sorted_keys` has `m` components when every present key has.
pub(crate) proof fn lemma_sorted_keys_len(keys: Seq<Option<Seq<Seq<char>>>>, n: int, m: nat, g: int)
    requires
        0 <= n <= keys.len(),
        forall|i: int| 0 <= i < n && (#[trigger] keys[i]) is Some ==> keys[i]->0.len() == m,
        0 <= g < sorted_keys(keys, n).len(),
    ensures
        sorted_keys(keys, n)[g].len() == m,
    decreases n,
{
    if n > 0 {
        let prev = sorted_keys(keys, n - 1);
        match keys[n - 1] {
            Some(k) => {
                lemma_insert_key_elems(prev, k);
                let r = sorted_keys(keys, n);
                if r[g] != k {
                    let w = choose|w: int| 0 <= w < prev.len() && prev[w] == r[g];
                    lemma_sorted_keys_len(keys, n - 1, m, w);
                }
            },
            None => {
                lemma_sorted_keys_len(keys, n - 1, m, g);
            },
        }
    }
}

/// Every key listed by `sorted_keys` is carried by some entry.
pub(crate) proof fn lemma_sorted_keys_present(keys: Seq<Option<Seq<Seq<char>>>>, n: int, g: int)
    requires
        0 <= n <= keys.len(),
        0 <= g < sorted_keys(keys, n).len(),
    ensures
        exists|i: int| 0 <= i < n && keys[i] == Some(sorted_keys(keys, n)[g]),
        members(keys, sorted_keys(keys, n)[g], n).len() > 0,
    decreases n,
{
    if n > 0 {
        let prev = sorted_keys(keys, n - 1);
        let r = sorted_keys(keys, n);
        match keys[n - 1] {
            Some(k) => {
                lemma_insert_key_elems(prev, k);
                if r[g] != k {
                    let w = choose|w: int| 0 <= w < prev.len() && prev[w] == r[g];
                    lemma_sorted_keys_present(keys, n - 1, w);
                    lemma_members_grow(keys, r[g], n - 1, n);
                } else {
                    assert(keys[n - 1] == Some(r[g]));
                }
            },
            None => {
                lemma_sorted_keys_present(keys, n - 1, g);
                lemma_members_grow(keys, r[g], n - 1, n);
            },
        }
    }
}

proof fn lemma_members_grow(keys: Seq<Option<Seq<Seq<char>>>>, k: Seq<Seq<char>>, m: int, n: int)
    requires
        0 <= m <= n,
    ensures
        members(keys, k, m).len() <= members(keys, k, n).len(),
    decreases n - m,
{
    if m < n {
        lemma_members_grow(keys, k, m, n - 1);
    }
}

/// Every index listed by `members` is below `n` and carries the key.
pub(crate) proof fn lemma_members_sound(keys: Seq<Option<Seq<Seq<char>>>>, k: Seq<Seq<char>>, n: int)
    ensures
        forall|p: int|
            0 <= p < members(keys, k, n).len() ==> 0 <= #[trigger] members(keys, k, n)[p] < n
                && keys[members(keys, k, n)[p]] == Some(k),
    decreases n,
{
    if n > 0 {
        lemma_members_sound(keys, k, n - 1);
    }
}

/// Every index below `n` that carries the key is listed by `members`.
pub(crate) proof fn lemma_members_complete(keys: Seq<Option<Seq<Seq<char>>>>, k: Seq<Seq<char>>, n: int, i: int)
    requires
        0 <= i < n,
        keys[i] == Some(k),
    ensures
        exists|p: int| 0 <= p < members(keys, k, n).len() && #[trigger] members(keys, k, n)[p] == i,
    decreases n,
{
    if i < n - 1 {
        lemma_members_complete(keys, k, n - 1, i);
        let p = choose|p: int| 0 <= p < members(keys, k, n - 1).len() && #[trigger] members(keys, k, n - 1)[p] == i;
        assert(members(keys, k, n)[p] == i);
    } else {
        let m = members(keys, k, n);
        assert(m[m.len() - 1] == i);
    }
}

proof fn lemma_insert_key_keeps(s: Seq<Seq<Seq<char>>>, x: Seq<Seq<char>>)
    ensures
        insert_key(s, x).contains(x),
        forall|j: int| 0 <= j < s.len() ==> insert_key(s, x).contains(#[trigger] s[j]),
    decreases s.len(),
{
    let r = insert_key(s, x);
    if s.len() == 0 {
        assert(r[0] == x);
    } else if s[0] == x {
        assert(r[0] == x);
        assert forall|j: int| 0 <= j < s.len() implies r.contains(#[trigger] s[j]) by {
            assert(r[j] == s[j]);
        }
    } else if key_lt(x, s[0]) {
        assert(r[0] == x);
        assert forall|j: int| 0 <= j < s.len() implies r.contains(#[trigger] s[j]) by {
            assert(r[j + 1] == s[j]);
        }
    } else {
        let t = insert_key(s.drop_first(), x);
        lemma_insert_key_keeps(s.drop_first(), x);
        let w = choose|w: int| 0 <= w < t.len() && t[w] == x;
        assert(r[w + 1] == x);
        assert forall|j: int| 0 <= j < s.len() implies r.contains(#[trigger] s[j]) by {
            if j == 0 {
                assert(r[0] == s[0]);
            } else {
                assert(s.drop_first()[j - 1] == s[j]);
                let v = choose|v: int| 0 <= v < t.len() && t[v] == s.drop_first()[j - 1];
                assert(r[v + 1] == s[j]);
            }
        }
    }
}

/// Every key carried by an entry below `n` is listed by `sorted_keys`.
pub(crate) proof fn lemma_sorted_keys_listed(keys: Seq<Option<Seq<Seq<char>>>>, n: int, i: int)
    requires
        0 <= i < n <= keys.len(),
        keys[i] is Some,
    ensures
        sorted_keys(keys, n).contains(keys[i]->0),
    decreases n,
{
    let prev = sorted_keys(keys, n - 1);
    if i == n - 1 {
        lemma_insert_key_keeps(prev, keys[i]->0);
    } else {
        lemma_sorted_keys_listed(keys, n - 1, i);
        let w = choose|w: int| 0 <= w < prev.len() && prev[w] == keys[i]->0;
        match keys[n - 1] {
            Some(k) => {
                lemma_insert_key_keeps(prev, k);
                assert(insert_key(prev, k).contains(prev[w]));
            },
            None => {},
        }
    }
}

/// The view of an optional key.
pub open spec fn opt_key(k: Option<Vec<String>>) -> Option<Seq<Seq<char>>> {
    match k {
        Some(v) => Some(texts(v@)),
        None => None,
    }
}

/// Views of a list of optional keys.
pub open spec fn opt_keys(keys: Seq<Option<Vec<String>>>) -> Seq<Option<Seq<Seq<char>>>> {
    keys.map_values(|k: Option<Vec<String>>| opt_key(k))
}

/// Whether two keys are equal.
pub fn key_eq(a: &Vec<String>, b: &Vec<String>) -> (r: bool)
    ensures
        r == (texts(a@) == texts(b@)),
{
    if a.len() != b.len() {
        assert(texts(a@).len() != texts(b@).len());
        return false;
    }
    let mut i: usize = 0;
    while i < a.len()
        invariant
            a@.len() == b@.len(),
            i <= a@.len(),
            forall|j: int| 0 <= j < i ==> a@[j]@ == b@[j]@,
        decreases a.len() - i,
    {
        if !str_eq(a[i].as_str(), b[i].as_str()) {
            assert(texts(a@)[i as int] != texts(b@)[i as int]);
            return false;
        }
        i = i + 1;
    }
    assert(texts(a@) =~= texts(b@));
    true
}

/// Whether key `a` sorts strictly before key `b`.
pub fn key_less(a: &Vec<String>, b: &Vec<String>) -> (r: bool)
    ensures
        r == key_lt(texts(a@), texts(b@)),
{
    let mut i: usize = 0;
    proof {
        assert(texts(a@).skip(0) =~= texts(a@));
        assert(texts(b@).skip(0) =~= texts(b@));
    }
    while i < a.len() && i < b.len()
        invariant
            i <= a@.len(),
            i <= b@.len(),
            key_lt(texts(a@), texts(b@)) == key_lt(texts(a@).skip(i as int), texts(b@).skip(i as int)),
        decreases a.len() - i,
    {
        proof {
            assert(texts(a@).skip(i as int)[0] == a@[i as int]@);
            assert(texts(b@).skip(i as int)[0] == b@[i as int]@);
            assert(texts(a@).skip(i as int).drop_first() =~= texts(a@).skip(i + 1));
            assert(texts(b@).skip(i as int).drop_first() =~= texts(b@).skip(i + 1));
        }
        if str_lt(a[i].as_str(), b[i].as_str()) {
            return true;
        }
        if !str_eq(a[i].as_str(), b[i].as_str()) {
            return false;
        }
        i = i + 1;
    }
    proof {
        assert(texts(a@).skip(i as int).len() == a@.len() - i);
        assert(texts(b@).skip(i as int).len() == b@.len() - i);
    }
    i == a.len() && i < b.len()
}

proof fn lemma_insert_key_skip(s: Seq<Seq<Seq<char>>>, x: Seq<Seq<char>>, p: int)
    requires
        0 <= p <= s.len(),
        forall|q: int| 0 <= q < p ==> s[q] != x && !key_lt(x, s[q]),
    ensures
        insert_key(s, x) == s.take(p) + insert_key(s.skip(p), x),
    decreases p,
{
    if p == 0 {
        assert(s.take(0) + insert_key(s.skip(0), x) =~= insert_key(s, x)) by {
            assert(s.skip(0) =~= s);
        }
    } else {
        lemma_insert_key_skip(s.drop_first(), x, p - 1);
        assert(s.drop_first().take(p - 1) =~= s.take(p).drop_first());
        assert(s.drop_first().skip(p - 1) =~= s.skip(p));
        assert(seq![s[0]] + s.take(p).drop_first() =~= s.take(p));
        assert(seq![s[0]] + (s.take(p).drop_first() + insert_key(s.skip(p), x)) =~= s.take(p)
            + insert_key(s.skip(p), x));
    }
}

/// A copy of a list of strings.
pub fn clone_strings(k: &Vec<String>) -> (r: Vec<String>)
    ensures
        texts(r@) == texts(k@),
{
    let mut out: Vec<String> = Vec::new();
    let mut i: usize = 0;
    while i < k.len()
        invariant
            i <= k@.len(),
            out@.len() == i,
            forall|j: int| 0 <= j < i ==> (#[trigger] out@[j])@ == k@[j]@,
        decreases k.len() - i,
    {
        let c = k[i].clone();
        out.push(c);
        i = i + 1;
    }
    assert(texts(out@) =~= texts(k@));
    out
}

/// Views of a list of keys.
pub open spec fn key_list(v: Seq<Vec<String>>) -> Seq<Seq<Seq<char>>> {
    v.map_values(|k: Vec<String>| texts(k@))
}

fn insert_into(sorted: &mut Vec<Vec<String>>, x: &Vec<String>)
    ensures
        key_list(final(sorted)@) == insert_key(key_list(old(sorted)@), texts(x@)),
{
    let ghost s = key_list(sorted@);
    let mut p: usize = 0;
    while p < sorted.len()
        invariant
            p <= sorted@.len(),
            s == key_list(sorted@),
            s == key_list(old(sorted)@),
            forall|q: int| 0 <= q < p ==> s[q] != texts(x@) && !key_lt(texts(x@), s[q]),
        decreases sorted.len() - p,
    {
        if key_eq(&sorted[p], x) {
            proof {
                lemma_insert_key_skip(s, texts(x@), p as int);
                assert(s.skip(p as int)[0] == s[p as int]);
                assert(s[p as int] == texts(x@));
                assert(insert_key(s.skip(p as int), texts(x@)) == s.skip(p as int));
                assert(s.take(p as int) + s.skip(p as int) =~= s);
            }
            return;
        }
        if key_less(x, &sorted[p]) {
            proof {
                lemma_insert_key_skip(s, texts(x@), p as int);
                assert(s.skip(p as int)[0] == s[p as int]);
                assert(insert_key(s.skip(p as int), texts(x@)) == seq![texts(x@)] + s.skip(p as int));
            }
            sorted.insert(p, clone_strings(x));
            proof {
                assert(key_list(sorted@) =~= s.take(p as int) + (seq![texts(x@)] + s.skip(p as int)));
            }
            return;
        }
        p = p + 1;
    }
    proof {
        lemma_insert_key_skip(s, texts(x@), p as int);
        assert(s.skip(p as int) =~= Seq::<Seq<Seq<char>>>::empty());
        assert(s.take(p as int) =~= s);
    }
    sorted.push(clone_strings(x));
    proof {
        assert(key_list(sorted@) =~= s + seq![texts(x@)]);
    }
}

/// The distinct keys present in `keys`, in ascending order.
pub fn distinct_sorted_keys(keys: &Vec<Option<Vec<String>>>) -> (r: Vec<Vec<String>>)
    ensures
        key_list(r@) == sorted_keys(opt_keys(keys@), keys@.len() as int),
{
    let mut out: Vec<Vec<String>> = Vec::new();
    let mut i: usize = 0;
    while i < keys.len()
        invariant
            i <= keys@.len(),
            key_list(out@) == sorted_keys(opt_keys(keys@), i as int),
        decreases keys.len() - i,
    {
        match &keys[i] {
            Some(k) => {
                insert_into(&mut out, k);
            },
            None => {},
        }
        i = i + 1;
    }
    out
}

/// Indices below `n` whose key is `k`, ascending.
pub open spec fn members(keys: Seq<Option<Seq<Seq<char>>>>, k: Seq<Seq<char>>, n: int) -> Seq<int>
    decreases n,
{
    if n <= 0 {
        Seq::empty()
    } else if keys[n - 1] == Some(k) {
        members(keys, k, n - 1).push(n - 1)
    } else {
        members(keys, k, n - 1)
    }
}

/// Indices of the entries whose key is `k`, ascending.
pub fn members_of(keys: &Vec<Option<Vec<String>>>, k: &Vec<String>) -> (r: Vec<usize>)
    ensures
        r@.len() == members(opt_keys(keys@), texts(k@), keys@.len() as int).len(),
        forall|j: int|
            0 <= j < r@.len() ==> #[trigger] r@[j] == members(
                opt_keys(keys@),
                texts(k@),
                keys@.len() as int,
            )[j] && r@[j] < keys@.len(),
{
    let mut out: Vec<usize> = Vec::new();
    let mut i: usize = 0;
    while i < keys.len()
        invariant
            i <= keys@.len(),
            out@.len() == members(opt_keys(keys@), texts(k@), i as int).len(),
            forall|j: int|
                0 <= j < out@.len() ==> #[trigger] out@[j] == members(
                    opt_keys(keys@),
                    texts(k@),
                    i as int,
                )[j] && out@[j] < i,
        decreases keys.len() - i,
    {
        let hit = match &keys[i] {
            Some(x) => key_eq(x, k),
            None => false,
        };
        proof {
            assert(opt_keys(keys@)[i as int] == opt_key(keys@[i as int]));
        }
        if hit {
            out.push(i);
        }
        i = i + 1;
    }
    out
}

/// First-seen deduplication of a list of texts.
pub open spec fn dedup(s: Seq<Seq<char>>) -> Seq<Seq<char>>
    decreases s.len(),
{
    if s.len() == 0 {
        Seq::empty()
    } else {
        let r = dedup(s.drop_last());
        if r.contains(s.last()) {
            r
        } else {
            r.push(s.last())
        }
    }
}

/// Deduplication leaves no text twice.
pub proof fn lemma_dedup_distinct(s: Seq<Seq<char>>)
    ensures
        forall|a: int, b: int| 0 <= a < b < dedup(s).len() ==> dedup(s)[a] != dedup(s)[b],
    decreases s.len(),
{
    if s.len() > 0 {
        lemma_dedup_distinct(s.drop_last());
        let r = dedup(s.drop_last());
        if !r.contains(s.last()) {
            assert forall|a: int, b: int| 0 <= a < b < dedup(s).len() implies dedup(s)[a] != dedup(s)[b] by {
                if b == r.len() {
                    assert(dedup(s)[a] == r[a]);
                }
            }
        }
    }
}

/// Deduplication never lengthens a list.
pub(crate) proof fn lemma_dedup_len(s: Seq<Seq<char>>)
    ensures
        dedup(s).len() <= s.len(),
    decreases s.len(),
{
    if s.len() > 0 {
        lemma_dedup_len(s.drop_last());
    }
}

/// At most `n` entries below `n` carry a given key.
pub(crate) proof fn lemma_members_len(keys: Seq<Option<Seq<Seq<char>>>>, k: Seq<Seq<char>>, n: int)
    requires
        0 <= n,
    ensures
        members(keys, k, n).len() <= n,
    decreases n,
{
    if n > 0 {
        lemma_members_len(keys, k, n - 1);
    }
}

/// Whether `v` holds a string equal to `x`.
pub fn holds_text(v: &Vec<String>, x: &str) -> (b: bool)
    ensures
        b == texts(v@).contains(x@),
{
    let mut i: usize = 0;
    while i < v.len()
        invariant
            i <= v@.len(),
            forall|j: int| 0 <= j < i ==> v@[j]@ != x@,
        decreases v.len() - i,
    {
        if str_eq(v[i].as_str(), x) {
            assert(texts(v@)[i as int] == x@);
            return true;
        }
        i = i + 1;
    }
    proof {
        if texts(v@).contains(x@) {
            let j = choose|j: int| 0 <= j < texts(v@).len() && texts(v@)[j] == x@;
            assert(v@[j]@ == x@);
        }
    }
    false
}

/// `x` appended to a first-seen deduplicated list unless already there.
pub fn push_unique(out: &mut Vec<String>, x: &String)
    ensures
        texts(final(out)@) == if texts(old(out)@).contains(x@) {
            texts(old(out)@)
        } else {
            texts(old(out)@).push(x@)
        },
{
    if !holds_text(out, x.as_str()) {
        out.push(x.clone());
        proof {
            assert(texts(out@) =~= texts(old(out)@).push(x@));
        }
    }
}

/// Sort key of a finding: a count (larger first), then two texts (ascending).
#[derive(Debug, Clone)]
pub struct RankKey {
    pub count: usize,
    pub first: String,
    pub second: String,
}

/// A rank key as plain values.
pub open spec fn rank_view(k: RankKey) -> (int, Seq<char>, Seq<char>) {
    (k.count as int, k.first@, k.second@)
}

/// Views of a list of rank keys.
pub open spec fn rank_views(keys: Seq<RankKey>) -> Seq<(int, Seq<char>, Seq<char>)> {
    keys.map_values(|k: RankKey| rank_view(k))
}

/// `a` goes strictly before `b`: larger count first, then by the texts.
pub open spec fn rank_before(a: (int, Seq<char>, Seq<char>), b: (int, Seq<char>, Seq<char>)) -> bool {
    a.0 > b.0 || (a.0 == b.0 && (lex_lt(a.1, b.1) || (a.1 == b.1 && lex_lt(a.2, b.2))))
}

/// `x` placed in `order` before the first entry it goes strictly before.
pub open spec fn insert_rank(order: Seq<int>, keys: Seq<(int, Seq<char>, Seq<char>)>, x: int) -> Seq<int>
    decreases order.len(),
{
    if order.len() == 0 {
        seq![x]
    } else if rank_before(keys[x], keys[order[0]]) {
        seq![x] + order
    } else {
        seq![order[0]] + insert_rank(order.drop_first(), keys, x)
    }
}

/// Stable insertion sort of the first `n` indices by their keys.
pub open spec fn rank_order(keys: Seq<(int, Seq<char>, Seq<char>)>, n: int) -> Seq<int>
    decreases n,
{
    if n <= 0 {
        Seq::empty()
    } else {
        insert_rank(rank_order(keys, n - 1), keys, n - 1)
    }
}

fn rank_less(a: &RankKey, b: &RankKey) -> (r: bool)
    ensures
        r == rank_before(rank_view(*a), rank_view(*b)),
{
    if a.count != b.count {
        return a.count > b.count;
    }
    if str_lt(a.first.as_str(), b.first.as_str()) {
        return true;
    }
    if !str_eq(a.first.as_str(), b.first.as_str()) {
        return false;
    }
    str_lt(a.second.as_str(), b.second.as_str())
}

proof fn lemma_insert_rank_skip(order: Seq<int>, keys: Seq<(int, Seq<char>, Seq<char>)>, x: int, p: int)
    requires
        0 <= p <= order.len(),
        forall|q: int| 0 <= q < p ==> !rank_before(keys[x], keys[#[trigger] order[q]]),
    ensures
        insert_rank(order, keys, x) == order.take(p) + insert_rank(order.skip(p), keys, x),
    decreases p,
{
    if p == 0 {
        assert(order.skip(0) =~= order);
        assert(order.take(0) + insert_rank(order, keys, x) =~= insert_rank(order, keys, x));
    } else {
        assert(!rank_before(keys[x], keys[order[0]]));
        assert forall|q: int| 0 <= q < p - 1 implies !rank_before(
            keys[x],
            keys[#[trigger] order.drop_first()[q]],
        ) by {
            assert(order.drop_first()[q] == order[q + 1]);
        }
        lemma_insert_rank_skip(order.drop_first(), keys, x, p - 1);
        assert(order.drop_first().take(p - 1) =~= order.take(p).drop_first());
        assert(order.drop_first().skip(p - 1) =~= order.skip(p));
        assert(seq![order[0]] + (order.take(p).drop_first() + insert_rank(order.skip(p), keys, x))
            =~= order.take(p) + insert_rank(order.skip(p), keys, x));
    }
}

pub(crate) proof fn lemma_rank_order_bounds(keys: Seq<(int, Seq<char>, Seq<char>)>, n: int)
    requires
        0 <= n,
    ensures
        rank_order(keys, n).len() == n,
        forall|j: int| 0 <= j < n ==> 0 <= #[trigger] rank_order(keys, n)[j] < n,
    decreases n,
{
    if n > 0 {
        lemma_rank_order_bounds(keys, n - 1);
        lemma_insert_rank_len(rank_order(keys, n - 1), keys, n - 1);
    }
}

proof fn lemma_insert_rank_len(order: Seq<int>, keys: Seq<(int, Seq<char>, Seq<char>)>, x: int)
    ensures
        insert_rank(order, keys, x).len() == order.len() + 1,
        forall|j: int|
            0 <= j < order.len() + 1 ==> (#[trigger] insert_rank(order, keys, x)[j] == x
                || order.contains(insert_rank(order, keys, x)[j])),
    decreases order.len(),
{
    if order.len() > 0 && !rank_before(keys[x], keys[order[0]]) {
        lemma_insert_rank_len(order.drop_first(), keys, x);
        let r = insert_rank(order, keys, x);
        assert forall|j: int| 0 <= j < order.len() + 1 implies (#[trigger] r[j] == x
            || order.contains(r[j])) by {
            if j > 0 {
                let t = insert_rank(order.drop_first(), keys, x);
                assert(r[j] == t[j - 1]);
                if t[j - 1] != x {
                    let w = choose|w: int| 0 <= w < order.drop_first().len() && order.drop_first()[w] == t[j - 1];
                    assert(order[w + 1] == r[j]);
                }
            } else {
                assert(order[0] == r[0]);
            }
        }
    } else if order.len() > 0 {
        let r = insert_rank(order, keys, x);
        assert forall|j: int| 0 <= j < order.len() + 1 implies (#[trigger] r[j] == x
            || order.contains(r[j])) by {
            if j > 0 {
                assert(r[j] == order[j - 1]);
            }
        }
    }
}

proof fn lemma_insert_rank_keeps(order: Seq<int>, keys: Seq<(int, Seq<char>, Seq<char>)>, x: int)
    ensures
        insert_rank(order, keys, x).contains(x),
        forall|j: int| 0 <= j < order.len() ==> insert_rank(order, keys, x).contains(#[trigger] order[j]),
    decreases order.len(),
{
    let r = insert_rank(order, keys, x);
    if order.len() == 0 {
        assert(r[0] == x);
    } else if rank_before(keys[x], keys[order[0]]) {
        assert(r[0] == x);
        assert forall|j: int| 0 <= j < order.len() implies r.contains(#[trigger] order[j]) by {
            assert(r[j + 1] == order[j]);
        }
    } else {
        let t = insert_rank(order.drop_first(), keys, x);
        lemma_insert_rank_keeps(order.drop_first(), keys, x);
        let w = choose|w: int| 0 <= w < t.len() && t[w] == x;
        assert(r[w + 1] == x);
        assert forall|j: int| 0 <= j < order.len() implies r.contains(#[trigger] order[j]) by {
            if j == 0 {
                assert(r[0] == order[0]);
            } else {
                assert(order.drop_first()[j - 1] == order[j]);
                let v = choose|v: int| 0 <= v < t.len() && t[v] == order.drop_first()[j - 1];
                assert(r[v + 1] == order[j]);
            }
        }
    }
}

/// Every index below `n` has a place in `rank_order(keys, n)`.
pub(crate) proof fn lemma_rank_order_covers(keys: Seq<(int, Seq<char>, Seq<char>)>, n: int, x: int)
    requires
        0 <= x < n,
    ensures
        rank_order(keys, n).contains(x),
    decreases n,
{
    let prev = rank_order(keys, n - 1);
    lemma_insert_rank_keeps(prev, keys, n - 1);
    if x < n - 1 {
        lemma_rank_order_covers(keys, n - 1, x);
        let w = choose|w: int| 0 <= w < prev.len() && prev[w] == x;
        assert(insert_rank(prev, keys, n - 1).contains(prev[w]));
    }
}

/// `lex_lt` never holds both ways.
proof fn lemma_lex_lt_asym(a: Seq<char>, b: Seq<char>)
    ensures
        !(lex_lt(a, b) && lex_lt(b, a)),
    decreases a.len(),
{
    if a.len() > 0 && b.len() > 0 && (a[0] as u32) == (b[0] as u32) {
        lemma_lex_lt_asym(a.drop_first(), b.drop_first());
    }
}

/// `rank_before` never holds both ways.
proof fn lemma_rank_before_asym(a: (int, Seq<char>, Seq<char>), b: (int, Seq<char>, Seq<char>))
    ensures
        !(rank_before(a, b) && rank_before(b, a)),
{
    lemma_lex_lt_asym(a.1, b.1);
    lemma_lex_lt_asym(a.2, b.2);
}

/// No entry of `order` goes strictly before the one ahead of it.
pub open spec fn rank_sorted(order: Seq<int>, keys: Seq<(int, Seq<char>, Seq<char>)>) -> bool {
    forall|i: int, j: int|
        #![trigger order[i], order[j]]
        0 <= i && j == i + 1 && j < order.len() ==> !rank_before(keys[order[j]], keys[order[i]])
}

proof fn lemma_insert_rank_sorted(order: Seq<int>, keys: Seq<(int, Seq<char>, Seq<char>)>, x: int)
    requires
        rank_sorted(order, keys),
    ensures
        rank_sorted(insert_rank(order, keys, x), keys),
        insert_rank(order, keys, x)[0] == x || (order.len() > 0 && insert_rank(order, keys, x)[0] == order[0]),
    decreases order.len(),
{
    if order.len() == 0 {
    } else if rank_before(keys[x], keys[order[0]]) {
        lemma_rank_before_asym(keys[x], keys[order[0]]);
        let r = insert_rank(order, keys, x);
        assert(r == seq![x] + order);
        assert forall|i: int, j: int| 0 <= i && j == i + 1 && j < r.len() implies !rank_before(keys[#[trigger] r[j]], keys[#[trigger] r[i]]) by {
            if i > 0 {
                assert(r[i] == order[i - 1] && r[j] == order[j - 1]);
            } else {
                assert(r[0] == x && r[1] == order[0]);
            }
        }
    } else {
        let rest = order.drop_first();
        assert(rank_sorted(rest, keys)) by {
            assert forall|i: int, j: int| 0 <= i && j == i + 1 && j < rest.len() implies !rank_before(keys[#[trigger] rest[j]], keys[#[trigger] rest[i]]) by {
                assert(rest[i] == order[i + 1] && rest[j] == order[j + 1]);
            }
        }
        lemma_insert_rank_sorted(rest, keys, x);
        let t = insert_rank(rest, keys, x);
        let r = insert_rank(order, keys, x);
        assert(r == seq![order[0]] + t);
        assert forall|i: int, j: int| 0 <= i && j == i + 1 && j < r.len() implies !rank_before(keys[#[trigger] r[j]], keys[#[trigger] r[i]]) by {
            if i == 0 {
                assert(r[0] == order[0]);
                assert(r[1] == t[0]);
                if t[0] != x {
                    assert(t[0] == rest[0]);
                    assert(rest[0] == order[1]);
                }
            } else {
                assert(r[i] == t[i - 1] && r[j] == t[j - 1]);
            }
        }
    }
}

/// Findings come out ranked: no finding goes strictly before the one ahead
/// of it (larger counts first, then by their texts).
pub proof fn lemma_rank_order_sorted(keys: Seq<(int, Seq<char>, Seq<char>)>, n: int)
    ensures
        rank_sorted(rank_order(keys, n), keys),
    decreases n,
{
    if n > 0 {
        lemma_rank_order_sorted(keys, n - 1);
        lemma_insert_rank_sorted(rank_order(keys, n - 1), keys, n - 1);
    }
}

/// Positions of the keys in stable sorted order (see `rank_order`).
pub fn stable_rank_order(keys: &Vec<RankKey>) -> (r: Vec<usize>)
    ensures
        r@.len() == keys@.len(),
        rank_order(rank_views(keys@), keys@.len() as int).len() == keys@.len(),
        forall|j: int|
            0 <= j < r@.len() ==> #[trigger] r@[j] == rank_order(rank_views(keys@), keys@.len() as int)[j]
                && r@[j] < keys@.len(),
{
    let mut order: Vec<usize> = Vec::new();
    let mut i: usize = 0;
    while i < keys.len()
        invariant
            i <= keys@.len(),
            order@.len() == i,
            forall|j: int|
                0 <= j < order@.len() ==> #[trigger] order@[j] == rank_order(rank_views(keys@), i as int)[j]
                    && order@[j] < i,
        decreases keys.len() - i,
    {
        proof {
            lemma_rank_order_bounds(rank_views(keys@), i as int);
        }
        let ghost o = rank_order(rank_views(keys@), i as int);
        let mut p: usize = 0;
        while p < order.len() && !rank_less(&keys[i], &keys[order[p]])
            invariant
                p <= order@.len(),
                order@.len() == o.len(),
                i < keys@.len(),
                forall|j: int| 0 <= j < order@.len() ==> #[trigger] order@[j] == o[j] && order@[j] < i,
                forall|q: int| 0 <= q < p ==> !rank_before(rank_views(keys@)[i as int], rank_views(keys@)[#[trigger] o[q]]),
            decreases order.len() - p,
        {
            p = p + 1;
        }
        proof {
            lemma_insert_rank_skip(o, rank_views(keys@), i as int, p as int);
            if p < order@.len() {
                assert(rank_before(rank_views(keys@)[i as int], rank_views(keys@)[o[p as int]]));
                assert(insert_rank(o.skip(p as int), rank_views(keys@), i as int) == seq![i as int] + o.skip(
                    p as int,
                ));
            } else {
                assert(o.skip(p as int) =~= Seq::<int>::empty());
            }
        }
        order.insert(p, i);
        proof {
            let target = rank_order(rank_views(keys@), i + 1);
            assert(target == insert_rank(o, rank_views(keys@), i as int));
            assert forall|j: int| 0 <= j < order@.len() implies #[trigger] order@[j] == target[j]
                && order@[j] < i + 1 by {
                if j < p {
                    assert(target[j] == o.take(p as int)[j]);
                } else if j == p {
                } else {
                    if p < o.len() {
                        assert(target[j] == (seq![i as int] + o.skip(p as int))[j - p]);
                    }
                }
            }
        }
        i = i + 1;
    }
    proof {
        lemma_rank_order_bounds(rank_views(keys@), keys@.len() as int);
    }
    order
}


pub(crate) proof fn lemma_lex_irrefl(a: Seq<char>)
    ensures
        !lex_lt(a, a),
    decreases a.len(),
{
    if a.len() > 0 {
        lemma_lex_irrefl(a.drop_first());
    }
}

proof fn lemma_char_u32_inj(x: char, y: char)
    requires
        (x as u32) == (y as u32),
    ensures
        x == y,
{
    assert((x as int) == (y as int));
}

proof fn lemma_lex_total(a: Seq<char>, b: Seq<char>)
    ensures
        a != b ==> lex_lt(a, b) || lex_lt(b, a),
    decreases a.len(),
{
    if a.len() > 0 && b.len() > 0 && (a[0] as u32) == (b[0] as u32) {
        lemma_lex_total(a.drop_first(), b.drop_first());
        lemma_char_u32_inj(a[0], b[0]);
        if a.drop_first() == b.drop_first() {
            assert(a =~= seq![a[0]] + a.drop_first());
            assert(b =~= seq![b[0]] + b.drop_first());
        }
    } else if a.len() == 0 && b.len() == 0 {
        assert(a =~= b);
    }
}

proof fn lemma_lex_trans(a: Seq<char>, b: Seq<char>, c: Seq<char>)
    requires
        lex_lt(a, b),
        lex_lt(b, c),
    ensures
        lex_lt(a, c),
    decreases a.len(),
{
    if a.len() > 0 && b.len() > 0 && c.len() > 0 && (a[0] as u32) == (b[0] as u32) && (b[0] as u32)
        == (c[0] as u32) {
        lemma_lex_trans(a.drop_first(), b.drop_first(), c.drop_first());
    }
}

proof fn lemma_key_irrefl(a: Seq<Seq<char>>)
    ensures
        !key_lt(a, a),
    decreases a.len(),
{
    if a.len() > 0 {
        lemma_lex_irrefl(a[0]);
        lemma_key_irrefl(a.drop_first());
    }
}

proof fn lemma_key_total(a: Seq<Seq<char>>, b: Seq<Seq<char>>)
    ensures
        a != b ==> key_lt(a, b) || key_lt(b, a),
    decreases a.len(),
{
    if a.len() > 0 && b.len() > 0 {
        lemma_lex_total(a[0], b[0]);
        if a[0] == b[0] {
            lemma_key_total(a.drop_first(), b.drop_first());
            if a.drop_first() == b.drop_first() {
                assert(a =~= seq![a[0]] + a.drop_first());
                assert(b =~= seq![b[0]] + b.drop_first());
            }
        }
    } else if a.len() == 0 && b.len() == 0 {
        assert(a =~= b);
    }
}

proof fn lemma_key_trans(a: Seq<Seq<char>>, b: Seq<Seq<char>>, c: Seq<Seq<char>>)
    requires
        key_lt(a, b),
        key_lt(b, c),
    ensures
        key_lt(a, c),
    decreases a.len(),
{
    if a.len() > 0 && b.len() > 0 && c.len() > 0 {
        if lex_lt(a[0], b[0]) && lex_lt(b[0], c[0]) {
            lemma_lex_trans(a[0], b[0], c[0]);
        } else if lex_lt(a[0], b[0]) {
            assert(b[0] == c[0]);
        } else if lex_lt(b[0], c[0]) {
            assert(a[0] == b[0]);
        } else {
            assert(a[0] == b[0] && b[0] == c[0]);
            lemma_key_trans(a.drop_first(), b.drop_first(), c.drop_first());
        }
    }
}

/// Keys in strictly ascending order.
pub open spec fn strictly_ascending(s: Seq<Seq<Seq<char>>>) -> bool {
    forall|i: int, j: int| 0 <= i < j < s.len() ==> key_lt(#[trigger] s[i], #[trigger] s[j])
}

proof fn lemma_insert_key_ascending(s: Seq<Seq<Seq<char>>>, x: Seq<Seq<char>>)
    requires
        strictly_ascending(s),
    ensures
        strictly_ascending(insert_key(s, x)),
    decreases s.len(),
{
    if s.len() == 0 {
    } else if s[0] == x {
    } else if key_lt(x, s[0]) {
        let r = insert_key(s, x);
        assert forall|i: int, j: int| 0 <= i < j < r.len() implies key_lt(#[trigger] r[i], #[trigger] r[j]) by {
            assert(r[j] == s[j - 1]);
            if i == 0 {
                if j - 1 > 0 {
                    lemma_key_trans(x, s[0], s[j - 1]);
                }
            } else {
                assert(r[i] == s[i - 1]);
            }
        }
    } else {
        let t = s.drop_first();
        assert(strictly_ascending(t)) by {
            assert forall|i: int, j: int| 0 <= i < j < t.len() implies key_lt(#[trigger] t[i], #[trigger] t[j]) by {
                assert(t[i] == s[i + 1] && t[j] == s[j + 1]);
            }
        }
        lemma_insert_key_ascending(t, x);
        lemma_insert_key_elems(t, x);
        lemma_key_total(x, s[0]);
        let it = insert_key(t, x);
        let r = insert_key(s, x);
        assert(r == seq![s[0]] + it);
        assert forall|i: int, j: int| 0 <= i < j < r.len() implies key_lt(#[trigger] r[i], #[trigger] r[j]) by {
            assert(r[j] == it[j - 1]);
            if i == 0 {
                assert(r[0] == s[0]);
                if it[j - 1] != x {
                    let w = choose|w: int| 0 <= w < t.len() && t[w] == it[j - 1];
                    assert(s[w + 1] == t[w]);
                }
            } else {
                assert(r[i] == it[i - 1]);
            }
        }
    }
}

/// `sorted_keys` lists keys in strictly ascending order.
pub(crate) proof fn lemma_sorted_keys_ascending(keys: Seq<Option<Seq<Seq<char>>>>, n: int)
    ensures
        strictly_ascending(sorted_keys(keys, n)),
    decreases n,
{
    if n > 0 {
        lemma_sorted_keys_ascending(keys, n - 1);
        match keys[n - 1] {
            Some(k) => lemma_insert_key_ascending(sorted_keys(keys, n - 1), k),
            None => {},
        }
    }
}

/// One-component keys in strictly ascending order have strictly ascending
/// first components.
pub(crate) proof fn lemma_single_keys_ascending(s: Seq<Seq<Seq<char>>>, i: int, j: int)
    requires
        strictly_ascending(s),
        0 <= i < j < s.len(),
        s[i].len() == 1,
        s[j].len() == 1,
    ensures
        lex_lt(s[i][0], s[j][0]),
{
    assert(key_lt(s[i], s[j]));
    if !lex_lt(s[i][0], s[j][0]) {
        assert(s[i][0] == s[j][0]);
        assert(s[i].drop_first().len() == 0);
        assert(s[j].drop_first().len() == 0);
        assert(!key_lt(s[i].drop_first(), s[j].drop_first()));
    }
}

} // verus!
