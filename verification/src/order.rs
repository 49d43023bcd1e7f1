//! Stable sorting, as an order of positions.

use vstd::prelude::*;
use crate::text::{text_before, text_lt, text_lt_total, text_lt_transitive};

verus! {

/// The items of `s` in the order of the positions `p`.
pub open spec fn arranged<T>(s: Seq<T>, p: Seq<int>) -> Seq<T> {
    Seq::new(p.len(), |i: int| s[p[i]])
}

/// Whether `p` names every position below `n` once.
pub open spec fn permutes(p: Seq<int>, n: int) -> bool {
    &&& p.len() == n
    &&& forall|i: int| 0 <= i < p.len() ==> 0 <= #[trigger] p[i] < n
    &&& forall|i: int, j: int| 0 <= i < j < p.len() ==> #[trigger] p[i] != #[trigger] p[j]
}

/// Positions as indices.
pub open spec fn indices(v: Seq<usize>) -> Seq<int> {
    Seq::new(v.len(), |i: int| v[i] as int)
}

// ---------------------------------------------------------------------------
// Numbers
// ---------------------------------------------------------------------------

/// The first place in `p` whose key is greater than `k`.
pub open spec fn place(keys: Seq<int>, p: Seq<int>, k: int) -> int
    decreases p.len(),
{
    if p.len() == 0 || k < keys[p[0]] {
        0
    } else {
        1 + place(keys, p.drop_first(), k)
    }
}

/// The first `n` positions, sorted by their keys; equal keys keep their order.
pub open spec fn order_upto(keys: Seq<int>, n: int) -> Seq<int>
    decreases n,
{
    if n <= 0 {
        Seq::empty()
    } else {
        let p = order_upto(keys, n - 1);
        p.insert(place(keys, p, keys[n - 1]), n - 1)
    }
}

/// All positions, sorted by their keys; equal keys keep their order.
pub open spec fn order_by(keys: Seq<int>) -> Seq<int> {
    order_upto(keys, keys.len() as int)
}

/// Whether `p` is sorted by key, and by position where keys are equal.
pub open spec fn in_order(keys: Seq<int>, p: Seq<int>) -> bool {
    forall|i: int, j: int|
        0 <= i < j < p.len() ==> keys[#[trigger] p[i]] < keys[#[trigger] p[j]] || keys[p[i]]
            == keys[p[j]] && p[i] < p[j]
}

proof fn place_splits(keys: Seq<int>, p: Seq<int>, k: int)
    requires
        in_order(keys, p),
    ensures
        0 <= place(keys, p, k) <= p.len(),
        forall|i: int| 0 <= i < place(keys, p, k) ==> keys[#[trigger] p[i]] <= k,
        forall|i: int| place(keys, p, k) <= i < p.len() ==> keys[#[trigger] p[i]] > k,
    decreases p.len(),
{
    if p.len() > 0 && !(k < keys[p[0]]) {
        let rest = p.drop_first();
        assert forall|i: int, j: int| 0 <= i < j < rest.len() implies keys[#[trigger] rest[i]]
            < keys[#[trigger] rest[j]] || keys[rest[i]] == keys[rest[j]] && rest[i] < rest[j] by {
            assert(rest[i] == p[i + 1] && rest[j] == p[j + 1]);
        }
        place_splits(keys, rest, k);
        let m = place(keys, rest, k);
        assert forall|i: int| 0 <= i < 1 + m implies keys[#[trigger] p[i]] <= k by {
            if i > 0 {
                assert(p[i] == rest[i - 1]);
            }
        }
        assert forall|i: int| 1 + m <= i < p.len() implies keys[#[trigger] p[i]] > k by {
            assert(p[i] == rest[i - 1]);
        }
    } else if p.len() > 0 {
        assert forall|i: int| 0 <= i < p.len() implies keys[#[trigger] p[i]] > k by {
            if i > 0 {
                assert(keys[p[0]] <= keys[p[i]]);
            }
        }
    }
}

proof fn order_upto_sorts(keys: Seq<int>, n: int)
    requires
        0 <= n <= keys.len(),
    ensures
        permutes(order_upto(keys, n), n),
        in_order(keys, order_upto(keys, n)),
    decreases n,
{
    if n > 0 {
        order_upto_sorts(keys, n - 1);
        let p = order_upto(keys, n - 1);
        let k = keys[n - 1];
        place_splits(keys, p, k);
        let m = place(keys, p, k);
        let q = p.insert(m, n - 1);
        assert(q == order_upto(keys, n));
        assert forall|i: int| 0 <= i < q.len() implies 0 <= #[trigger] q[i] < n by {
            if i < m {
                assert(q[i] == p[i]);
            } else if i > m {
                assert(q[i] == p[i - 1]);
            }
        }
        assert forall|i: int, j: int| 0 <= i < j < q.len() implies #[trigger] q[i]
            != #[trigger] q[j] && (keys[q[i]] < keys[q[j]] || keys[q[i]] == keys[q[j]] && q[i]
            < q[j]) by {
            if i < m {
                assert(q[i] == p[i]);
            } else if i > m {
                assert(q[i] == p[i - 1]);
            }
            if j < m {
                assert(q[j] == p[j]);
            } else if j > m {
                assert(q[j] == p[j - 1]);
            }
        }
    }
}

/// Sorting names every position once, in ascending order of the keys, and keeps
/// the order of equal keys.
pub proof fn order_by_sorts(keys: Seq<int>)
    ensures
        permutes(order_by(keys), keys.len() as int),
        in_order(keys, order_by(keys)),
{
    order_upto_sorts(keys, keys.len() as int);
}

/// Numbers within bounds, none twice, are no more than the bound.
pub proof fn distinct_bounded(s: Seq<int>, n: int)
    requires
        0 <= n,
        s.no_duplicates(),
        forall|i: int| 0 <= i < s.len() ==> 0 <= #[trigger] s[i] < n,
    ensures
        s.len() <= n,
    decreases n,
{
    if n == 0 {
        if s.len() > 0 {
            assert(0 <= s[0] < n);
        }
    } else if s.contains(n - 1) {
        let k = choose|k: int| 0 <= k < s.len() && s[k] == n - 1;
        let t = s.remove(k);
        assert forall|i: int| 0 <= i < t.len() implies 0 <= #[trigger] t[i] < n - 1 by {
            let j = if i < k {
                i
            } else {
                i + 1
            };
            assert(t[i] == s[j]);
            assert(s[j] != s[k]);
        }
        assert(t.no_duplicates());
        distinct_bounded(t, n - 1);
    } else {
        assert forall|i: int| 0 <= i < s.len() implies 0 <= #[trigger] s[i] < n - 1 by {
            if s[i] == n - 1 {
                assert(s.contains(n - 1));
            }
        }
        distinct_bounded(s, n - 1);
    }
}

/// A permutation reaches every position.
pub proof fn permutation_is_onto(p: Seq<int>, n: int, i: int)
    requires
        permutes(p, n),
        0 <= i < n,
    ensures
        p.contains(i),
{
    if !p.contains(i) {
        let more = p.push(i);
        assert forall|k: int| 0 <= k < more.len() implies 0 <= #[trigger] more[k] < n by {
            if k < p.len() {
                assert(more[k] == p[k]);
            }
        }
        assert forall|a: int, b: int|
            0 <= a < more.len() && 0 <= b < more.len() && a != b implies more[a] != more[b] by {
            if a < p.len() {
                assert(p.contains(p[a]));
            }
            if b < p.len() {
                assert(p.contains(p[b]));
            }
            if a < b && b < p.len() {
                assert(p[a] != p[b]);
            } else if b < a && a < p.len() {
                assert(p[b] != p[a]);
            }
        }
        distinct_bounded(more, n);
    }
}

/// The positions of `keys`, sorted.
pub fn sorted_positions(keys: &Vec<usize>) -> (r: Vec<usize>)
    ensures
        indices(r@) == order_by(indices(keys@)),
        permutes(indices(r@), keys@.len() as int),
{
    let ghost k = indices(keys@);
    let mut out: Vec<usize> = Vec::new();
    let mut i: usize = 0;
    assert(indices(out@) =~= Seq::empty());
    while i < keys.len()
        invariant
            i <= keys@.len(),
            k == indices(keys@),
            indices(out@) == order_upto(k, i as int),
            permutes(indices(out@), i as int),
        decreases keys@.len() - i,
    {
        let ghost p = indices(out@);
        let mut at: usize = 0;
        assert(p.subrange(0, p.len() as int) =~= p);
        assert forall|j: int| 0 <= j < out@.len() implies #[trigger] out@[j] < i by {
            assert(p[j] == out@[j]);
        }
        while at < out.len() && keys[out[at]] <= keys[i]
            invariant
                i < keys@.len(),
                at <= out@.len(),
                k == indices(keys@),
                p == indices(out@),
                permutes(p, i as int),
                place(k, p, k[i as int]) == at + place(
                    k,
                    p.subrange(at as int, p.len() as int),
                    k[i as int],
                ),
                forall|j: int| 0 <= j < out@.len() ==> #[trigger] out@[j] < i,
            decreases out@.len() - at,
        {
            assert(p[at as int] == out@[at as int]);
            assert(p.subrange(at as int, p.len() as int).drop_first() =~= p.subrange(
                at + 1,
                p.len() as int,
            ));
            at = at + 1;
        }
        proof {
            if at < out.len() {
                assert(p[at as int] == out@[at as int]);
            }
            order_upto_sorts(k, i + 1);
        }
        out.insert(at, i);
        assert(indices(out@) =~= p.insert(at as int, i as int));
        i = i + 1;
    }
    out
}

// ---------------------------------------------------------------------------
// Texts
// ---------------------------------------------------------------------------

/// The first place in `p` whose text comes after `k`.
pub open spec fn text_place(keys: Seq<Seq<char>>, p: Seq<int>, k: Seq<char>) -> int
    decreases p.len(),
{
    if p.len() == 0 || text_lt(k, keys[p[0]]) {
        0
    } else {
        1 + text_place(keys, p.drop_first(), k)
    }
}

/// The first `n` positions, sorted by their texts; equal texts keep their
/// order.
pub open spec fn text_order_upto(keys: Seq<Seq<char>>, n: int) -> Seq<int>
    decreases n,
{
    if n <= 0 {
        Seq::empty()
    } else {
        let p = text_order_upto(keys, n - 1);
        p.insert(text_place(keys, p, keys[n - 1]), n - 1)
    }
}

/// All positions, sorted by their texts; equal texts keep their order.
pub open spec fn text_order(keys: Seq<Seq<char>>) -> Seq<int> {
    text_order_upto(keys, keys.len() as int)
}

/// Whether `p` is sorted by text, and by position where texts are equal.
pub open spec fn in_text_order(keys: Seq<Seq<char>>, p: Seq<int>) -> bool {
    forall|i: int, j: int|
        0 <= i < j < p.len() ==> text_lt(keys[#[trigger] p[i]], keys[#[trigger] p[j]]) || keys[p[i]]
            == keys[p[j]] && p[i] < p[j]
}

proof fn text_place_splits(keys: Seq<Seq<char>>, p: Seq<int>, k: Seq<char>)
    requires
        in_text_order(keys, p),
    ensures
        0 <= text_place(keys, p, k) <= p.len(),
        forall|i: int|
            0 <= i < text_place(keys, p, k) ==> text_lt(keys[#[trigger] p[i]], k) || keys[p[i]]
                == k,
        forall|i: int| text_place(keys, p, k) <= i < p.len() ==> text_lt(k, keys[#[trigger] p[i]]),
    decreases p.len(),
{
    if p.len() > 0 && !text_lt(k, keys[p[0]]) {
        let rest = p.drop_first();
        assert forall|i: int, j: int| 0 <= i < j < rest.len() implies text_lt(
            keys[#[trigger] rest[i]],
            keys[#[trigger] rest[j]],
        ) || keys[rest[i]] == keys[rest[j]] && rest[i] < rest[j] by {
            assert(rest[i] == p[i + 1] && rest[j] == p[j + 1]);
        }
        text_place_splits(keys, rest, k);
        let m = text_place(keys, rest, k);
        assert forall|i: int| 0 <= i < 1 + m implies text_lt(keys[#[trigger] p[i]], k) || keys[p[i]]
            == k by {
            if i > 0 {
                assert(p[i] == rest[i - 1]);
            } else {
                text_lt_total(k, keys[p[0]]);
            }
        }
        assert forall|i: int| 1 + m <= i < p.len() implies text_lt(k, keys[#[trigger] p[i]]) by {
            assert(p[i] == rest[i - 1]);
        }
    } else if p.len() > 0 {
        assert forall|i: int| 0 <= i < p.len() implies text_lt(k, keys[#[trigger] p[i]]) by {
            if i > 0 {
                assert(text_lt(keys[p[0]], keys[p[i]]) || keys[p[0]] == keys[p[i]]);
                if text_lt(keys[p[0]], keys[p[i]]) {
                    text_lt_transitive(k, keys[p[0]], keys[p[i]]);
                }
            }
        }
    }
}

proof fn text_order_upto_sorts(keys: Seq<Seq<char>>, n: int)
    requires
        0 <= n <= keys.len(),
    ensures
        permutes(text_order_upto(keys, n), n),
        in_text_order(keys, text_order_upto(keys, n)),
    decreases n,
{
    if n > 0 {
        text_order_upto_sorts(keys, n - 1);
        let p = text_order_upto(keys, n - 1);
        let k = keys[n - 1];
        text_place_splits(keys, p, k);
        let m = text_place(keys, p, k);
        let q = p.insert(m, n - 1);
        assert(q == text_order_upto(keys, n));
        assert forall|i: int| 0 <= i < q.len() implies 0 <= #[trigger] q[i] < n by {
            if i < m {
                assert(q[i] == p[i]);
            } else if i > m {
                assert(q[i] == p[i - 1]);
            }
        }
        assert forall|i: int, j: int| 0 <= i < j < q.len() implies #[trigger] q[i]
            != #[trigger] q[j] && (text_lt(keys[q[i]], keys[q[j]]) || keys[q[i]] == keys[q[j]]
            && q[i] < q[j]) by {
            if i < m {
                assert(q[i] == p[i]);
            } else if i > m {
                assert(q[i] == p[i - 1]);
            }
            if j < m {
                assert(q[j] == p[j]);
            } else if j > m {
                assert(q[j] == p[j - 1]);
            }
        }
    }
}

/// Sorting names every position once, in ascending order of the texts, and
/// keeps the order of equal texts.
pub proof fn text_order_sorts(keys: Seq<Seq<char>>)
    ensures
        permutes(text_order(keys), keys.len() as int),
        in_text_order(keys, text_order(keys)),
{
    text_order_upto_sorts(keys, keys.len() as int);
}

/// The texts of a list of strings.
pub open spec fn texts(v: Seq<String>) -> Seq<Seq<char>> {
    Seq::new(v.len(), |i: int| v[i]@)
}

/// The texts of a list of string slices.
pub open spec fn str_texts(v: Seq<&str>) -> Seq<Seq<char>> {
    Seq::new(v.len(), |i: int| v[i]@)
}

/// The positions of `keys`, sorted.
pub fn sorted_text_positions(keys: &Vec<&str>) -> (r: Vec<usize>)
    ensures
        indices(r@) == text_order(str_texts(keys@)),
        permutes(indices(r@), keys@.len() as int),
{
    let ghost k = str_texts(keys@);
    let mut out: Vec<usize> = Vec::new();
    let mut i: usize = 0;
    assert(indices(out@) =~= Seq::empty());
    while i < keys.len()
        invariant
            i <= keys@.len(),
            k == str_texts(keys@),
            indices(out@) == text_order_upto(k, i as int),
            permutes(indices(out@), i as int),
        decreases keys@.len() - i,
    {
        let ghost p = indices(out@);
        let mut at: usize = 0;
        assert(p.subrange(0, p.len() as int) =~= p);
        assert forall|j: int| 0 <= j < out@.len() implies #[trigger] out@[j] < i by {
            assert(p[j] == out@[j]);
        }
        while at < out.len() && !text_before(keys[i], keys[out[at]])
            invariant
                i < keys@.len(),
                at <= out@.len(),
                k == str_texts(keys@),
                p == indices(out@),
                text_place(k, p, k[i as int]) == at + text_place(
                    k,
                    p.subrange(at as int, p.len() as int),
                    k[i as int],
                ),
                forall|j: int| 0 <= j < out@.len() ==> #[trigger] out@[j] < i,
            decreases out@.len() - at,
        {
            assert(p[at as int] == out@[at as int]);
            assert(p.subrange(at as int, p.len() as int).drop_first() =~= p.subrange(
                at + 1,
                p.len() as int,
            ));
            at = at + 1;
        }
        proof {
            if at < out.len() {
                assert(p[at as int] == out@[at as int]);
            }
            text_order_upto_sorts(k, i + 1);
        }
        out.insert(at, i);
        assert(indices(out@) =~= p.insert(at as int, i as int));
        i = i + 1;
    }
    out
}

} // verus!
