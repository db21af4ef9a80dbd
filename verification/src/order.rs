//! Stable ordering of records by composite keys.
//!
//! A key is two integers followed by a text; keys compare lexicographically.
//! Sorting is stable: records with equal keys keep their input order. The
//! result of a stable sort is therefore the unique arrangement in which the
//! pairs (key, input position) strictly increase.

use vstd::prelude::*;
use crate::text::{chars_less, lemma_seq_lt_irreflexive, lemma_seq_lt_total, lemma_seq_lt_transitive, seq_lt};

verus! {

/// A composite sort key: `major`, then `minor`, then `text`.
pub struct SortKey {
    pub major: i128,
    pub minor: i128,
    pub text: Vec<char>,
}

/// The mathematical value of a sort key.
pub type KeyView = (int, int, Seq<char>);

impl View for SortKey {
    type V = KeyView;

    open spec fn view(&self) -> KeyView {
        (self.major as int, self.minor as int, self.text@)
    }
}

/// `a` sorts strictly before `b`.
pub open spec fn key_less(a: KeyView, b: KeyView) -> bool {
    ||| a.0 < b.0
    ||| a.0 == b.0 && a.1 < b.1
    ||| a.0 == b.0 && a.1 == b.1 && seq_lt(a.2, b.2)
}

/// The record at input position `i` is placed before the one at position `j`.
pub open spec fn placed_before(keys: Seq<KeyView>, i: int, j: int) -> bool {
    key_less(keys[i], keys[j]) || (keys[i] == keys[j] && i < j)
}

/// Position `k` occurs in `perm`.
pub open spec fn lists(perm: Seq<int>, k: int) -> bool {
    exists|i: int| 0 <= i < perm.len() && #[trigger] perm[i] == k
}

/// Position `k` is the tag of some entry of `out`.
pub open spec fn tags<T>(out: Seq<(usize, T)>, k: int) -> bool {
    exists|j: int| 0 <= j < out.len() && (#[trigger] out[j]).0 == k
}

/// `perm` lists every input position exactly once, in stable sorted order.
pub open spec fn is_stable_order(keys: Seq<KeyView>, perm: Seq<int>) -> bool {
    &&& perm.len() == keys.len()
    &&& forall|i: int| 0 <= i < perm.len() ==> 0 <= #[trigger] perm[i] < keys.len()
    &&& forall|k: int| 0 <= k < keys.len() ==> #[trigger] lists(perm, k)
    &&& forall|i: int, j: int| 0 <= i < j < perm.len() ==> placed_before(keys, #[trigger] perm[i], #[trigger] perm[j])
}

/// The records of `items` taken in the order given by `perm`.
pub open spec fn arrange<T>(items: Seq<T>, perm: Seq<int>) -> Seq<T> {
    perm.map_values(|p: int| items[p])
}

/// `result` is `items` stably sorted by `keys`.
pub open spec fn stably_sorted<T>(items: Seq<T>, keys: Seq<KeyView>, result: Seq<T>) -> bool {
    exists|perm: Seq<int>| is_stable_order(keys, perm) && result == arrange(items, perm)
}

/// The values of a vector of sort keys.
pub open spec fn key_views(keys: Seq<SortKey>) -> Seq<KeyView> {
    keys.map_values(|k: SortKey| k@)
}

pub proof fn lemma_key_less_irreflexive(a: KeyView)
    ensures
        !key_less(a, a),
{
    lemma_seq_lt_irreflexive(a.2);
}

pub proof fn lemma_key_less_transitive(a: KeyView, b: KeyView, c: KeyView)
    requires
        key_less(a, b),
        key_less(b, c),
    ensures
        key_less(a, c),
{
    if a.0 == b.0 && b.0 == c.0 && a.1 == b.1 && b.1 == c.1 {
        lemma_seq_lt_transitive(a.2, b.2, c.2);
    }
}

pub proof fn lemma_key_less_total(a: KeyView, b: KeyView)
    ensures
        key_less(a, b) || key_less(b, a) || a == b,
{
    lemma_seq_lt_total(a.2, b.2);
}

pub proof fn lemma_placed_before_transitive(keys: Seq<KeyView>, a: int, b: int, c: int)
    requires
        placed_before(keys, a, b),
        placed_before(keys, b, c),
    ensures
        placed_before(keys, a, c),
{
    if key_less(keys[a], keys[b]) && key_less(keys[b], keys[c]) {
        lemma_key_less_transitive(keys[a], keys[b], keys[c]);
    }
}

pub proof fn lemma_placed_before_total(keys: Seq<KeyView>, a: int, b: int)
    requires
        a != b,
    ensures
        placed_before(keys, a, b) || placed_before(keys, b, a),
{
    lemma_key_less_total(keys[a], keys[b]);
}

pub proof fn lemma_placed_before_irreflexive(keys: Seq<KeyView>, a: int)
    ensures
        !placed_before(keys, a, a),
{
    lemma_key_less_irreflexive(keys[a]);
}

proof fn lemma_stable_order_prefix(keys: Seq<KeyView>, p1: Seq<int>, p2: Seq<int>, i: int)
    requires
        is_stable_order(keys, p1),
        is_stable_order(keys, p2),
        0 <= i <= p1.len(),
    ensures
        forall|j: int| 0 <= j < i ==> p1[j] == p2[j],
    decreases i,
{
    if i > 0 {
        lemma_stable_order_prefix(keys, p1, p2, i - 1);
        let k = i - 1;
        let a = p1[k];
        let b = p2[k];
        if a != b {
            assert(0 <= b < keys.len());
            assert(lists(p1, b));
            let j = choose|j: int| 0 <= j < p1.len() && #[trigger] p1[j] == b;
            if j < k {
                assert(p2[j] == b);
                assert(placed_before(keys, p2[j], p2[k]));
                lemma_placed_before_irreflexive(keys, b);
            }
            assert(j > k);
            assert(placed_before(keys, p1[k], p1[j]));
            assert(0 <= a < keys.len());
            assert(lists(p2, a));
            let m = choose|m: int| 0 <= m < p2.len() && #[trigger] p2[m] == a;
            if m < k {
                assert(p1[m] == a);
                assert(placed_before(keys, p1[m], p1[k]));
                lemma_placed_before_irreflexive(keys, a);
            }
            assert(m > k);
            assert(placed_before(keys, p2[k], p2[m]));
            lemma_placed_before_transitive(keys, a, b, a);
            lemma_placed_before_irreflexive(keys, a);
        }
    }
}

/// A stable order is unique: two stable orders of the same keys are equal.
pub proof fn lemma_stable_order_unique(keys: Seq<KeyView>, p1: Seq<int>, p2: Seq<int>)
    requires
        is_stable_order(keys, p1),
        is_stable_order(keys, p2),
    ensures
        p1 == p2,
{
    lemma_stable_order_prefix(keys, p1, p2, p1.len() as int);
    assert(p1 =~= p2);
}

/// `perm` lists the positions `0..m` exactly once each, in stable sorted
/// order.
pub open spec fn sorted_listing(keys: Seq<KeyView>, perm: Seq<int>, m: int) -> bool {
    &&& perm.len() == m
    &&& forall|i: int| 0 <= i < perm.len() ==> 0 <= #[trigger] perm[i] < m
    &&& forall|k: int| 0 <= k < m ==> #[trigger] lists(perm, k)
    &&& forall|i: int, j: int| 0 <= i < j < perm.len() ==> placed_before(keys, #[trigger] perm[i], #[trigger] perm[j])
}

/// How many leading entries of `perm` are placed before position `x`.
pub open spec fn insertion_point(keys: Seq<KeyView>, perm: Seq<int>, x: int) -> int
    decreases perm.len(),
{
    if perm.len() == 0 {
        0
    } else if placed_before(keys, perm.last(), x) {
        perm.len() as int
    } else {
        insertion_point(keys, perm.drop_last(), x)
    }
}

proof fn lemma_insertion_point(keys: Seq<KeyView>, perm: Seq<int>, x: int)
    requires
        forall|i: int, j: int| 0 <= i < j < perm.len() ==> placed_before(keys, #[trigger] perm[i], #[trigger] perm[j]),
        forall|i: int| 0 <= i < perm.len() ==> #[trigger] perm[i] != x,
    ensures
        0 <= insertion_point(keys, perm, x) <= perm.len(),
        forall|i: int| 0 <= i < insertion_point(keys, perm, x) ==> placed_before(keys, #[trigger] perm[i], x),
        forall|i: int| insertion_point(keys, perm, x) <= i < perm.len() ==> placed_before(keys, x, #[trigger] perm[i]),
    decreases perm.len(),
{
    if perm.len() > 0 {
        let q = insertion_point(keys, perm, x);
        let last = perm.len() - 1;
        if placed_before(keys, perm.last(), x) {
            assert forall|i: int| 0 <= i < q implies placed_before(keys, #[trigger] perm[i], x) by {
                if i < last {
                    lemma_placed_before_transitive(keys, perm[i], perm[last], x);
                }
            }
        } else {
            let rest = perm.drop_last();
            lemma_insertion_point(keys, rest, x);
            lemma_placed_before_total(keys, perm[last], x);
            assert forall|i: int| 0 <= i < q implies placed_before(keys, #[trigger] perm[i], x) by {
                assert(perm[i] == rest[i]);
            }
            assert forall|i: int| q <= i < perm.len() implies placed_before(keys, x, #[trigger] perm[i]) by {
                if i < last {
                    assert(perm[i] == rest[i]);
                }
            }
        }
    }
}

proof fn lemma_sorted_listing_exists(keys: Seq<KeyView>, m: int)
    requires
        0 <= m <= keys.len(),
    ensures
        exists|perm: Seq<int>| sorted_listing(keys, perm, m),
    decreases m,
{
    if m == 0 {
        assert(sorted_listing(keys, Seq::<int>::empty(), 0));
    } else {
        let mp = m - 1;
        lemma_sorted_listing_exists(keys, mp);
        let prev = choose|perm: Seq<int>| #[trigger] sorted_listing(keys, perm, mp);
        let x = m - 1;
        assert forall|i: int| 0 <= i < prev.len() implies #[trigger] prev[i] != x by {}
        lemma_insertion_point(keys, prev, x);
        let q = insertion_point(keys, prev, x);
        let next = prev.insert(q, x);
        assert forall|i: int| 0 <= i < next.len() implies 0 <= #[trigger] next[i] < m by {
            if i < q {
                assert(next[i] == prev[i]);
            } else if i > q {
                assert(next[i] == prev[i - 1]);
            }
        }
        assert forall|k: int| 0 <= k < m implies #[trigger] lists(next, k) by {
            if k == x {
                assert(next[q] == x);
            } else {
                assert(lists(prev, k));
                let j = choose|j: int| 0 <= j < prev.len() && #[trigger] prev[j] == k;
                if j < q {
                    assert(next[j] == k);
                } else {
                    assert(next[j + 1] == k);
                }
            }
        }
        assert forall|i: int, j: int| 0 <= i < j < next.len() implies placed_before(
            keys,
            #[trigger] next[i],
            #[trigger] next[j],
        ) by {
            if j < q {
                assert(next[i] == prev[i] && next[j] == prev[j]);
            } else if j == q {
                assert(next[i] == prev[i]);
            } else if i == q {
                assert(next[j] == prev[j - 1]);
            } else if i < q {
                assert(next[i] == prev[i] && next[j] == prev[j - 1]);
            } else {
                assert(next[i] == prev[i - 1] && next[j] == prev[j - 1]);
            }
        }
        assert(sorted_listing(keys, next, m));
    }
}

/// A stable order lists no position twice.
pub proof fn lemma_stable_order_distinct(keys: Seq<KeyView>, perm: Seq<int>)
    requires
        is_stable_order(keys, perm),
    ensures
        forall|i: int, j: int| 0 <= i < j < perm.len() ==> #[trigger] perm[i] != #[trigger] perm[j],
{
    assert forall|i: int, j: int| 0 <= i < j < perm.len() implies #[trigger] perm[i] != #[trigger] perm[j] by {
        assert(placed_before(keys, perm[i], perm[j]));
        lemma_placed_before_irreflexive(keys, perm[i]);
    }
}

/// Every sequence of keys has a stable order.
pub proof fn lemma_stable_order_exists(keys: Seq<KeyView>)
    ensures
        is_stable_order(keys, sorted_positions(keys)),
{
    let n = keys.len() as int;
    lemma_sorted_listing_exists(keys, n);
    let perm = choose|perm: Seq<int>| #[trigger] sorted_listing(keys, perm, n);
    assert(is_stable_order(keys, perm));
}

/// The stable order of `keys`: input positions in sorted order.
pub open spec fn sorted_positions(keys: Seq<KeyView>) -> Seq<int> {
    choose|perm: Seq<int>| is_stable_order(keys, perm)
}

/// A stably sorted sequence ascends by key: no record has a strictly
/// smaller key than one before it; it has as many records as the input,
/// each taken from the input, and every input record occurs in it.
pub proof fn lemma_stably_sorted_ascends<T>(
    items: Seq<T>,
    keys: Seq<KeyView>,
    result: Seq<T>,
    key_of: spec_fn(T) -> KeyView,
)
    requires
        stably_sorted(items, keys, result),
        keys.len() == items.len(),
        forall|i: int| 0 <= i < items.len() ==> #[trigger] keys[i] == key_of(items[i]),
    ensures
        result.len() == items.len(),
        forall|i: int, j: int|
            0 <= i < j < result.len() ==> !key_less(key_of(#[trigger] result[j]), key_of(#[trigger] result[i])),
        forall|i: int| 0 <= i < result.len() ==> items.contains(#[trigger] result[i]),
        forall|k: int| 0 <= k < items.len() ==> result.contains(#[trigger] items[k]),
{
    let perm = choose|perm: Seq<int>| is_stable_order(keys, perm) && result == arrange(items, perm);
    assert forall|k: int| 0 <= k < items.len() implies result.contains(#[trigger] items[k]) by {
        assert(lists(perm, k));
        let i = choose|i: int| 0 <= i < perm.len() && #[trigger] perm[i] == k;
        assert(result[i] == items[k]);
    }
    assert forall|i: int, j: int| 0 <= i < j < result.len() implies !key_less(
        key_of(#[trigger] result[j]),
        key_of(#[trigger] result[i]),
    ) by {
        let a = perm[i];
        let b = perm[j];
        assert(result[i] == items[a]);
        assert(result[j] == items[b]);
        assert(placed_before(keys, a, b));
        if key_less(keys[b], keys[a]) {
            if key_less(keys[a], keys[b]) {
                lemma_key_less_transitive(keys[a], keys[b], keys[a]);
            }
            lemma_key_less_irreflexive(keys[a]);
        }
    }
    assert forall|i: int| 0 <= i < result.len() implies items.contains(#[trigger] result[i]) by {
        assert(result[i] == items[perm[i]]);
    }
}

/// Whether key `a` sorts strictly before key `b`.
pub fn sort_key_less(a: &SortKey, b: &SortKey) -> (r: bool)
    ensures
        r == key_less(a@, b@),
{
    if a.major != b.major {
        a.major < b.major
    } else if a.minor != b.minor {
        a.minor < b.minor
    } else {
        chars_less(&a.text, &b.text)
    }
}

/// Stably sorts `items` by `keys` (key `i` belongs to item `i`).
pub fn stable_sort_by_keys<T>(items: Vec<T>, keys: &Vec<SortKey>) -> (r: (Vec<T>, Ghost<Seq<int>>))
    requires
        items@.len() == keys@.len(),
    ensures
        is_stable_order(key_views(keys@), r.1@),
        r.1@ == sorted_positions(key_views(keys@)),
        r.0@ == arrange(items@, r.1@),
        stably_sorted(items@, key_views(keys@), r.0@),
{
    let n = items.len();
    let ghost ks = key_views(keys@);
    let ghost original = items@;
    let mut rest = items;
    let mut out: Vec<(usize, T)> = Vec::new();
    let mut i: usize = 0;
    while i < n
        invariant
            n == original.len(),
            n == keys@.len(),
            ks == key_views(keys@),
            i <= n,
            rest@ == original.skip(i as int),
            out@.len() == i,
            forall|j: int| 0 <= j < i ==> (#[trigger] out@[j]).0 < i,
            forall|j: int| 0 <= j < i ==> (#[trigger] out@[j]).1 == original[out@[j].0 as int],
            forall|k: int| 0 <= k < i ==> #[trigger] tags(out@, k),
            forall|a: int, b: int|
                0 <= a < b < i ==> placed_before(ks, (#[trigger] out@[a]).0 as int, (#[trigger] out@[b]).0 as int),
        decreases n - i,
    {
        assert(rest@.len() > 0);
        let item = rest.remove(0);
        assert(rest@ =~= original.skip(i + 1));
        assert(item == original[i as int]);
        let mut p: usize = out.len();
        while p > 0 && sort_key_less(&keys[i], &keys[out[p - 1].0])
            invariant
                p <= out@.len(),
                out@.len() == i,
                i < n,
                n == keys@.len(),
                ks == key_views(keys@),
                forall|j: int| 0 <= j < i ==> (#[trigger] out@[j]).0 < i,
                forall|q: int| p <= q < out@.len() ==> placed_before(ks, i as int, (#[trigger] out@[q]).0 as int),
            decreases p,
        {
            assert(ks[i as int] == keys@[i as int]@);
            assert(ks[out@[p - 1].0 as int] == keys@[out@[p - 1].0 as int]@);
            p = p - 1;
        }
        proof {
            if p > 0 {
                let prev = out@[p - 1].0 as int;
                assert(ks[i as int] == keys@[i as int]@);
                assert(ks[prev] == keys@[prev]@);
                assert(!key_less(ks[i as int], ks[prev]));
                lemma_placed_before_total(ks, prev, i as int);
                assert(placed_before(ks, prev, i as int));
            }
        }
        let ghost old_out = out@;
        out.insert(p, (i, item));
        proof {
            assert forall|j: int| 0 <= j < i + 1 implies (#[trigger] out@[j]).0 < i + 1 by {
                if j < p {
                    assert(out@[j] == old_out[j]);
                } else if j > p {
                    assert(out@[j] == old_out[j - 1]);
                }
            }
            assert forall|j: int| 0 <= j < i + 1 implies (#[trigger] out@[j]).1 == original[out@[j].0 as int] by {
                if j < p {
                    assert(out@[j] == old_out[j]);
                } else if j > p {
                    assert(out@[j] == old_out[j - 1]);
                }
            }
            assert forall|k: int| 0 <= k < i + 1 implies #[trigger] tags(out@, k) by {
                if k == i {
                    assert(out@[p as int].0 == k);
                } else {
                    assert(tags(old_out, k));
                    let j0 = choose|j: int| 0 <= j < old_out.len() && (#[trigger] old_out[j]).0 == k;
                    if j0 < p {
                        assert(out@[j0] == old_out[j0]);
                    } else {
                        assert(out@[j0 + 1] == old_out[j0]);
                    }
                }
            }
            assert forall|a: int, b: int| 0 <= a < b < i + 1 implies placed_before(
                ks,
                (#[trigger] out@[a]).0 as int,
                (#[trigger] out@[b]).0 as int,
            ) by {
                if b < p {
                    assert(out@[a] == old_out[a]);
                    assert(out@[b] == old_out[b]);
                } else if b == p {
                    assert(out@[a] == old_out[a]);
                    let prev = old_out[p - 1].0 as int;
                    if a < p - 1 {
                        assert(placed_before(ks, old_out[a].0 as int, old_out[p - 1].0 as int));
                        lemma_placed_before_transitive(ks, old_out[a].0 as int, prev, i as int);
                    }
                } else if a == p {
                    assert(out@[b] == old_out[b - 1]);
                } else if a < p {
                    assert(out@[a] == old_out[a]);
                    assert(out@[b] == old_out[b - 1]);
                } else {
                    assert(out@[a] == old_out[a - 1]);
                    assert(out@[b] == old_out[b - 1]);
                }
            }
        }
        i = i + 1;
    }
    let ghost perm: Seq<int> = out@.map_values(|e: (usize, T)| e.0 as int);
    let ghost sorted_out = out@;
    let mut result: Vec<T> = Vec::new();
    let mut k: usize = 0;
    while k < n
        invariant
            n == sorted_out.len(),
            k <= n,
            out@ == sorted_out.skip(k as int),
            result@.len() == k,
            forall|j: int| 0 <= j < k ==> #[trigger] result@[j] == sorted_out[j].1,
        decreases n - k,
    {
        assert(out@.len() > 0);
        let (_idx, item) = out.remove(0);
        assert(out@ =~= sorted_out.skip(k + 1));
        result.push(item);
        k = k + 1;
    }
    proof {
        assert(perm.len() == n);
        assert forall|j: int| 0 <= j < n implies 0 <= #[trigger] perm[j] < n by {
            assert(perm[j] == sorted_out[j].0 as int);
        }
        assert forall|kk: int| 0 <= kk < n implies #[trigger] lists(perm, kk) by {
            assert(tags(sorted_out, kk));
            let j0 = choose|j: int| 0 <= j < sorted_out.len() && (#[trigger] sorted_out[j]).0 == kk;
            assert(perm[j0] == kk);
        }
        assert forall|a: int, b: int| 0 <= a < b < perm.len() implies placed_before(ks, #[trigger] perm[a], #[trigger] perm[b]) by {
            assert(perm[a] == sorted_out[a].0 as int);
            assert(perm[b] == sorted_out[b].0 as int);
        }
        assert(result@ =~= arrange(original, perm)) by {
            assert forall|j: int| 0 <= j < n implies #[trigger] result@[j] == arrange(original, perm)[j] by {
                assert(perm[j] == sorted_out[j].0 as int);
            }
        }
    }
    proof {
        assert(is_stable_order(ks, perm));
        let chosen = sorted_positions(ks);
        assert(is_stable_order(ks, chosen));
        lemma_stable_order_unique(ks, perm, chosen);
    }
    (result, Ghost(perm))
}

} // verus!
