//! Stable ranking: ordering the indices of a sequence of keys by key, equal
//! keys by index.

use vstd::prelude::*;

verus! {

/// Strict lexicographic order on keys: the first component decides, the
/// second breaks ties.
pub open spec fn key_before(a: (int, int), b: (int, int)) -> bool {
    a.0 < b.0 || (a.0 == b.0 && a.1 < b.1)
}

/// Index `i` ranks strictly before index `j`: its key is smaller, or the keys
/// are equal and `i` comes first.
pub open spec fn ranks_before(keys: Seq<(int, int)>, i: int, j: int) -> bool {
    key_before(keys[i], keys[j]) || (keys[i] == keys[j] && i < j)
}

/// Every earlier element of `order` ranks strictly before every later one.
pub open spec fn is_ranked(keys: Seq<(int, int)>, order: Seq<int>) -> bool {
    forall|a: int, b: int|
        0 <= a < b < order.len() ==> ranks_before(keys, #[trigger] order[a], #[trigger] order[b])
}

/// `order` lists each index of `lo..hi` once, ranked.
pub open spec fn is_ranking(keys: Seq<(int, int)>, order: Seq<int>, lo: int, hi: int) -> bool {
    &&& order.len() == hi - lo
    &&& forall|k: int| 0 <= k < order.len() ==> lo <= #[trigger] order[k] < hi
    &&& forall|v: int| lo <= v < hi ==> #[trigger] order.contains(v)
    &&& is_ranked(keys, order)
}

/// `order` with `i` put behind every index that does not rank after it.
pub open spec fn place(keys: Seq<(int, int)>, order: Seq<int>, i: int) -> Seq<int>
    decreases order.len(),
{
    if order.len() == 0 || !ranks_before(keys, i, order.last()) {
        order.push(i)
    } else {
        place(keys, order.drop_last(), i).push(order.last())
    }
}

/// The ranking of the first `n` indices of `keys`: each index in turn is
/// placed among those before it.
pub open spec fn ranking(keys: Seq<(int, int)>, n: nat) -> Seq<int>
    decreases n,
{
    if n == 0 {
        Seq::empty()
    } else {
        place(keys, ranking(keys, (n - 1) as nat), n - 1)
    }
}

/// The keys of a vector of pairs as mathematical keys.
pub open spec fn key_values(keys: Seq<(usize, usize)>) -> Seq<(int, int)> {
    keys.map_values(|k: (usize, usize)| (k.0 as int, k.1 as int))
}

/// A vector of indices as mathematical indices.
pub open spec fn indices(order: Seq<usize>) -> Seq<int> {
    order.map_values(|i: usize| i as int)
}

/// Ranking before is transitive.
pub proof fn lemma_ranks_before_transitive(keys: Seq<(int, int)>, i: int, j: int, k: int)
    requires
        ranks_before(keys, i, j),
        ranks_before(keys, j, k),
    ensures
        ranks_before(keys, i, k),
{
}

/// Of two different indices one ranks before the other, never both.
pub proof fn lemma_ranks_before_total(keys: Seq<(int, int)>, i: int, j: int)
    ensures
        i != j ==> (ranks_before(keys, i, j) <==> !ranks_before(keys, j, i)),
        !ranks_before(keys, i, i),
{
}

proof fn lemma_place(keys: Seq<(int, int)>, order: Seq<int>, i: int)
    requires
        is_ranked(keys, order),
        !order.contains(i),
    ensures
        is_ranked(keys, place(keys, order, i)),
        place(keys, order, i).len() == order.len() + 1,
        forall|v: int| #[trigger]
            place(keys, order, i).contains(v) <==> (order.contains(v) || v == i),
    decreases order.len(),
{
    let placed = place(keys, order, i);
    if order.len() == 0 || !ranks_before(keys, i, order.last()) {
        assert forall|a: int, b: int| 0 <= a < b < placed.len() implies ranks_before(
            keys,
            #[trigger] placed[a],
            #[trigger] placed[b],
        ) by {
            if b == order.len() {
                assert(order.contains(order[a]));
                assert(order.contains(order.last()));
                lemma_ranks_before_total(keys, i, order.last());
                if a < order.len() - 1 {
                    assert(ranks_before(keys, order[a], order[order.len() - 1]));
                    lemma_ranks_before_transitive(keys, order[a], order.last(), i);
                }
            } else {
                assert(ranks_before(keys, order[a], order[b]));
            }
        }
        assert forall|v: int| #[trigger] placed.contains(v) <==> (order.contains(v) || v == i) by {
            if order.contains(v) {
                let k = choose|k: int| 0 <= k < order.len() && order[k] == v;
                assert(placed[k] == v);
            }
            if v == i {
                assert(placed[order.len() as int] == v);
            }
        }
    } else {
        let front = order.drop_last();
        let last = order.last();
        assert(order =~= front.push(last));
        assert forall|a: int, b: int| 0 <= a < b < front.len() implies ranks_before(
            keys,
            #[trigger] front[a],
            #[trigger] front[b],
        ) by {
            assert(ranks_before(keys, order[a], order[b]));
        }
        assert(!front.contains(i)) by {
            if front.contains(i) {
                let k = choose|k: int| 0 <= k < front.len() && front[k] == i;
                assert(order[k] == i);
            }
        }
        lemma_place(keys, front, i);
        let inner = place(keys, front, i);
        assert(placed == inner.push(last));
        assert forall|a: int, b: int| 0 <= a < b < placed.len() implies ranks_before(
            keys,
            #[trigger] placed[a],
            #[trigger] placed[b],
        ) by {
            if b == inner.len() {
                assert(inner.contains(inner[a]));
                if inner[a] != i {
                    let k = choose|k: int| 0 <= k < front.len() && front[k] == inner[a];
                    assert(ranks_before(keys, order[k], order[order.len() - 1]));
                }
            } else {
                assert(ranks_before(keys, inner[a], inner[b]));
            }
        }
        assert forall|v: int| #[trigger] placed.contains(v) <==> (order.contains(v) || v == i) by {
            if placed.contains(v) {
                let k = choose|k: int| 0 <= k < placed.len() && placed[k] == v;
                if k < inner.len() {
                    assert(inner.contains(inner[k]));
                    if v != i {
                        let m = choose|m: int| 0 <= m < front.len() && front[m] == v;
                        assert(order[m] == v);
                    }
                } else {
                    assert(order[order.len() - 1] == v);
                }
            }
            if order.contains(v) {
                let k = choose|k: int| 0 <= k < order.len() && order[k] == v;
                if k < front.len() {
                    assert(front[k] == v);
                    assert(front.contains(v));
                    assert(inner.contains(v));
                    let m = choose|m: int| 0 <= m < inner.len() && inner[m] == v;
                    assert(placed[m] == v);
                } else {
                    assert(placed[inner.len() as int] == v);
                }
            }
            if v == i {
                assert(inner.contains(i));
                let m = choose|m: int| 0 <= m < inner.len() && inner[m] == v;
                assert(placed[m] == v);
            }
        }
    }
}

/// `ranking` lists each of the first `n` indices once, ranked.
pub proof fn lemma_ranking_is_ranking(keys: Seq<(int, int)>, n: nat)
    ensures
        is_ranking(keys, ranking(keys, n), 0, n as int),
    decreases n,
{
    if n > 0 {
        let before = ranking(keys, (n - 1) as nat);
        lemma_ranking_is_ranking(keys, (n - 1) as nat);
        assert(!before.contains(n - 1)) by {
            if before.contains(n - 1) {
                let k = choose|k: int| 0 <= k < before.len() && before[k] == n - 1;
                assert(before[k] < n - 1);
            }
        }
        lemma_place(keys, before, n - 1);
        let all = ranking(keys, n);
        assert forall|k: int| 0 <= k < all.len() implies 0 <= #[trigger] all[k] < n by {
            assert(all.contains(all[k]));
            if all[k] != n - 1 {
                let m = choose|m: int| 0 <= m < before.len() && before[m] == all[k];
                assert(0 <= before[m] < n - 1);
            }
        }
        assert forall|v: int| 0 <= v < n implies #[trigger] all.contains(v) by {
            if v < n - 1 {
                assert(before.contains(v));
            }
        }
    }
}

/// Two ranked sequences with the same elements are the same sequence.
pub proof fn lemma_ranked_unique(keys: Seq<(int, int)>, a: Seq<int>, b: Seq<int>)
    requires
        is_ranked(keys, a),
        is_ranked(keys, b),
        forall|v: int| a.contains(v) <==> b.contains(v),
    ensures
        a == b,
    decreases a.len(),
{
    if a.len() == 0 {
        if b.len() > 0 {
            assert(b.contains(b[0]));
            assert(a.contains(b[0]));
        }
        assert(a =~= b);
    } else {
        let x = a.last();
        assert(a.contains(x));
        assert(b.contains(x));
        let m = choose|m: int| 0 <= m < b.len() && b[m] == x;
        let y = b.last();
        assert(b.contains(y));
        assert(a.contains(y));
        let k = choose|k: int| 0 <= k < a.len() && a[k] == y;
        if m < b.len() - 1 {
            assert(ranks_before(keys, b[m], b[b.len() - 1]));
            if k < a.len() - 1 {
                assert(ranks_before(keys, a[k], a[a.len() - 1]));
            }
            lemma_ranks_before_total(keys, x, y);
        }
        assert(x == y);
        let af = a.drop_last();
        let bf = b.drop_last();
        assert forall|i: int, j: int| 0 <= i < j < af.len() implies ranks_before(
            keys,
            #[trigger] af[i],
            #[trigger] af[j],
        ) by {
            assert(ranks_before(keys, a[i], a[j]));
        }
        assert forall|i: int, j: int| 0 <= i < j < bf.len() implies ranks_before(
            keys,
            #[trigger] bf[i],
            #[trigger] bf[j],
        ) by {
            assert(ranks_before(keys, b[i], b[j]));
        }
        assert forall|v: int| af.contains(v) <==> bf.contains(v) by {
            lemma_ranks_before_total(keys, v, v);
            if af.contains(v) {
                let i = choose|i: int| 0 <= i < af.len() && af[i] == v;
                assert(ranks_before(keys, a[i], a[a.len() - 1]));
                assert(a.contains(a[i]));
                let j = choose|j: int| 0 <= j < b.len() && b[j] == v;
                assert(bf[j] == v);
            }
            if bf.contains(v) {
                let i = choose|i: int| 0 <= i < bf.len() && bf[i] == v;
                assert(ranks_before(keys, b[i], b[b.len() - 1]));
                assert(b.contains(b[i]));
                let j = choose|j: int| 0 <= j < a.len() && a[j] == v;
                assert(af[j] == v);
            }
        }
        lemma_ranked_unique(keys, af, bf);
        assert(a =~= af.push(x));
        assert(b =~= bf.push(y));
    }
}

/// There is one ranking of the first `n` indices: any sequence that is one
/// equals `ranking`.
pub proof fn lemma_ranking_unique(keys: Seq<(int, int)>, order: Seq<int>, n: nat)
    requires
        is_ranking(keys, order, 0, n as int),
    ensures
        order == ranking(keys, n),
{
    lemma_ranking_is_ranking(keys, n);
    let r = ranking(keys, n);
    assert forall|v: int| order.contains(v) <==> r.contains(v) by {
        if order.contains(v) {
            let k = choose|k: int| 0 <= k < order.len() && order[k] == v;
            assert(0 <= order[k] < n);
        }
        if r.contains(v) {
            let k = choose|k: int| 0 <= k < r.len() && r[k] == v;
            assert(0 <= r[k] < n);
        }
    }
    lemma_ranked_unique(keys, order, r);
}

/// Whether key `a` is strictly smaller than key `b`.
fn key_less(a: (usize, usize), b: (usize, usize)) -> (r: bool)
    ensures
        r == key_before((a.0 as int, a.1 as int), (b.0 as int, b.1 as int)),
{
    a.0 < b.0 || (a.0 == b.0 && a.1 < b.1)
}

/// Merges the rankings of two adjoining index ranges into the ranking of
/// both. Of two equal keys the one from the left range goes first.
fn merge(
    keys: &Vec<(usize, usize)>,
    left: &Vec<usize>,
    right: &Vec<usize>,
    lo: usize,
    mid: usize,
    hi: usize,
) -> (out: Vec<usize>)
    requires
        lo <= mid <= hi <= keys.len(),
        is_ranking(key_values(keys@), indices(left@), lo as int, mid as int),
        is_ranking(key_values(keys@), indices(right@), mid as int, hi as int),
    ensures
        is_ranking(key_values(keys@), indices(out@), lo as int, hi as int),
{
    let ghost kv = key_values(keys@);
    let mut out: Vec<usize> = Vec::new();
    let mut i: usize = 0;
    let mut j: usize = 0;
    while i < left.len() || j < right.len()
        invariant
            lo <= mid <= hi <= keys.len(),
            kv == key_values(keys@),
            is_ranking(kv, indices(left@), lo as int, mid as int),
            is_ranking(kv, indices(right@), mid as int, hi as int),
            i <= left.len(),
            j <= right.len(),
            out.len() == i + j,
            is_ranked(kv, indices(out@)),
            forall|k: int| 0 <= k < out.len() ==> lo <= #[trigger] out@[k] < hi,
            forall|b: int| 0 <= b < i ==> indices(out@).contains(#[trigger] indices(left@)[b]),
            forall|b: int| 0 <= b < j ==> indices(out@).contains(#[trigger] indices(right@)[b]),
            forall|a: int, b: int|
                0 <= a < out.len() && i <= b < left.len() ==> ranks_before(
                    kv,
                    #[trigger] indices(out@)[a],
                    #[trigger] indices(left@)[b],
                ),
            forall|a: int, b: int|
                0 <= a < out.len() && j <= b < right.len() ==> ranks_before(
                    kv,
                    #[trigger] indices(out@)[a],
                    #[trigger] indices(right@)[b],
                ),
        decreases left.len() - i + right.len() - j,
    {
        let ghost before = indices(out@);
        let from_left = if j == right.len() {
            true
        } else if i == left.len() {
            false
        } else {
            assert(lo <= indices(left@)[i as int] < mid);
            assert(mid <= indices(right@)[j as int] < hi);
            !key_less(keys[right[j]], keys[left[i]])
        };
        let x = if from_left {
            left[i]
        } else {
            right[j]
        };
        out.push(x);
        let ghost after = indices(out@);
        proof {
            assert(after =~= before.push(x as int));
            let li = indices(left@);
            let ri = indices(right@);
            assert(lo <= x < hi) by {
                if from_left {
                    assert(lo <= li[i as int] < mid);
                } else {
                    assert(mid <= ri[j as int] < hi);
                }
            }
            assert forall|a: int, b: int| 0 <= a < b < after.len() implies ranks_before(
                kv,
                #[trigger] after[a],
                #[trigger] after[b],
            ) by {
                if b == before.len() {
                    if from_left {
                        assert(ranks_before(kv, before[a], li[i as int]));
                    } else {
                        assert(ranks_before(kv, before[a], ri[j as int]));
                    }
                } else {
                    assert(ranks_before(kv, before[a], before[b]));
                }
            }
            assert forall|b: int| 0 <= b < i + (if from_left { 1int } else { 0int })
                implies after.contains(#[trigger] li[b]) by {
                if b < i {
                    assert(before.contains(li[b]));
                    let k = choose|k: int| 0 <= k < before.len() && before[k] == li[b];
                    assert(after[k] == li[b]);
                } else {
                    assert(after[before.len() as int] == li[b]);
                }
            }
            assert forall|b: int| 0 <= b < j + (if from_left { 0int } else { 1int })
                implies after.contains(#[trigger] ri[b]) by {
                if b < j {
                    assert(before.contains(ri[b]));
                    let k = choose|k: int| 0 <= k < before.len() && before[k] == ri[b];
                    assert(after[k] == ri[b]);
                } else {
                    assert(after[before.len() as int] == ri[b]);
                }
            }
            assert forall|a: int, b: int|
                0 <= a < after.len() && i + (if from_left { 1int } else { 0int }) <= b < li.len()
                implies ranks_before(kv, #[trigger] after[a], #[trigger] li[b]) by {
                if a < before.len() {
                    assert(ranks_before(kv, before[a], li[b]));
                } else if from_left {
                    assert(ranks_before(kv, li[i as int], li[b]));
                } else {
                    assert(lo <= li[i as int] < mid);
                    assert(mid <= ri[j as int] < hi);
                    assert(ranks_before(kv, ri[j as int], li[i as int]));
                    if i < b {
                        assert(ranks_before(kv, li[i as int], li[b]));
                        lemma_ranks_before_transitive(kv, ri[j as int], li[i as int], li[b]);
                    }
                }
            }
            assert forall|a: int, b: int|
                0 <= a < after.len() && j + (if from_left { 0int } else { 1int }) <= b < ri.len()
                implies ranks_before(kv, #[trigger] after[a], #[trigger] ri[b]) by {
                if a < before.len() {
                    assert(ranks_before(kv, before[a], ri[b]));
                } else if from_left {
                    assert(lo <= li[i as int] < mid);
                    assert(mid <= ri[j as int] < hi);
                    assert(ranks_before(kv, li[i as int], ri[j as int]));
                    if j < b {
                        assert(ranks_before(kv, ri[j as int], ri[b]));
                        lemma_ranks_before_transitive(kv, li[i as int], ri[j as int], ri[b]);
                    }
                } else {
                    assert(ranks_before(kv, ri[j as int], ri[b]));
                }
            }
        }
        if from_left {
            i = i + 1;
        } else {
            j = j + 1;
        }
    }
    proof {
        let o = indices(out@);
        assert forall|k: int| 0 <= k < o.len() implies lo <= #[trigger] o[k] < hi by {
            assert(lo <= out@[k] < hi);
        }
        assert forall|v: int| lo <= v < hi implies #[trigger] o.contains(v) by {
            if v < mid {
                assert(indices(left@).contains(v));
                let b = choose|b: int| 0 <= b < left@.len() && indices(left@)[b] == v;
                assert(o.contains(indices(left@)[b]));
            } else {
                assert(indices(right@).contains(v));
                let b = choose|b: int| 0 <= b < right@.len() && indices(right@)[b] == v;
                assert(o.contains(indices(right@)[b]));
            }
        }
    }
    out
}

/// Ranks the indices `lo..hi` by merging the rankings of the two halves.
fn rank_range(keys: &Vec<(usize, usize)>, lo: usize, hi: usize) -> (out: Vec<usize>)
    requires
        lo <= hi <= keys.len(),
    ensures
        is_ranking(key_values(keys@), indices(out@), lo as int, hi as int),
    decreases hi - lo,
{
    if hi - lo <= 1 {
        let mut out: Vec<usize> = Vec::new();
        if lo < hi {
            out.push(lo);
            assert(indices(out@)[0] == lo);
        }
        out
    } else {
        let mid = lo + (hi - lo) / 2;
        let left = rank_range(keys, lo, mid);
        let right = rank_range(keys, mid, hi);
        merge(keys, &left, &right, lo, mid, hi)
    }
}

/// Ranks the indices of `keys`: by key, equal keys in their given order.
pub fn rank_order(keys: &Vec<(usize, usize)>) -> (order: Vec<usize>)
    ensures
        indices(order@) == ranking(key_values(keys@), keys@.len()),
        order@.len() == keys@.len(),
        forall|k: int| 0 <= k < order@.len() ==> #[trigger] order@[k] < keys@.len(),
{
    let order = rank_range(keys, 0, keys.len());
    proof {
        lemma_ranking_unique(key_values(keys@), indices(order@), keys@.len());
        assert forall|k: int| 0 <= k < order@.len() implies #[trigger] order@[k] < keys@.len() by {
            assert(indices(order@)[k] < keys@.len());
        }
    }
    order
}

} // verus!
