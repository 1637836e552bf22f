//! Ranking of dictionary entries: by decreasing key (such as a number of
//! occurrences), ties kept in their first order.

use vstd::prelude::*;
use itertools::Itertools;

verus! {

/// The pairs `(i, keys[i])`.
pub open spec fn indexed(keys: Seq<usize>) -> Seq<(usize, usize)> {
    Seq::new(keys.len(), |i: int| (i as usize, keys[i]))
}

/// `a` comes before `b`: a greater key, or an equal key and a smaller index.
pub open spec fn ranks_before(a: (usize, usize), b: (usize, usize)) -> bool {
    a.1 > b.1 || (a.1 == b.1 && a.0 < b.0)
}

/// Every pair comes before all the later ones.
pub open spec fn strictly_ranked(r: Seq<(usize, usize)>) -> bool {
    forall|p: int, q: int| 0 <= p < q < r.len() ==> ranks_before(#[trigger] r[p], #[trigger] r[q])
}

/// `r` holds the pairs of `keys` ranked by decreasing key, ties by index.
pub open spec fn is_rank_order(keys: Seq<usize>, r: Seq<(usize, usize)>) -> bool {
    &&& r.to_multiset() == indexed(keys).to_multiset()
    &&& strictly_ranked(r)
}

/// The ranking of `keys`: the pairs `(i, keys[i])` by decreasing key, ties by
/// increasing index. (There is exactly one such sequence.)
pub open spec fn rank_order(keys: Seq<usize>) -> Seq<(usize, usize)> {
    choose|r: Seq<(usize, usize)>| is_rank_order(keys, r)
}

/// The position of index `i` in the ranking of `keys`.
pub open spec fn rank_of(keys: Seq<usize>, i: int) -> int {
    choose|p: int| 0 <= p < rank_order(keys).len() && rank_order(keys)[p].0 == i
}

/// Orders two pairs by decreasing key.
pub fn by_decreasing_key(a: &(usize, usize), b: &(usize, usize)) -> (o: core::cmp::Ordering)
    ensures
        (o == core::cmp::Ordering::Less) == (a.1 > b.1),
        (o == core::cmp::Ordering::Equal) == (a.1 == b.1),
        (o == core::cmp::Ordering::Greater) == (a.1 < b.1),
{
    if a.1 > b.1 {
        core::cmp::Ordering::Less
    } else if a.1 == b.1 {
        core::cmp::Ordering::Equal
    } else {
        core::cmp::Ordering::Greater
    }
}

/// The first components strictly increase along `items`.
pub open spec fn firsts_increasing(items: Seq<(usize, usize)>) -> bool {
    forall|p: int, q: int| 0 <= p < q < items.len() ==> #[trigger] items[p].0 < #[trigger] items[q].0
}

/// Sorts `items` with `itertools::Itertools::sorted_by`, comparing by
/// `by_decreasing_key`. Its documentation states that the sort is stable, so the
/// result holds the same pairs with the keys not increasing, and pairs of equal
/// keys in their order in `items`: where the first components increase along
/// `items`, that is by increasing first component.
#[verifier::external_body]
fn sorted_by_decreasing_key(items: Vec<(usize, usize)>) -> (sorted: Vec<(usize, usize)>)
    ensures
        sorted@.to_multiset() == items@.to_multiset(),
        forall|p: int, q: int|
            0 <= p < q < sorted@.len() ==> #[trigger] sorted@[p].1 >= #[trigger] sorted@[q].1,
        firsts_increasing(items@) ==> strictly_ranked(sorted@),
{
    items.into_iter().sorted_by(|a, b| by_decreasing_key(a, b)).collect()
}

proof fn lemma_contains_of_multiset(a: Seq<(usize, usize)>, b: Seq<(usize, usize)>, x: (usize, usize))
    requires
        a.to_multiset() == b.to_multiset(),
        a.contains(x),
    ensures
        b.contains(x),
{
    broadcast use vstd::seq_lib::group_to_multiset_ensures;

    assert(a.to_multiset().count(x) > 0);
    assert(b.to_multiset().count(x) > 0);
}

/// A pair that `indexed(keys)` holds is the pair of its own index.
proof fn lemma_indexed_member(keys: Seq<usize>, x: (usize, usize))
    requires
        indexed(keys).contains(x),
        keys.len() <= usize::MAX,
    ensures
        x.0 < keys.len(),
        x == indexed(keys)[x.0 as int],
{
    let w = choose|w: int| 0 <= w < indexed(keys).len() && indexed(keys)[w] == x;
}

proof fn lemma_agree_at(r1: Seq<(usize, usize)>, r2: Seq<(usize, usize)>, p: int)
    requires
        r1.to_multiset() == r2.to_multiset(),
        r1.len() == r2.len(),
        strictly_ranked(r1),
        strictly_ranked(r2),
        0 <= p < r1.len(),
        forall|j: int| 0 <= j < p ==> r1[j] == r2[j],
    ensures
        r1[p] == r2[p],
{
    let a = r1[p];
    let b = r2[p];
    assert(r1.contains(a));
    lemma_contains_of_multiset(r1, r2, a);
    let q = choose|q: int| 0 <= q < r2.len() && r2[q] == a;
    assert(r2.contains(b));
    lemma_contains_of_multiset(r2, r1, b);
    let q2 = choose|q: int| 0 <= q < r1.len() && r1[q] == b;
    if q < p {
        assert(r1[q] == a);
        assert(ranks_before(r1[q], r1[p]));
    }
    if q2 < p {
        assert(r2[q2] == b);
        assert(ranks_before(r2[q2], r2[p]));
    }
    if q > p && q2 > p {
        assert(ranks_before(r2[p], r2[q]));
        assert(ranks_before(r1[p], r1[q2]));
    }
}

proof fn lemma_agree_below(r1: Seq<(usize, usize)>, r2: Seq<(usize, usize)>, k: int)
    requires
        r1.to_multiset() == r2.to_multiset(),
        r1.len() == r2.len(),
        strictly_ranked(r1),
        strictly_ranked(r2),
        0 <= k <= r1.len(),
    ensures
        forall|j: int| 0 <= j < k ==> r1[j] == r2[j],
    decreases k,
{
    if k > 0 {
        lemma_agree_below(r1, r2, k - 1);
        lemma_agree_at(r1, r2, k - 1);
    }
}

/// There is only one ranking: two sequences that hold the same pairs and are
/// both strictly ranked are equal.
pub proof fn lemma_rank_order_unique(r1: Seq<(usize, usize)>, r2: Seq<(usize, usize)>)
    requires
        r1.to_multiset() == r2.to_multiset(),
        strictly_ranked(r1),
        strictly_ranked(r2),
    ensures
        r1 == r2,
{
    broadcast use vstd::seq_lib::group_to_multiset_ensures;

    assert(r1.len() == r1.to_multiset().len());
    assert(r2.len() == r2.to_multiset().len());
    lemma_agree_below(r1, r2, r1.len() as int);
    assert(r1 =~= r2);
}

/// The position after the last pair of `r` whose key is at least `key`.
spec fn split_point(r: Seq<(usize, usize)>, key: usize) -> int
    decreases r.len(),
{
    if r.len() == 0 {
        0
    } else if r.last().1 >= key {
        r.len() as int
    } else {
        split_point(r.drop_last(), key)
    }
}

proof fn lemma_split_point(r: Seq<(usize, usize)>, key: usize)
    requires
        strictly_ranked(r),
    ensures
        0 <= split_point(r, key) <= r.len(),
        forall|q: int| 0 <= q < split_point(r, key) ==> #[trigger] r[q].1 >= key,
        forall|q: int| split_point(r, key) <= q < r.len() ==> #[trigger] r[q].1 < key,
    decreases r.len(),
{
    if r.len() > 0 {
        let init = r.drop_last();
        assert(strictly_ranked(init)) by {
            assert forall|p: int, q: int| 0 <= p < q < init.len() implies ranks_before(
                #[trigger] init[p],
                #[trigger] init[q],
            ) by {
                assert(init[p] == r[p] && init[q] == r[q]);
            }
        }
        lemma_split_point(init, key);
        if r.last().1 >= key {
            assert forall|q: int| 0 <= q < r.len() implies #[trigger] r[q].1 >= key by {
                if q < r.len() - 1 {
                    assert(ranks_before(r[q], r[r.len() - 1]));
                }
            }
        } else {
            assert forall|q: int| 0 <= q < split_point(r, key) implies #[trigger] r[q].1 >= key by {
                assert(init[q] == r[q]);
            }
            assert forall|q: int| split_point(r, key) <= q < r.len() implies #[trigger] r[q].1 < key by {
                if q < r.len() - 1 {
                    assert(init[q] == r[q]);
                }
            }
        }
    }
}

/// Every sequence of keys has a ranking, so `rank_order` is one.
pub proof fn lemma_rank_order_exists(keys: Seq<usize>)
    requires
        keys.len() <= usize::MAX,
    ensures
        is_rank_order(keys, rank_order(keys)),
    decreases keys.len(),
{
    broadcast use vstd::seq_lib::group_to_multiset_ensures;
    broadcast use vstd::multiset::group_multiset_axioms;

    if keys.len() == 0 {
        let r = Seq::<(usize, usize)>::empty();
        assert(indexed(keys) =~= r);
        assert(is_rank_order(keys, r));
    } else {
        let n1 = (keys.len() - 1) as int;
        let init = keys.drop_last();
        lemma_rank_order_exists(init);
        let r0 = rank_order(init);
        let x = (n1 as usize, keys[n1]);
        assert(indexed(keys) =~= indexed(init).push(x));
        lemma_split_point(r0, x.1);
        let pos = split_point(r0, x.1);
        let r = r0.insert(pos, x);
        assert forall|q: int| 0 <= q < r0.len() implies #[trigger] r0[q].0 < n1 by {
            assert(r0.contains(r0[q]));
            lemma_contains_of_multiset(r0, indexed(init), r0[q]);
            lemma_indexed_member(init, r0[q]);
        }
        assert forall|p: int, q: int| 0 <= p < q < r.len() implies ranks_before(
            #[trigger] r[p],
            #[trigger] r[q],
        ) by {
            if q < pos {
                assert(r[p] == r0[p] && r[q] == r0[q]);
            } else if q == pos {
                assert(r[p] == r0[p]);
                assert(r0[p].1 >= x.1);
            } else if p < pos {
                assert(r[p] == r0[p] && r[q] == r0[q - 1]);
            } else if p == pos {
                assert(r[q] == r0[q - 1]);
                assert(r0[q - 1].1 < x.1);
            } else {
                assert(r[p] == r0[p - 1] && r[q] == r0[q - 1]);
            }
        }
        assert(r.remove(pos) =~= r0);
        assert(r[pos] == x);
        assert(r.to_multiset().remove(x) == r0.to_multiset());
        assert(r.contains(x));
        assert(r.to_multiset().count(x) > 0);
        assert(r.to_multiset() =~= r0.to_multiset().insert(x));
        assert(is_rank_order(keys, r));
    }
}

/// The ranking of `keys` lists every index once, each with its own key, by
/// non-increasing key.
pub proof fn lemma_rank_order_members(keys: Seq<usize>)
    requires
        keys.len() <= usize::MAX,
    ensures
        rank_order(keys).len() == keys.len(),
        forall|p: int|
            0 <= p < keys.len() ==> (#[trigger] rank_order(keys)[p]).0 < keys.len()
                && rank_order(keys)[p].1 == keys[rank_order(keys)[p].0 as int],
        forall|p: int, q: int|
            0 <= p < q < keys.len() ==> (#[trigger] rank_order(keys)[p]).1 >= (
            #[trigger] rank_order(keys)[q]).1 && rank_order(keys)[p].0 != rank_order(keys)[q].0,
{
    broadcast use vstd::seq_lib::group_to_multiset_ensures;

    lemma_rank_order_exists(keys);
    let r = rank_order(keys);
    let idx = indexed(keys);
    assert(r.len() == r.to_multiset().len());
    assert(idx.len() == idx.to_multiset().len());
    assert forall|p: int| 0 <= p < r.len() implies (#[trigger] r[p]).0 < keys.len() && r[p].1 == keys[r[p].0 as int] by {
        assert(r.contains(r[p]));
        lemma_contains_of_multiset(r, idx, r[p]);
        lemma_indexed_member(keys, r[p]);
    }
    assert forall|p: int, q: int| 0 <= p < q < r.len() implies (#[trigger] r[p]).1 >= (#[trigger] r[q]).1
        && r[p].0 != r[q].0 by {
        assert(ranks_before(r[p], r[q]));
        assert(r.contains(r[p]));
        lemma_contains_of_multiset(r, idx, r[p]);
        lemma_indexed_member(keys, r[p]);
        assert(r.contains(r[q]));
        lemma_contains_of_multiset(r, idx, r[q]);
        lemma_indexed_member(keys, r[q]);
    }
}

/// A greater key ranks first; so does an equal key of a smaller index.
pub proof fn lemma_greater_keys_rank_first(keys: Seq<usize>, i: int, j: int)
    requires
        keys.len() <= usize::MAX,
        0 <= i < keys.len(),
        0 <= j < keys.len(),
        keys[i] > keys[j] || (keys[i] == keys[j] && i < j),
    ensures
        0 <= rank_of(keys, i) < rank_of(keys, j) < keys.len(),
{
    broadcast use vstd::seq_lib::group_to_multiset_ensures;

    lemma_rank_order_exists(keys);
    let r = rank_order(keys);
    let idx = indexed(keys);
    assert(r.len() == r.to_multiset().len());
    assert(idx.len() == idx.to_multiset().len());
    assert(idx.contains(idx[i]));
    lemma_contains_of_multiset(idx, r, idx[i]);
    assert(idx.contains(idx[j]));
    lemma_contains_of_multiset(idx, r, idx[j]);
    let a = choose|p: int| 0 <= p < r.len() && r[p] == idx[i];
    let b = choose|p: int| 0 <= p < r.len() && r[p] == idx[j];
    assert(r[a].0 == i);
    assert(r[b].0 == j);
    let p = rank_of(keys, i);
    let q = rank_of(keys, j);
    assert(r.contains(r[p]));
    lemma_contains_of_multiset(r, idx, r[p]);
    lemma_indexed_member(keys, r[p]);
    assert(r.contains(r[q]));
    lemma_contains_of_multiset(r, idx, r[q]);
    lemma_indexed_member(keys, r[q]);
    if p >= q {
        if p == q {
            assert(r[p].0 == i && r[q].0 == j);
        } else {
            assert(ranks_before(r[q], r[p]));
        }
    }
}

/// Ranks the indices of `keys` by decreasing key, ties by increasing index:
/// returns the ranking and, for each index, its position in the ranking.
pub fn rank_by_decreasing_key(keys: &Vec<usize>) -> (res: (Vec<(usize, usize)>, Vec<usize>))
    ensures
        res.0@ == rank_order(keys@),
        is_rank_order(keys@, res.0@),
        res.1@.len() == keys@.len(),
        forall|i: int| 0 <= i < keys@.len() ==> #[trigger] res.1@[i] == rank_of(keys@, i),
        forall|i: int| 0 <= i < keys@.len() ==> res.0@[res.1@[i] as int].0 == i,
{
    let n = keys.len();
    let mut items: Vec<(usize, usize)> = Vec::new();
    let mut i: usize = 0;
    while i < n
        invariant
            n == keys@.len(),
            i <= n,
            items@ == indexed(keys@).take(i as int),
        decreases n - i,
    {
        items.push((i, keys[i]));
        assert(items@ =~= indexed(keys@).take(i + 1));
        i = i + 1;
    }
    assert(items@ =~= indexed(keys@));
    let ghost idx = indexed(keys@);
    assert(firsts_increasing(items@));
    let sorted = sorted_by_decreasing_key(items);
    proof {
        let r = rank_order(keys@);
        assert(is_rank_order(keys@, sorted@));
        assert(is_rank_order(keys@, r));
        lemma_rank_order_unique(sorted@, r);
    }
    broadcast use vstd::seq_lib::group_to_multiset_ensures;

    assert(sorted@.len() == n) by {
        assert(sorted@.len() == sorted@.to_multiset().len());
        assert(idx.len() == idx.to_multiset().len());
    }
    assert forall|q: int| 0 <= q < n implies #[trigger] sorted@[q].0 < n by {
        assert(sorted@.contains(sorted@[q]));
        lemma_contains_of_multiset(sorted@, idx, sorted@[q]);
        lemma_indexed_member(keys@, sorted@[q]);
    }
    let mut positions: Vec<usize> = Vec::new();
    let mut j: usize = 0;
    while j < n
        invariant
            j <= n,
            positions@.len() == j,
            forall|t: int| 0 <= t < j ==> positions@[t] == 0,
        decreases n - j,
    {
        positions.push(0);
        j = j + 1;
    }
    let mut p: usize = 0;
    while p < n
        invariant
            n == keys@.len(),
            n == sorted@.len(),
            p <= n,
            positions@.len() == n,
            sorted@.to_multiset() == idx.to_multiset(),
            idx == indexed(keys@),
            strictly_ranked(sorted@),
            forall|q: int| 0 <= q < n ==> #[trigger] sorted@[q].0 < n,
            forall|q: int| 0 <= q < p ==> #[trigger] positions@[sorted@[q].0 as int] == q,
        decreases n - p,
    {
        let entry = sorted[p];
        proof {
            assert(sorted@.contains(entry));
            lemma_contains_of_multiset(sorted@, idx, entry);
            lemma_indexed_member(keys@, entry);
        }
        let ghost before = positions@;
        positions.set(entry.0, p);
        proof {
            assert forall|q: int| 0 <= q < p implies #[trigger] positions@[sorted@[q].0 as int] == q by {
                assert(ranks_before(sorted@[q], sorted@[p as int]));
                assert(sorted@.contains(sorted@[q]));
                lemma_contains_of_multiset(sorted@, idx, sorted@[q]);
                lemma_indexed_member(keys@, sorted@[q]);
                lemma_indexed_member(keys@, entry);
                assert(sorted@[q].0 != entry.0);
                assert(positions@[sorted@[q].0 as int] == before[sorted@[q].0 as int]);
            }
            assert(positions@[sorted@[p as int].0 as int] == p);
        }
        p = p + 1;
    }
    proof {
        let r = rank_order(keys@);
        assert forall|i: int| 0 <= i < n implies #[trigger] positions@[i] == rank_of(keys@, i) && sorted@[positions@[i] as int].0 == i by {
            assert(idx.contains(idx[i]));
            lemma_contains_of_multiset(idx, sorted@, idx[i]);
            let q = choose|q: int| 0 <= q < sorted@.len() && sorted@[q] == idx[i];
            assert(sorted@[q].0 == i);
            assert(positions@[i] == q);
            let c = rank_of(keys@, i);
            assert(0 <= c < r.len() && r[c].0 == i);
            if c != q {
                if c < q {
                    assert(ranks_before(sorted@[c], sorted@[q]));
                } else {
                    assert(ranks_before(sorted@[q], sorted@[c]));
                }
            }
        }
    }
    (sorted, positions)
}

} // verus!
