//! What it means for a selection of items to be the nearest ones to a query,
//! and how such a selection changes as further items are looked at.

use crate::kdtree::KdTreeItem;
use vstd::multiset::Multiset;
use vstd::prelude::*;

verus! {

/// The distances from `query` to the items of `chosen` ascend.
pub open spec fn ascending_from<T: KdTreeItem>(query: T, chosen: Seq<T>) -> bool {
    forall|i: int, j: int|
        0 <= i < j < chosen.len() ==> query.dist(&#[trigger] chosen[i]) <= query.dist(
            &#[trigger] chosen[j],
        )
}

/// `pool` holds a copy of `x` that `chosen` does not.
pub open spec fn left_out<T>(pool: Multiset<T>, chosen: Seq<T>, x: T) -> bool {
    pool.count(x) > chosen.to_multiset().count(x)
}

/// `chosen` holds the `count` items of `pool` that are nearest to `query`,
/// nearest first, or all of `pool` if that has fewer: it is drawn from `pool`,
/// and no item that was left out is nearer than a chosen one.
pub open spec fn is_nearest<T: KdTreeItem>(
    pool: Multiset<T>,
    query: T,
    count: nat,
    chosen: Seq<T>,
) -> bool {
    &&& chosen.to_multiset().subset_of(pool)
    &&& chosen.len() == (if count <= pool.len() {
        count
    } else {
        pool.len()
    })
    &&& ascending_from(query, chosen)
    &&& forall|x: T, i: int|
        #![trigger left_out(pool, chosen, x), chosen[i]]
        left_out(pool, chosen, x) && 0 <= i < chosen.len() ==> query.dist(&chosen[i])
            <= query.dist(&x)
}

/// `x` is an item of `pool` that is as near to `query` as any.
pub open spec fn is_closest<T: KdTreeItem>(pool: Multiset<T>, query: T, x: T) -> bool {
    &&& pool.contains(x)
    &&& forall|y: T| pool.contains(y) ==> query.dist(&x) <= query.dist(&y)
}

/// A selection that is not full holds the whole pool.
pub proof fn lemma_not_full<T: KdTreeItem>(
    pool: Multiset<T>,
    query: T,
    count: nat,
    chosen: Seq<T>,
)
    requires
        is_nearest(pool, query, count, chosen),
        chosen.len() < count,
    ensures
        chosen.to_multiset() == pool,
{
    broadcast use vstd::multiset::group_multiset_axioms;

    chosen.to_multiset_ensures();
    let rest = pool.sub(chosen.to_multiset());
    assert(rest.len() == 0);
    assert forall|v: T| chosen.to_multiset().count(v) == pool.count(v) by {
        if pool.count(v) > chosen.to_multiset().count(v) {
            assert(rest.count(v) > 0);
            vstd::multiset::lemma_multiset_empty_len(rest);
        }
    }
    assert(chosen.to_multiset() =~= pool);
}

/// An item joins a selection that is not full, at a place that keeps the
/// distances ascending.
pub proof fn lemma_admit<T: KdTreeItem>(
    pool: Multiset<T>,
    query: T,
    count: nat,
    chosen: Seq<T>,
    at: int,
    y: T,
)
    requires
        is_nearest(pool, query, count, chosen),
        chosen.len() < count,
        0 <= at <= chosen.len(),
        ascending_from(query, chosen.insert(at, y)),
    ensures
        is_nearest(pool.insert(y), query, count, chosen.insert(at, y)),
{
    broadcast use vstd::multiset::group_multiset_axioms;
    broadcast use vstd::seq_lib::group_to_multiset_ensures;

    lemma_not_full(pool, query, count, chosen);
    let grown = chosen.insert(at, y);
    assert(grown.to_multiset() =~= pool.insert(y));
    assert(pool.insert(y).len() == pool.len() + 1);
    assert(chosen.len() == pool.len());
}

/// An item that is nearer than the last of a full selection takes its place.
pub proof fn lemma_replace<T: KdTreeItem>(
    pool: Multiset<T>,
    query: T,
    count: nat,
    chosen: Seq<T>,
    at: int,
    y: T,
)
    requires
        is_nearest(pool, query, count, chosen),
        chosen.len() == count,
        count > 0,
        query.dist(&y) < query.dist(&chosen.last()),
        0 <= at < chosen.len(),
        ascending_from(query, chosen.drop_last().insert(at, y)),
    ensures
        is_nearest(pool.insert(y), query, count, chosen.drop_last().insert(at, y)),
{
    broadcast use vstd::multiset::group_multiset_axioms;
    broadcast use vstd::seq_lib::group_to_multiset_ensures;

    let worst = chosen.last();
    let kept = chosen.drop_last();
    let next = kept.insert(at, y);
    assert(kept =~= chosen.remove(chosen.len() - 1));
    assert(kept.to_multiset() =~= chosen.to_multiset().remove(worst));
    assert(next.to_multiset() =~= kept.to_multiset().insert(y));
    assert(chosen.to_multiset().count(worst) > 0) by {
        assert(chosen.contains(worst));
    }
    assert(next.to_multiset().subset_of(pool.insert(y)));
    assert(pool.insert(y).len() == pool.len() + 1);
    assert forall|x: T, i: int|
        #![trigger left_out(pool.insert(y), next, x), next[i]]
        left_out(pool.insert(y), next, x) && 0 <= i < next.len() implies query.dist(&next[i])
        <= query.dist(&x) by {
        assert(query.dist(&worst) <= query.dist(&x)) by {
            if x != worst {
                assert(left_out(pool, chosen, x));
                assert(chosen[chosen.len() - 1] == worst);
            }
        }
        if i < at {
            assert(next[i] == chosen[i]);
        } else if i > at {
            assert(next[i] == chosen[i - 1]);
        }
    }
}

/// A full selection stays what it is when the pool grows by items that are
/// no nearer than its last.
pub proof fn lemma_pass_over<T: KdTreeItem>(
    pool: Multiset<T>,
    query: T,
    count: nat,
    chosen: Seq<T>,
    more: Multiset<T>,
)
    requires
        is_nearest(pool, query, count, chosen),
        chosen.len() == count,
        count > 0,
        forall|x: T| #[trigger] more.contains(x) ==> query.dist(&chosen.last()) <= query.dist(&x),
    ensures
        is_nearest(pool.add(more), query, count, chosen),
{
    broadcast use vstd::multiset::group_multiset_axioms;

    assert(chosen.to_multiset().subset_of(pool.add(more)));
    assert forall|x: T, i: int|
        #![trigger left_out(pool.add(more), chosen, x), chosen[i]]
        left_out(pool.add(more), chosen, x) && 0 <= i < chosen.len() implies query.dist(
        &chosen[i],
    ) <= query.dist(&x) by {
        if more.contains(x) {
            assert(chosen[chosen.len() - 1] == chosen.last());
        } else {
            assert(left_out(pool, chosen, x));
        }
    }
}

/// The one item of a selection of one is as near to the query as any item.
pub proof fn lemma_nearest_one<T: KdTreeItem>(pool: Multiset<T>, query: T, chosen: Seq<T>)
    requires
        is_nearest(pool, query, 1, chosen),
    ensures
        chosen.len() == 0 <==> pool.len() == 0,
        chosen.len() > 0 ==> is_closest(pool, query, chosen[0]),
{
    broadcast use vstd::multiset::group_multiset_axioms;

    chosen.to_multiset_ensures();
    if chosen.len() > 0 {
        let x = chosen[0];
        assert(chosen.contains(x));
        assert(chosen =~= Seq::<T>::empty().push(x));
        Seq::<T>::empty().to_multiset_ensures();
        assert(chosen.to_multiset() =~= Multiset::<T>::empty().insert(x));
        assert forall|y: T| pool.contains(y) implies query.dist(&x) <= query.dist(&y) by {
            if y != x {
                assert(left_out(pool, chosen, y));
            }
        }
    }
}

/// The item at a place of one selection is no nearer to the query than the
/// item at that place of another selection from the same pool.
proof fn lemma_no_nearer<T: KdTreeItem>(
    pool: Multiset<T>,
    query: T,
    count: nat,
    one: Seq<T>,
    other: Seq<T>,
    i: int,
)
    requires
        is_nearest(pool, query, count, one),
        is_nearest(pool, query, count, other),
        0 <= i < one.len(),
    ensures
        query.dist(&other[i]) <= query.dist(&one[i]),
{
    broadcast use vstd::multiset::group_multiset_axioms;

    if query.dist(&one[i]) < query.dist(&other[i]) {
        let head = one.take(i + 1);
        let tail = one.skip(i + 1);
        let before = other.take(i);
        let from = other.skip(i);
        assert(one =~= head + tail);
        assert(other =~= before + from);
        vstd::seq_lib::lemma_multiset_commutative(head, tail);
        vstd::seq_lib::lemma_multiset_commutative(before, from);
        head.to_multiset_ensures();
        before.to_multiset_ensures();
        from.to_multiset_ensures();
        assert forall|x: T| head.to_multiset().count(x) <= before.to_multiset().count(x) by {
            if head.to_multiset().count(x) > 0 {
                assert(head.contains(x));
                let j = choose|j: int| 0 <= j < head.len() && head[j] == x;
                assert(one[j] == x);
                assert(query.dist(&one[j]) <= query.dist(&one[i]));
                if left_out(pool, other, x) {
                    assert(query.dist(&other[i]) <= query.dist(&x));
                }
                if from.to_multiset().count(x) > 0 {
                    assert(from.contains(x));
                    let k = choose|k: int| 0 <= k < from.len() && from[k] == x;
                    assert(other[i + k] == x);
                    assert(query.dist(&other[i]) <= query.dist(&other[i + k]));
                }
            }
        }
        assert(head.to_multiset().subset_of(before.to_multiset()));
        assert(before.to_multiset().sub(head.to_multiset()).len() == before.len() - head.len());
    }
}

/// Two selections of the nearest items from one pool agree in their
/// distances from the query, place by place, whatever items they hold.
pub proof fn lemma_nearest_distances_agree<T: KdTreeItem>(
    pool: Multiset<T>,
    query: T,
    count: nat,
    one: Seq<T>,
    other: Seq<T>,
)
    requires
        is_nearest(pool, query, count, one),
        is_nearest(pool, query, count, other),
    ensures
        one.len() == other.len(),
        forall|i: int|
            0 <= i < one.len() ==> query.dist(&#[trigger] one[i]) == query.dist(
                &#[trigger] other[i],
            ),
{
    assert forall|i: int| 0 <= i < one.len() implies query.dist(&#[trigger] one[i]) == query.dist(
        &#[trigger] other[i],
    ) by {
        lemma_no_nearer(pool, query, count, one, other, i);
        lemma_no_nearer(pool, query, count, other, one, i);
    }
}

/// Two items that are both as near to the query as any are equally far from
/// it.
pub proof fn lemma_closest_distances_agree<T: KdTreeItem>(
    pool: Multiset<T>,
    query: T,
    one: T,
    other: T,
)
    requires
        is_closest(pool, query, one),
        is_closest(pool, query, other),
    ensures
        query.dist(&one) == query.dist(&other),
{
}

/// The nearest items of a permutation of the input are equally far from the
/// query, place by place.
pub proof fn lemma_nearest_of_permutation<T: KdTreeItem>(
    first: Seq<T>,
    second: Seq<T>,
    query: T,
    count: nat,
    of_first: Seq<T>,
    of_second: Seq<T>,
)
    requires
        first.to_multiset() == second.to_multiset(),
        is_nearest(first.to_multiset(), query, count, of_first),
        is_nearest(second.to_multiset(), query, count, of_second),
    ensures
        of_first.len() == of_second.len(),
        forall|i: int|
            0 <= i < of_first.len() ==> query.dist(&#[trigger] of_first[i]) == query.dist(
                &#[trigger] of_second[i],
            ),
{
    lemma_nearest_distances_agree(first.to_multiset(), query, count, of_first, of_second);
}

} // verus!
