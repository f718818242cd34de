//! What a radius query returns, and what follows from it.

use crate::kdtree::is_metric;
use crate::kdtree::KdTreeItem;
use vstd::multiset::Multiset;
use vstd::prelude::*;

verus! {

/// The items that a sequence of references points to.
pub open spec fn items_of<T>(refs: Seq<&T>) -> Seq<T> {
    refs.map_values(|x: &T| *x)
}

/// The test that an item lies no farther than `radius` from `query`.
pub open spec fn within<T: KdTreeItem>(query: T, radius: real) -> spec_fn(T) -> bool {
    |x: T| query.dist(&x) <= radius
}

/// `found` holds the items of `pool` that lie no farther than `radius` from
/// `query`, each as often as `pool` holds it, in any order.
pub open spec fn is_range<T: KdTreeItem>(
    pool: Multiset<T>,
    query: T,
    radius: real,
    found: Seq<T>,
) -> bool {
    found.to_multiset() == pool.filter(within(query, radius))
}

/// A radius query finds an item exactly if the pool holds it and it lies
/// within the radius.
pub proof fn lemma_range_members<T: KdTreeItem>(
    pool: Multiset<T>,
    query: T,
    radius: real,
    found: Seq<T>,
    x: T,
)
    requires
        is_range(pool, query, radius, found),
    ensures
        found.contains(x) <==> pool.contains(x) && query.dist(&x) <= radius,
{
    broadcast use vstd::multiset::group_multiset_axioms;

    found.to_multiset_ensures();
    let inside = within(query, radius);
    assert(inside(x) == (query.dist(&x) <= radius));
    assert(pool.filter(inside).count(x) == if inside(x) {
        pool.count(x)
    } else {
        0
    });
}

/// A radius query around an item of the pool finds that item, whatever the
/// radius, as long as it is not negative.
pub proof fn lemma_range_holds_query<T: KdTreeItem>(
    pool: Multiset<T>,
    query: T,
    radius: real,
    found: Seq<T>,
)
    requires
        is_metric::<T>(),
        pool.contains(query),
        radius >= 0 as real,
        is_range(pool, query, radius, found),
    ensures
        found.contains(query),
{
    assert(query.dist(&query) == 0 as real);
    lemma_range_members(pool, query, radius, found, query);
}

/// A radius query on a permutation of the input finds the same items.
pub proof fn lemma_range_of_permutation<T: KdTreeItem>(
    first: Seq<T>,
    second: Seq<T>,
    query: T,
    radius: real,
    of_first: Seq<T>,
    of_second: Seq<T>,
)
    requires
        first.to_multiset() == second.to_multiset(),
        is_range(first.to_multiset(), query, radius, of_first),
        is_range(second.to_multiset(), query, radius, of_second),
    ensures
        of_first.to_multiset() == of_second.to_multiset(),
{
}

} // verus!
