//! What a DBSCAN labeling is, stated over positions in the input, and what
//! follows from it.

use crate::dbscan::DbscanLabel;
use crate::kdtree::is_metric;
use crate::kdtree::KdTreeItem;
use vstd::prelude::*;

verus! {

/// The positions of the items that lie no farther than `radius` from the
/// item at position `p`.
pub open spec fn neighborhood<T: KdTreeItem>(items: Seq<T>, radius: real, p: int) -> Set<int> {
    Set::new(|q: int| 0 <= q < items.len() && items[p].dist(&items[q]) <= radius)
}

/// The item at position `p` is a core point: its neighbourhood holds at least
/// `min_items` items, itself included.
pub open spec fn is_core<T: KdTreeItem>(
    items: Seq<T>,
    radius: real,
    min_items: nat,
    p: int,
) -> bool {
    0 <= p < items.len() && neighborhood(items, radius, p).len() >= min_items
}

/// `chain` is a walk over core points, each in the neighbourhood of the one
/// before it.
pub open spec fn is_core_chain<T: KdTreeItem>(
    items: Seq<T>,
    radius: real,
    min_items: nat,
    chain: Seq<int>,
) -> bool {
    &&& chain.len() > 0
    &&& forall|i: int|
        0 <= i < chain.len() ==> is_core(items, radius, min_items, #[trigger] chain[i])
    &&& forall|i: int|
        0 < i < chain.len() ==> neighborhood(items, radius, chain[i - 1]).contains(
            #[trigger] chain[i],
        )
}

/// A walk over core points leads from `a` to `b`.
#[verifier::opaque]
pub open spec fn connected<T: KdTreeItem>(
    items: Seq<T>,
    radius: real,
    min_items: nat,
    a: int,
    b: int,
) -> bool {
    exists|chain: Seq<int>|
        #[trigger] is_core_chain(items, radius, min_items, chain) && chain.first() == a
            && chain.last() == b
}

/// The number of a label's cluster, 0 for noise.
pub open spec fn label_id(label: DbscanLabel) -> nat {
    match label {
        DbscanLabel::Noise => 0,
        DbscanLabel::Cluster(k) => k as nat,
    }
}

/// `labels` is the DBSCAN labeling of `items` in which cluster `k + 1` grew
/// from the core point at position `seeds[k]`.
///
/// Clusters are numbered from 1 in the order of their seeds, and the seed of
/// a cluster is the first of its core points. Every core point is labeled
/// with the cluster of the seed from which a walk over core points reaches
/// it. Whatever lies in the neighbourhood of a core point is labeled, with
/// that core point's cluster or an earlier one. A labeled point that is no
/// core point has its label from a core point in whose neighbourhood it lies.
pub open spec fn is_clustering<T: KdTreeItem>(
    items: Seq<T>,
    radius: real,
    min_items: nat,
    labels: Seq<DbscanLabel>,
    seeds: Seq<int>,
) -> bool {
    &&& labels.len() == items.len()
    &&& forall|p: int|
        0 <= p < labels.len() && #[trigger] labels[p] != DbscanLabel::Noise ==> 1 <= label_id(
            labels[p],
        ) <= seeds.len()
    &&& forall|k: int|
        0 <= k < seeds.len() ==> is_core(items, radius, min_items, #[trigger] seeds[k])
            && label_id(labels[seeds[k]]) == k + 1
    &&& forall|j: int, k: int| 0 <= j < k < seeds.len() ==> #[trigger] seeds[j] < #[trigger] seeds[k]
    &&& forall|c: int| #[trigger]
        is_core(items, radius, min_items, c) ==> {
            &&& labels[c] != DbscanLabel::Noise
            &&& seeds[label_id(labels[c]) - 1] <= c
            &&& connected(items, radius, min_items, seeds[label_id(labels[c]) - 1], c)
        }
    &&& forall|c: int, q: int|
        is_core(items, radius, min_items, c) && #[trigger] neighborhood(items, radius, c).contains(q)
            ==> labels[q] != DbscanLabel::Noise && label_id(labels[q]) <= label_id(labels[c])
    &&& forall|p: int|
        0 <= p < labels.len() && #[trigger] labels[p] != DbscanLabel::Noise && !is_core(
            items,
            radius,
            min_items,
            p,
        ) ==> exists|c: int|
            #[trigger] is_core(items, radius, min_items, c) && neighborhood(items, radius, c).contains(
                p,
            ) && labels[c] == labels[p]
}

/// Some item is labeled with cluster `k`.
pub open spec fn in_use(labels: Seq<DbscanLabel>, k: nat) -> bool {
    exists|p: int| 0 <= p < labels.len() && #[trigger] label_id(labels[p]) == k
}

/// `labels` is a DBSCAN labeling of `items`.
pub open spec fn is_dbscan_labeling<T: KdTreeItem>(
    items: Seq<T>,
    radius: real,
    min_items: nat,
    labels: Seq<DbscanLabel>,
) -> bool {
    exists|seeds: Seq<int>| #[trigger] is_clustering(items, radius, min_items, labels, seeds)
}

/// A neighbourhood is finite and lies within the input.
pub proof fn lemma_neighbors_finite<T: KdTreeItem>(items: Seq<T>, radius: real, p: int)
    ensures
        neighborhood(items, radius, p).finite(),
        neighborhood(items, radius, p).len() <= items.len(),
{
    let all = vstd::set_lib::set_int_range(0, items.len() as int);
    vstd::set_lib::lemma_int_range(0, items.len() as int);
    assert(neighborhood(items, radius, p).subset_of(all));
    vstd::set_lib::lemma_len_subset(neighborhood(items, radius, p), all);
}

/// A neighbourhood only grows with the radius, so a core point stays one.
pub proof fn lemma_core_grows<T: KdTreeItem>(
    items: Seq<T>,
    small: real,
    large: real,
    min_items: nat,
    p: int,
)
    requires
        small <= large,
        is_core(items, small, min_items, p),
    ensures
        neighborhood(items, small, p).subset_of(neighborhood(items, large, p)),
        is_core(items, large, min_items, p),
{
    lemma_neighbors_finite(items, large, p);
    assert(neighborhood(items, small, p).subset_of(neighborhood(items, large, p)));
    vstd::set_lib::lemma_len_subset(neighborhood(items, small, p), neighborhood(items, large, p));
}

/// A core point lies in its own neighbourhood.
pub proof fn lemma_core_in_own_neighborhood<T: KdTreeItem>(
    items: Seq<T>,
    radius: real,
    min_items: nat,
    p: int,
)
    requires
        is_metric::<T>(),
        min_items >= 1,
        is_core(items, radius, min_items, p),
    ensures
        neighborhood(items, radius, p).contains(p),
{
    lemma_neighbors_finite(items, radius, p);
    let hood = neighborhood(items, radius, p);
    assert(hood.len() > 0);
    let q = hood.choose();
    assert(hood.contains(q)) by {
        if hood =~= Set::empty() {
            assert(hood.len() == 0);
        }
    }
    assert(items[p].dist(&items[q]) >= 0 as real);
    assert(items[p].dist(&items[p]) == 0 as real);
}

/// Neighbourhoods are symmetric.
pub proof fn lemma_neighbors_symmetric<T: KdTreeItem>(items: Seq<T>, radius: real, p: int, q: int)
    requires
        is_metric::<T>(),
        0 <= p < items.len(),
        neighborhood(items, radius, p).contains(q),
    ensures
        neighborhood(items, radius, q).contains(p),
{
    assert(items[p].dist(&items[q]) == items[q].dist(&items[p]));
}

/// Every core point belongs to a cluster.
pub proof fn lemma_core_is_clustered<T: KdTreeItem>(
    items: Seq<T>,
    radius: real,
    min_items: nat,
    labels: Seq<DbscanLabel>,
    p: int,
)
    requires
        is_dbscan_labeling(items, radius, min_items, labels),
        is_core(items, radius, min_items, p),
    ensures
        labels[p] != DbscanLabel::Noise,
{
}

/// Whatever lies in the neighbourhood of a core point belongs to a cluster:
/// to that of the core point if it is a core point itself, else to that one
/// or an earlier one.
pub proof fn lemma_core_neighborhood<T: KdTreeItem>(
    items: Seq<T>,
    radius: real,
    min_items: nat,
    labels: Seq<DbscanLabel>,
    p: int,
    q: int,
)
    requires
        is_metric::<T>(),
        is_dbscan_labeling(items, radius, min_items, labels),
        is_core(items, radius, min_items, p),
        neighborhood(items, radius, p).contains(q),
    ensures
        labels[q] != DbscanLabel::Noise,
        label_id(labels[q]) <= label_id(labels[p]),
        is_core(items, radius, min_items, q) ==> labels[q] == labels[p],
{
    if is_core(items, radius, min_items, q) {
        lemma_neighbors_symmetric(items, radius, p, q);
    }
}

/// The cluster numbers in use are exactly 1 to some `K`, and a cluster with
/// a smaller number has its first core point earlier in the input.
pub proof fn lemma_ids_compact<T: KdTreeItem>(
    items: Seq<T>,
    radius: real,
    min_items: nat,
    labels: Seq<DbscanLabel>,
) -> (clusters: nat)
    requires
        is_dbscan_labeling(items, radius, min_items, labels),
    ensures
        forall|p: int|
            0 <= p < labels.len() && #[trigger] labels[p] != DbscanLabel::Noise ==> 1 <= label_id(
                labels[p],
            ) <= clusters,
        forall|k: nat| 1 <= k <= clusters ==> #[trigger] in_use(labels, k),
        forall|c: int, d: int|
            is_core(items, radius, min_items, c) && is_core(items, radius, min_items, d)
                && label_id(#[trigger] labels[c]) < label_id(#[trigger] labels[d]) ==> exists|
                first: int,
            |
                first < d && #[trigger] is_core(items, radius, min_items, first) && labels[first]
                    == labels[c],
{
    let seeds = choose|seeds: Seq<int>| #[trigger]
        is_clustering(items, radius, min_items, labels, seeds);
    assert forall|k: nat| 1 <= k <= seeds.len() implies #[trigger] in_use(labels, k) by {
        let p = seeds[k - 1];
        assert(is_core(items, radius, min_items, p));
        assert(label_id(labels[p]) == k);
    }
    assert forall|c: int, d: int|
        is_core(items, radius, min_items, c) && is_core(items, radius, min_items, d) && label_id(
            #[trigger] labels[c],
        ) < label_id(#[trigger] labels[d]) implies exists|first: int|
        first < d && #[trigger] is_core(items, radius, min_items, first) && labels[first]
            == labels[c] by {
        let first = seeds[label_id(labels[c]) - 1];
        let later = seeds[label_id(labels[d]) - 1];
        assert(first < later);
        assert(is_core(items, radius, min_items, first));
    }
    seeds.len()
}

/// All core points on a walk over core points belong to one cluster.
pub proof fn lemma_chain_one_cluster<T: KdTreeItem>(
    items: Seq<T>,
    radius: real,
    min_items: nat,
    labels: Seq<DbscanLabel>,
    chain: Seq<int>,
)
    requires
        is_metric::<T>(),
        is_dbscan_labeling(items, radius, min_items, labels),
        is_core_chain(items, radius, min_items, chain),
    ensures
        labels[chain.last()] == labels[chain.first()],
    decreases chain.len(),
{
    if chain.len() > 1 {
        let shorter = chain.drop_last();
        assert forall|i: int| 0 <= i < shorter.len() implies is_core(
            items,
            radius,
            min_items,
            #[trigger] shorter[i],
        ) by {
            assert(shorter[i] == chain[i]);
        }
        assert forall|i: int| 0 < i < shorter.len() implies neighborhood(
            items,
            radius,
            shorter[i - 1],
        ).contains(#[trigger] shorter[i]) by {
            assert(shorter[i] == chain[i]);
        }
        lemma_chain_one_cluster(items, radius, min_items, labels, shorter);
        let last = chain.len() - 1;
        assert(is_core(items, radius, min_items, chain[last]));
        assert(is_core(items, radius, min_items, chain[last - 1]));
        assert(neighborhood(items, radius, chain[last - 1]).contains(chain[last]));
        lemma_core_neighborhood(items, radius, min_items, labels, chain[last - 1], chain[last]);
        assert(shorter.last() == chain[last - 1]);
    }
}

/// A walk over core points stays one when the radius grows.
pub proof fn lemma_chain_grows<T: KdTreeItem>(
    items: Seq<T>,
    small: real,
    large: real,
    min_items: nat,
    chain: Seq<int>,
)
    requires
        small <= large,
        is_core_chain(items, small, min_items, chain),
    ensures
        is_core_chain(items, large, min_items, chain),
{
    assert forall|i: int| 0 <= i < chain.len() implies is_core(
        items,
        large,
        min_items,
        #[trigger] chain[i],
    ) by {
        lemma_core_grows(items, small, large, min_items, chain[i]);
    }
    assert forall|i: int| 0 < i < chain.len() implies neighborhood(
        items,
        large,
        chain[i - 1],
    ).contains(#[trigger] chain[i]) by {
        assert(is_core(items, small, min_items, chain[i - 1]));
        lemma_core_grows(items, small, large, min_items, chain[i - 1]);
    }
}

/// A walk over core points can be gone backwards.
pub proof fn lemma_connected_symmetric<T: KdTreeItem>(
    items: Seq<T>,
    radius: real,
    min_items: nat,
    a: int,
    b: int,
)
    requires
        is_metric::<T>(),
        connected(items, radius, min_items, a, b),
    ensures
        connected(items, radius, min_items, b, a),
{
    reveal(connected);
    let chain = choose|chain: Seq<int>|
        #[trigger] is_core_chain(items, radius, min_items, chain) && chain.first() == a
            && chain.last() == b;
    let back = chain.reverse();
    let last = chain.len() - 1;
    assert forall|i: int| 0 <= i < back.len() implies is_core(
        items,
        radius,
        min_items,
        #[trigger] back[i],
    ) by {
        assert(back[i] == chain[last - i]);
    }
    assert forall|i: int| 0 < i < back.len() implies neighborhood(
        items,
        radius,
        back[i - 1],
    ).contains(#[trigger] back[i]) by {
        assert(back[i] == chain[last - i]);
        assert(back[i - 1] == chain[last - i + 1]);
        assert(is_core(items, radius, min_items, chain[last - i]));
        assert(neighborhood(items, radius, chain[last - i]).contains(chain[last - i + 1]));
        lemma_neighbors_symmetric(items, radius, chain[last - i], chain[last - i + 1]);
    }
    assert(is_core_chain(items, radius, min_items, back));
    assert(back.first() == b && back.last() == a);
}

/// Two walks over core points, the second from where the first ends, make
/// one.
pub proof fn lemma_connected_transitive<T: KdTreeItem>(
    items: Seq<T>,
    radius: real,
    min_items: nat,
    a: int,
    b: int,
    c: int,
)
    requires
        connected(items, radius, min_items, a, b),
        connected(items, radius, min_items, b, c),
    ensures
        connected(items, radius, min_items, a, c),
{
    reveal(connected);
    let first = choose|chain: Seq<int>|
        #[trigger] is_core_chain(items, radius, min_items, chain) && chain.first() == a
            && chain.last() == b;
    let second = choose|chain: Seq<int>|
        #[trigger] is_core_chain(items, radius, min_items, chain) && chain.first() == b
            && chain.last() == c;
    let whole = first + second.drop_first();
    assert forall|i: int| 0 <= i < whole.len() implies is_core(
        items,
        radius,
        min_items,
        #[trigger] whole[i],
    ) by {
        if i < first.len() {
            assert(whole[i] == first[i]);
        } else {
            assert(whole[i] == second[i - first.len() + 1]);
        }
    }
    assert forall|i: int| 0 < i < whole.len() implies neighborhood(
        items,
        radius,
        whole[i - 1],
    ).contains(#[trigger] whole[i]) by {
        if i < first.len() {
            assert(whole[i] == first[i]);
            assert(whole[i - 1] == first[i - 1]);
        } else if i == first.len() {
            assert(whole[i] == second[1]);
            assert(whole[i - 1] == second[0]);
        } else {
            assert(whole[i] == second[i - first.len() + 1]);
            assert(whole[i - 1] == second[i - first.len()]);
        }
    }
    assert(is_core_chain(items, radius, min_items, whole));
    assert(whole.first() == a);
    assert(whole.last() == c) by {
        if second.len() == 1 {
            assert(whole =~= first);
        } else {
            assert(whole[whole.len() - 1] == second[second.len() - 1]);
        }
    }
}

/// Points of one cluster hang together: each lies in the neighbourhood of a
/// core point of the cluster, and a walk over core points leads from the one
/// core point to the other.
pub proof fn lemma_cluster_connected<T: KdTreeItem>(
    items: Seq<T>,
    radius: real,
    min_items: nat,
    labels: Seq<DbscanLabel>,
    p: int,
    q: int,
) -> (via: (int, int))
    requires
        is_metric::<T>(),
        min_items >= 1,
        is_dbscan_labeling(items, radius, min_items, labels),
        0 <= p < labels.len(),
        0 <= q < labels.len(),
        labels[p] != DbscanLabel::Noise,
        labels[p] == labels[q],
    ensures
        neighborhood(items, radius, via.0).contains(p),
        neighborhood(items, radius, via.1).contains(q),
        labels[via.0] == labels[p],
        labels[via.1] == labels[p],
        connected(items, radius, min_items, via.0, via.1),
{
    let seeds = choose|seeds: Seq<int>| #[trigger]
        is_clustering(items, radius, min_items, labels, seeds);
    let near_p = lemma_core_near(items, radius, min_items, labels, seeds, p);
    let near_q = lemma_core_near(items, radius, min_items, labels, seeds, q);
    let first = seeds[label_id(labels[p]) - 1];
    assert(connected(items, radius, min_items, first, near_p));
    assert(connected(items, radius, min_items, first, near_q));
    lemma_connected_symmetric(items, radius, min_items, first, near_p);
    lemma_connected_transitive(items, radius, min_items, near_p, first, near_q);
    (near_p, near_q)
}

/// A labeled point lies in the neighbourhood of a core point with its label.
proof fn lemma_core_near<T: KdTreeItem>(
    items: Seq<T>,
    radius: real,
    min_items: nat,
    labels: Seq<DbscanLabel>,
    seeds: Seq<int>,
    p: int,
) -> (c: int)
    requires
        is_metric::<T>(),
        min_items >= 1,
        is_clustering(items, radius, min_items, labels, seeds),
        0 <= p < labels.len(),
        labels[p] != DbscanLabel::Noise,
    ensures
        is_core(items, radius, min_items, c),
        neighborhood(items, radius, c).contains(p),
        labels[c] == labels[p],
{
    if is_core(items, radius, min_items, p) {
        lemma_core_in_own_neighborhood(items, radius, min_items, p);
        p
    } else {
        choose|c: int|
            #[trigger] is_core(items, radius, min_items, c) && neighborhood(items, radius, c).contains(
                p,
            ) && labels[c] == labels[p]
    }
}

/// With a larger radius no clustered point becomes noise, and core points of
/// one cluster stay in one cluster.
pub proof fn lemma_radius_monotone<T: KdTreeItem>(
    items: Seq<T>,
    small: real,
    large: real,
    min_items: nat,
    before: Seq<DbscanLabel>,
    after: Seq<DbscanLabel>,
)
    requires
        is_metric::<T>(),
        min_items >= 1,
        small <= large,
        is_dbscan_labeling(items, small, min_items, before),
        is_dbscan_labeling(items, large, min_items, after),
    ensures
        forall|p: int|
            0 <= p < items.len() && #[trigger] before[p] != DbscanLabel::Noise ==> after[p]
                != DbscanLabel::Noise,
        forall|p: int, q: int|
            is_core(items, small, min_items, p) && is_core(items, small, min_items, q)
                && #[trigger] before[p] == #[trigger] before[q] ==> after[p] == after[q],
{
    let seeds = choose|seeds: Seq<int>| #[trigger]
        is_clustering(items, small, min_items, before, seeds);
    assert forall|p: int|
        0 <= p < items.len() && #[trigger] before[p] != DbscanLabel::Noise implies after[p]
        != DbscanLabel::Noise by {
        let c = lemma_core_near(items, small, min_items, before, seeds, p);
        lemma_core_grows(items, small, large, min_items, c);
        lemma_core_neighborhood(items, large, min_items, after, c, p);
    }
    assert forall|p: int, q: int|
        is_core(items, small, min_items, p) && is_core(items, small, min_items, q)
            && #[trigger] before[p] == #[trigger] before[q] implies after[p] == after[q] by {
        let first = seeds[label_id(before[p]) - 1];
        assert(connected(items, small, min_items, first, p));
        assert(connected(items, small, min_items, first, q));
        reveal(connected);
        let to_p = choose|chain: Seq<int>|
            #[trigger] is_core_chain(items, small, min_items, chain) && chain.first() == first
                && chain.last() == p;
        let to_q = choose|chain: Seq<int>|
            #[trigger] is_core_chain(items, small, min_items, chain) && chain.first() == first
                && chain.last() == q;
        lemma_chain_grows(items, small, large, min_items, to_p);
        lemma_chain_grows(items, small, large, min_items, to_q);
        lemma_chain_one_cluster(items, large, min_items, after, to_p);
        lemma_chain_one_cluster(items, large, min_items, after, to_q);
    }
}

/// Core points of one cluster of a labeling are in one cluster of every
/// labeling.
proof fn lemma_cores_stay_together<T: KdTreeItem>(
    items: Seq<T>,
    radius: real,
    min_items: nat,
    one: Seq<DbscanLabel>,
    seeds: Seq<int>,
    other: Seq<DbscanLabel>,
    c: int,
    d: int,
)
    requires
        is_metric::<T>(),
        is_clustering(items, radius, min_items, one, seeds),
        is_dbscan_labeling(items, radius, min_items, other),
        is_core(items, radius, min_items, c),
        is_core(items, radius, min_items, d),
        one[c] == one[d],
    ensures
        other[c] == other[d],
{
    let first = seeds[label_id(one[c]) - 1];
    assert(connected(items, radius, min_items, first, c));
    assert(connected(items, radius, min_items, first, d));
    reveal(connected);
    let to_c = choose|chain: Seq<int>|
        #[trigger] is_core_chain(items, radius, min_items, chain) && chain.first() == first
            && chain.last() == c;
    let to_d = choose|chain: Seq<int>|
        #[trigger] is_core_chain(items, radius, min_items, chain) && chain.first() == first
            && chain.last() == d;
    lemma_chain_one_cluster(items, radius, min_items, other, to_c);
    lemma_chain_one_cluster(items, radius, min_items, other, to_d);
}

/// A seed of one labeling is a seed of every labeling, of the same cluster.
proof fn lemma_seeds_agree<T: KdTreeItem>(
    items: Seq<T>,
    radius: real,
    min_items: nat,
    one: Seq<DbscanLabel>,
    seeds: Seq<int>,
    other: Seq<DbscanLabel>,
    other_seeds: Seq<int>,
    k: int,
)
    requires
        is_metric::<T>(),
        is_clustering(items, radius, min_items, one, seeds),
        is_clustering(items, radius, min_items, other, other_seeds),
        0 <= k < seeds.len(),
    ensures
        k < other_seeds.len(),
        other_seeds[k] == seeds[k],
    decreases k,
{
    let s = seeds[k];
    assert(is_core(items, radius, min_items, s));
    let m = label_id(other[s]);
    let again = other_seeds[m - 1];
    assert(is_core(items, radius, min_items, again));
    assert(other[again] == other[s]);
    lemma_cores_stay_together(items, radius, min_items, other, other_seeds, one, again, s);
    assert(again == s);
    if m - 1 < k {
        lemma_seeds_agree(items, radius, min_items, one, seeds, other, other_seeds, m - 1);
        assert(seeds[m - 1] < seeds[k]);
    } else if m - 1 > k {
        let t = other_seeds[k];
        assert(is_core(items, radius, min_items, t));
        let n = label_id(one[t]);
        let back = seeds[n - 1];
        assert(is_core(items, radius, min_items, back));
        assert(one[back] == one[t]);
        lemma_cores_stay_together(items, radius, min_items, one, seeds, other, back, t);
        assert(back == t);
        assert(other_seeds[k] < other_seeds[m - 1]);
        if n - 1 < k {
            lemma_seeds_agree(items, radius, min_items, one, seeds, other, other_seeds, n - 1);
            assert(other_seeds[n - 1] < other_seeds[k]);
        } else if n - 1 > k {
            assert(seeds[k] < seeds[n - 1]);
        }
    }
}

/// There is one DBSCAN labeling of given items with given parameters: the
/// labels do not depend on how the tree was built or walked.
pub proof fn lemma_labeling_unique<T: KdTreeItem>(
    items: Seq<T>,
    radius: real,
    min_items: nat,
    one: Seq<DbscanLabel>,
    other: Seq<DbscanLabel>,
)
    requires
        is_metric::<T>(),
        min_items >= 1,
        is_dbscan_labeling(items, radius, min_items, one),
        is_dbscan_labeling(items, radius, min_items, other),
    ensures
        one == other,
{
    let seeds = choose|seeds: Seq<int>| #[trigger]
        is_clustering(items, radius, min_items, one, seeds);
    let other_seeds = choose|seeds: Seq<int>| #[trigger]
        is_clustering(items, radius, min_items, other, seeds);
    assert forall|c: int| #[trigger] is_core(items, radius, min_items, c) implies one[c]
        == other[c] by {
        let k = label_id(one[c]) - 1;
        lemma_seeds_agree(items, radius, min_items, one, seeds, other, other_seeds, k);
        assert(is_core(items, radius, min_items, seeds[k]));
        assert(label_id(one[seeds[k]]) == label_id(one[c]));
        lemma_cores_stay_together(items, radius, min_items, one, seeds, other, seeds[k], c);
        assert(label_id(other[other_seeds[k]]) == k + 1);
    }
    assert forall|p: int| 0 <= p < items.len() implies one[p] == other[p] by {
        if !is_core(items, radius, min_items, p) {
            lemma_border_agrees(items, radius, min_items, one, seeds, other, other_seeds, p);
            lemma_border_agrees(items, radius, min_items, other, other_seeds, one, seeds, p);
        }
    }
    assert(one =~= other);
}

/// A point that is no core point has in every labeling a label that is no
/// later than the one it has in a labeling that agrees on the core points.
proof fn lemma_border_agrees<T: KdTreeItem>(
    items: Seq<T>,
    radius: real,
    min_items: nat,
    one: Seq<DbscanLabel>,
    seeds: Seq<int>,
    other: Seq<DbscanLabel>,
    other_seeds: Seq<int>,
    p: int,
)
    requires
        is_clustering(items, radius, min_items, one, seeds),
        is_clustering(items, radius, min_items, other, other_seeds),
        forall|c: int| #[trigger] is_core(items, radius, min_items, c) ==> one[c] == other[c],
        0 <= p < items.len(),
        !is_core(items, radius, min_items, p),
    ensures
        one[p] != DbscanLabel::Noise ==> other[p] != DbscanLabel::Noise && label_id(other[p])
            <= label_id(one[p]),
{
    if one[p] != DbscanLabel::Noise {
        let c = choose|c: int|
            #[trigger] is_core(items, radius, min_items, c) && neighborhood(
                items,
                radius,
                c,
            ).contains(p) && one[c] == one[p];
        assert(neighborhood(items, radius, c).contains(p));
    }
}

} // verus!
