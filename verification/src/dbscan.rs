//! DBSCAN: density-based clustering of the items of a metric space, on top of
//! the k-d tree's radius query.

use crate::clustering::is_dbscan_labeling;
use crate::clustering::neighborhood;
use crate::expansion::Progress;
use crate::expansion::in_progress;
use crate::expansion::lemma_begin;
use crate::expansion::lemma_finish;
use crate::expansion::lemma_group_done;
use crate::expansion::lemma_pass_noncore;
use crate::expansion::lemma_pass_visited;
use crate::expansion::lemma_seed;
use crate::expansion::lemma_unvisited_drops;
use crate::expansion::lemma_upgrade;
use crate::expansion::lemma_visit;
use crate::expansion::unvisited;
use crate::kdtree::KdTree;
use crate::kdtree::KdTreeItem;
use crate::kdtree::at_or_above;
use crate::kdtree::at_or_below;
use crate::kdtree::axis_order_total;
use crate::kdtree::below;
use crate::kdtree::computes_model;
use crate::kdtree::is_metric;
use crate::kdtree::lawful;
use crate::kdtree::measurements_ordered;
use crate::kdtree::parted;
use crate::kdtree::planes_bound;
use crate::range::items_of;
use crate::range::within;
use std::cmp::Ordering;
use std::collections::VecDeque;
use vstd::prelude::*;

verus! {

/// What DBSCAN says of one item: the cluster it belongs to, numbered from 1,
/// or that it is noise.
#[derive(Debug, Clone, Copy, PartialEq, Eq, Structural, PartialOrd, Ord)]
pub enum DbscanLabel {
    Cluster(usize),
    Noise,
}

/// An item together with its position in the input.
#[derive(Debug, Clone)]
struct Indexed<'a, T>(usize, &'a T);

impl<'a, T> Indexed<'a, T> {
    /// The item itself.
    pub closed spec fn item(&self) -> &'a T {
        self.1
    }
}

impl<'a, T: KdTreeItem> KdTreeItem for Indexed<'a, T> {
    type Measurement = T::Measurement;

    open spec fn comparable(m: Self::Measurement) -> bool {
        T::comparable(m)
    }

    open spec fn measure(m: Self::Measurement) -> real {
        T::measure(m)
    }

    closed spec fn axis_order(&self, rhs: &Self, depth: usize) -> Ordering {
        self.1.axis_order(rhs.1, depth)
    }

    closed spec fn dist(&self, other: &Self) -> real {
        self.1.dist(other.1)
    }

    closed spec fn axis_dist(&self, other: &Self, depth: usize) -> real {
        self.1.axis_dist(other.1, depth)
    }

    fn cmp_in_depth(&self, rhs: &Self, depth: usize) -> (o: Ordering)
        ensures
            call_ensures(T::cmp_in_depth, (self.item(), rhs.item(), depth), o),
    {
        self.1.cmp_in_depth(rhs.1, depth)
    }

    fn distance(&self, other: &Self) -> (m: Self::Measurement)
        ensures
            call_ensures(T::distance, (self.item(), other.item()), m),
    {
        self.1.distance(other.1)
    }

    fn distance_to_axis(&self, other: &Self, depth: usize) -> (m: Self::Measurement)
        ensures
            call_ensures(T::distance_to_axis, (self.item(), other.item(), depth), m),
    {
        self.1.distance_to_axis(other.1, depth)
    }
}

/// Items with their positions obey the laws that the items obey.
proof fn lemma_indexed_lawful<'a, T: KdTreeItem>()
    requires
        lawful::<T>(),
    ensures
        lawful::<Indexed<'a, T>>(),
{
    assert(computes_model::<Indexed<'a, T>>()) by {
        assert forall|a: Indexed<'a, T>, b: Indexed<'a, T>, depth: usize, o: Ordering| #[trigger]
            call_ensures(Indexed::<'a, T>::cmp_in_depth, (&a, &b, depth), o) implies o
            == a.axis_order(&b, depth) by {
            assert(call_ensures(T::cmp_in_depth, (a.1, b.1, depth), o));
        }
        assert forall|a: Indexed<'a, T>, b: Indexed<'a, T>, m: T::Measurement| #[trigger]
            call_ensures(Indexed::<'a, T>::distance, (&a, &b), m) implies T::comparable(m)
            && T::measure(m) == a.dist(&b) by {
            assert(call_ensures(T::distance, (a.1, b.1), m));
        }
        assert forall|a: Indexed<'a, T>, b: Indexed<'a, T>, depth: usize, m: T::Measurement| #[trigger]
            call_ensures(Indexed::<'a, T>::distance_to_axis, (&a, &b, depth), m)
            implies T::comparable(m) && T::measure(m) == a.axis_dist(&b, depth) by {
            assert(call_ensures(T::distance_to_axis, (a.1, b.1, depth), m));
        }
    }
    assert(measurements_ordered::<Indexed<'a, T>>());
    assert forall|depth: usize| #[trigger] axis_order_total::<Indexed<'a, T>>(depth) by {
        assert(axis_order_total::<T>(depth));
        assert forall|a: Indexed<'a, T>, b: Indexed<'a, T>| #[trigger]
            below(a, b, depth) <==> b.axis_order(&a, depth) == Ordering::Greater by {
            assert(below(*a.1, *b.1, depth) <==> b.1.axis_order(a.1, depth) == Ordering::Greater);
        }
        assert forall|a: Indexed<'a, T>, b: Indexed<'a, T>| #[trigger]
            at_or_below(a, b, depth) <==> at_or_above(b, a, depth) by {
            assert(at_or_below(*a.1, *b.1, depth) <==> at_or_above(*b.1, *a.1, depth));
        }
        assert forall|a: Indexed<'a, T>, b: Indexed<'a, T>, c: Indexed<'a, T>|
            #![trigger a.axis_order(&b, depth), b.axis_order(&c, depth), a.axis_order(&c, depth)]
            a.axis_order(&b, depth) == b.axis_order(&c, depth) implies a.axis_order(&c, depth)
            == a.axis_order(&b, depth) by {
            assert(a.1.axis_order(b.1, depth) == b.1.axis_order(c.1, depth) ==> a.1.axis_order(
                c.1,
                depth,
            ) == a.1.axis_order(b.1, depth));
        }
    }
    assert(is_metric::<Indexed<'a, T>>()) by {
        assert forall|a: Indexed<'a, T>, b: Indexed<'a, T>| #[trigger] a.dist(&b) == b.dist(&a) by {
            assert(a.1.dist(b.1) == b.1.dist(a.1));
        }
        assert forall|a: Indexed<'a, T>, b: Indexed<'a, T>, c: Indexed<'a, T>|
            #![trigger a.dist(&b), b.dist(&c), a.dist(&c)]
            a.dist(&c) <= a.dist(&b) + b.dist(&c) by {
            assert(a.1.dist(c.1) <= a.1.dist(b.1) + b.1.dist(c.1));
        }
    }
    assert(planes_bound::<Indexed<'a, T>>()) by {
        assert forall|q: Indexed<'a, T>, pivot: Indexed<'a, T>, x: Indexed<'a, T>, depth: usize| #[trigger]
            parted(q, pivot, x, depth) implies q.axis_dist(&pivot, depth) <= q.dist(&x) by {
            assert(parted(*q.1, *pivot.1, *x.1, depth));
        }
    }
}

/// `indexed` holds the items of `items`, each with its position.
spec fn tagged<'a, T>(items: Seq<T>, indexed: Seq<Indexed<'a, T>>) -> bool {
    &&& indexed.len() == items.len()
    &&& forall|i: int|
        0 <= i < items.len() ==> (#[trigger] indexed[i]).0 == i && *indexed[i].1 == items[i]
}

/// `group` is the neighbourhood of the item at position `owner`: it holds
/// each neighbour once, as the tree holds it.
spec fn is_group<'a, T: KdTreeItem>(
    items: Seq<T>,
    indexed: Seq<Indexed<'a, T>>,
    radius: real,
    owner: int,
    group: Seq<&Indexed<'a, T>>,
) -> bool {
    &&& group.len() == neighborhood(items, radius, owner).len()
    &&& forall|t: int|
        0 <= t < group.len() ==> 0 <= (#[trigger] group[t]).0 < items.len() && *group[t]
            == indexed[group[t].0 as int] && neighborhood(items, radius, owner).contains(
            group[t].0 as int,
        )
    &&& forall|q: int| #[trigger]
        neighborhood(items, radius, owner).contains(q) ==> exists|t: int|
            0 <= t < group.len() && (#[trigger] group[t]).0 == q
}

/// The groups that wait in the queue are the neighbourhoods of `owners`.
spec fn are_groups<'a, T: KdTreeItem>(
    items: Seq<T>,
    indexed: Seq<Indexed<'a, T>>,
    radius: real,
    owners: Seq<int>,
    groups: Seq<Vec<&Indexed<'a, T>>>,
) -> bool {
    &&& groups.len() == owners.len()
    &&& forall|j: int|
        0 <= j < groups.len() ==> is_group(items, indexed, radius, owners[j], (#[trigger] groups[j])@)
}

/// What a radius query on the tree of the indexed items finds around the
/// item at position `owner` is that item's neighbourhood.
proof fn lemma_range_group<'a, T: KdTreeItem>(
    items: Seq<T>,
    indexed: Seq<Indexed<'a, T>>,
    radius: real,
    owner: int,
    found: Seq<&Indexed<'a, T>>,
)
    requires
        tagged(items, indexed),
        0 <= owner < items.len(),
        items_of(found).to_multiset() == indexed.to_multiset().filter(
            within(indexed[owner], radius),
        ),
    ensures
        is_group(items, indexed, radius, owner, found),
{
    broadcast use vstd::multiset::group_multiset_axioms;

    let held = items_of(found);
    let all = indexed.to_multiset();
    let inside = within(indexed[owner], radius);
    let hood = neighborhood(items, radius, owner);
    held.to_multiset_ensures();
    indexed.to_multiset_ensures();
    assert(indexed.no_duplicates());
    indexed.lemma_multiset_has_no_duplicates();
    assert forall|t: int| 0 <= t < found.len() implies 0 <= (#[trigger] found[t]).0 < items.len()
        && *found[t] == indexed[found[t].0 as int] && hood.contains(found[t].0 as int) by {
        assert(held[t] == *found[t]);
        assert(held.contains(held[t]));
        assert(all.filter(inside).count(held[t]) > 0);
        assert(inside(held[t]));
        assert(indexed.contains(held[t]));
        let i = choose|i: int| 0 <= i < indexed.len() && indexed[i] == held[t];
        assert(indexed[i].0 == i);
    }
    assert forall|q: int| #[trigger] hood.contains(q) implies exists|t: int|
        0 <= t < found.len() && (#[trigger] found[t]).0 == q by {
        assert(indexed.contains(indexed[q]));
        assert(inside(indexed[q]));
        assert(all.filter(inside).count(indexed[q]) > 0);
        assert(held.contains(indexed[q]));
        let t = choose|t: int| 0 <= t < held.len() && held[t] == indexed[q];
        assert(*found[t] == held[t]);
    }
    assert forall|x: Indexed<'a, T>| held.to_multiset().contains(x) implies held.to_multiset().count(
        x,
    ) == 1 by {
        assert(all.count(x) > 0);
    }
    held.lemma_multiset_has_no_duplicates_conv();
    let places = found.map_values(|x: &Indexed<'a, T>| x.0 as int);
    assert forall|a: int, b: int|
        0 <= a < places.len() && 0 <= b < places.len() && a != b implies places[a] != places[b] by {
        assert(held[a] == *found[a] && held[b] == *found[b]);
        assert(held[a] != held[b]);
    }
    places.unique_seq_to_set();
    assert(places.to_set() =~= hood) by {
        assert forall|q: int| places.to_set().contains(q) == hood.contains(q) by {
            if places.contains(q) {
                let t = choose|t: int| 0 <= t < places.len() && places[t] == q;
                assert(found[t].0 == q);
            }
            if hood.contains(q) {
                let t = choose|t: int| 0 <= t < found.len() && (#[trigger] found[t]).0 == q;
                assert(places[t] == q);
            }
        }
    }
}

/// Labels every item of `items` with its cluster, or as noise.
///
/// A core point is an item with at least `min_items` items, itself included,
/// no farther than `epsilon` from it. Clusters are numbered from 1 in the
/// order in which their first core points stand in `items`.
pub fn dbscan<T: KdTreeItem>(items: Vec<T>, epsilon: T::Measurement, min_items: usize) -> (labels:
    Vec<DbscanLabel>)
    requires
        lawful::<T>(),
        min_items >= 1,
        T::comparable(epsilon),
    ensures
        labels@.len() == items@.len(),
        is_dbscan_labeling(items@, T::measure(epsilon), min_items as nat, labels@),
{
    let ghost radius = T::measure(epsilon);
    let ghost least = min_items as nat;
    let count = items.len();
    let mut indexed_items: Vec<Indexed<T>> = Vec::with_capacity(count);
    let mut at: usize = 0;
    while at < count
        invariant
            count == items@.len(),
            at <= count,
            indexed_items@.len() == at,
            forall|i: int|
                0 <= i < at ==> (#[trigger] indexed_items@[i]).0 == i && *indexed_items@[i].1
                    == items@[i],
        decreases count - at,
    {
        indexed_items.push(Indexed(at, &items[at]));
        at += 1;
    }
    let ghost indexed = indexed_items@;
    proof {
        lemma_indexed_lawful::<T>();
    }
    let kdtree = KdTree::construct(indexed_items);
    let mut core_neighbor_groups: VecDeque<Vec<&Indexed<T>>> = VecDeque::with_capacity(
        count / min_items,
    );

    let mut cluster_id: usize = 1;
    let mut labels: Vec<DbscanLabel> = Vec::with_capacity(count);
    let mut visited: Vec<bool> = Vec::with_capacity(count);
    let mut at: usize = 0;
    while at < count
        invariant
            at <= count,
            labels@.len() == at,
            visited@.len() == at,
            forall|p: int| 0 <= p < at ==> labels@[p] == DbscanLabel::Noise,
            forall|p: int| 0 <= p < at ==> !visited@[p],
        decreases count - at,
    {
        labels.push(DbscanLabel::Noise);
        visited.push(false);
        at += 1;
    }

    let ghost mut seeds: Seq<int> = Seq::empty();
    let ghost mut pending: Seq<int> = Seq::empty();
    proof {
        lemma_begin(
            items@,
            radius,
            least,
            Progress { labels: labels@, visited: visited@, seeds, pending, next: 0 },
        );
    }
    let mut at: usize = 0;
    while at < count
        invariant
            lawful::<T>(),
            lawful::<Indexed<T>>(),
            T::comparable(epsilon),
            radius == T::measure(epsilon),
            least == min_items,
            count == items@.len(),
            at <= count,
            tagged(items@, indexed),
            kdtree@ == indexed.to_multiset(),
            core_neighbor_groups@.len() == 0,
            pending.len() == 0,
            at < count ==> cluster_id == seeds.len() + 1,
            in_progress(
                items@,
                radius,
                least,
                Progress { labels: labels@, visited: visited@, seeds, pending, next: at as int },
            ),
        decreases count - at,
    {
        if visited[at] {
            proof {
                lemma_pass_visited(
                    items@,
                    radius,
                    least,
                    Progress { labels: labels@, visited: visited@, seeds, pending, next: at as int },
                );
            }
            at += 1;
            continue ;
        }
        let ghost before = Progress {
            labels: labels@,
            visited: visited@,
            seeds,
            pending,
            next: at as int,
        };
        visited.set(at, true);
        let item = Indexed(at, &items[at]);
        let neighbors = kdtree.find_range_n(&item, &epsilon);
        proof {
            assert(item == indexed[at as int]);
            lemma_range_group(items@, indexed, radius, at as int, neighbors@);
        }

        if neighbors.len() >= min_items {
            let cluster_label = DbscanLabel::Cluster(cluster_id);
            labels.set(at, cluster_label);
            core_neighbor_groups.push_back(neighbors);
            proof {
                lemma_seed(items@, radius, least, before, cluster_label);
                seeds = seeds.push(at as int);
                pending = seq![at as int];
            }
            while core_neighbor_groups.len() > 0
                invariant
                    lawful::<T>(),
                    lawful::<Indexed<T>>(),
                    T::comparable(epsilon),
                    radius == T::measure(epsilon),
                    least == min_items,
                    count == items@.len(),
                    at < count,
                    tagged(items@, indexed),
                    kdtree@ == indexed.to_multiset(),
                    cluster_label == DbscanLabel::Cluster(cluster_id),
                    cluster_id == seeds.len(),
                    cluster_id >= 1,
                    are_groups(items@, indexed, radius, pending, core_neighbor_groups@),
                    in_progress(
                        items@,
                        radius,
                        least,
                        Progress {
                            labels: labels@,
                            visited: visited@,
                            seeds,
                            pending,
                            next: at + 1,
                        },
                    ),
                decreases unvisited(visited@), core_neighbor_groups@.len(),
            {
                let ghost waiting = core_neighbor_groups@.len();
                let ghost to_visit = unvisited(visited@);
                let neighbors = core_neighbor_groups.pop_front().unwrap();
                let ghost owner = pending[0];
                let mut turn: usize = 0;
                while turn < neighbors.len()
                    invariant
                        lawful::<T>(),
                        lawful::<Indexed<T>>(),
                        T::comparable(epsilon),
                        radius == T::measure(epsilon),
                        least == min_items,
                        count == items@.len(),
                        at < count,
                        tagged(items@, indexed),
                        kdtree@ == indexed.to_multiset(),
                        cluster_label == DbscanLabel::Cluster(cluster_id),
                        cluster_id == seeds.len(),
                        turn <= neighbors@.len(),
                        pending.len() > 0,
                        pending[0] == owner,
                        is_group(items@, indexed, radius, owner, neighbors@),
                        are_groups(
                            items@,
                            indexed,
                            radius,
                            pending.drop_first(),
                            core_neighbor_groups@,
                        ),
                        forall|t: int|
                            0 <= t < turn ==> visited@[(#[trigger] neighbors@[t]).0 as int]
                                && labels@[neighbors@[t].0 as int] != DbscanLabel::Noise,
                        unvisited(visited@) <= to_visit,
                        unvisited(visited@) == to_visit ==> core_neighbor_groups@.len() + 1
                            == waiting,
                        in_progress(
                            items@,
                            radius,
                            least,
                            Progress {
                                labels: labels@,
                                visited: visited@,
                                seeds,
                                pending,
                                next: at + 1,
                            },
                        ),
                    decreases neighbors@.len() - turn,
                {
                    let neighbor = neighbors[turn];
                    let ghost q = neighbor.0 as int;
                    let ghost labels0 = labels@;
                    let ghost visited0 = visited@;
                    if !visited[neighbor.0] {
                        let ghost before = Progress {
                            labels: labels@,
                            visited: visited@,
                            seeds,
                            pending,
                            next: at + 1,
                        };
                        visited.set(neighbor.0, true);
                        labels.set(neighbor.0, cluster_label);

                        let sub_neighbors = kdtree.find_range_n(neighbor, &epsilon);
                        proof {
                            lemma_unvisited_drops(visited0, q);
                            lemma_range_group(items@, indexed, radius, q, sub_neighbors@);
                            lemma_visit(items@, radius, least, before, q, cluster_label);
                        }
                        if sub_neighbors.len() >= min_items {
                            core_neighbor_groups.push_back(sub_neighbors);
                            proof {
                                assert(pending.push(q).drop_first() =~= pending.drop_first().push(
                                    q,
                                ));
                                pending = pending.push(q);
                            }
                        }
                    }
                    if labels[neighbor.0] == DbscanLabel::Noise {
                        proof {
                            lemma_upgrade(
                                items@,
                                radius,
                                least,
                                Progress {
                                    labels: labels@,
                                    visited: visited@,
                                    seeds,
                                    pending,
                                    next: at + 1,
                                },
                                q,
                                cluster_label,
                            );
                        }
                        labels.set(neighbor.0, cluster_label);
                    }
                    proof {
                        assert forall|t: int| 0 <= t < turn + 1 implies visited@[(
                        #[trigger] neighbors@[t]).0 as int] && labels@[neighbors@[t].0 as int]
                            != DbscanLabel::Noise by {
                            if t < turn {
                                assert(visited0[neighbors@[t].0 as int]);
                                assert(labels0[neighbors@[t].0 as int] != DbscanLabel::Noise);
                            }
                        }
                    }
                    turn += 1;
                }
                proof {
                    let done = Progress {
                        labels: labels@,
                        visited: visited@,
                        seeds,
                        pending,
                        next: at + 1,
                    };
                    assert forall|q: int| #[trigger]
                        neighborhood(items@, radius, owner).contains(q) implies done.visited[q]
                        && done.labels[q] != DbscanLabel::Noise by {
                        let t = choose|t: int|
                            0 <= t < neighbors@.len() && (#[trigger] neighbors@[t]).0 == q;
                        assert(visited@[neighbors@[t].0 as int]);
                    }
                    lemma_group_done(items@, radius, least, done);
                    pending = pending.drop_first();
                }
            }

            proof {
                assert(seeds[seeds.len() - 1] < at + 1);
            }
            cluster_id = cluster_id.saturating_add(1);
        } else {
            proof {
                lemma_pass_noncore(items@, radius, least, before);
            }
        }
        at += 1;
    }
    proof {
        lemma_finish(
            items@,
            radius,
            least,
            Progress { labels: labels@, visited: visited@, seeds, pending, next: count as int },
        );
    }
    labels
}

} // verus!
