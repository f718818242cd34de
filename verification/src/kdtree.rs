//! A static k-d tree over items of a metric space.
//!
//! The tree is built once, by recursive median splits that cycle through the
//! axes, and is read-only afterwards. Its nodes live in one arena and refer to
//! each other by 1-based positions.

use crate::nearest::ascending_from;
use crate::nearest::is_closest;
use crate::nearest::is_nearest;
use crate::nearest::lemma_admit;
use crate::nearest::lemma_nearest_one;
use crate::nearest::lemma_pass_over;
use crate::nearest::lemma_replace;
use crate::range::is_range;
use crate::range::items_of;
use crate::range::within;
use std::cmp::Ordering;
use vstd::multiset::Multiset;
use vstd::prelude::*;
use vstd::std_specs::cmp::PartialOrdIs;
use vstd::std_specs::cmp::PartialOrdSpec;

verus! {

/// What a value must offer to be stored in a k-d tree: an order along each
/// splitting axis, a distance, and the distance to a splitting plane.
///
/// An implementation writes the three executable methods. The spec functions
/// are the mathematical model of an item, which contracts speak of; unless an
/// implementation states it, the model is read off the methods. What the tree
/// asks of the methods and the model is gathered in [`lawful`].
pub trait KdTreeItem: Clone {
    /// The scalar in which distances are measured.
    type Measurement: PartialOrd;

    /// Whether `m` takes part in the order of measurements. A measurement
    /// that does not even compare with itself (a NaN) does not.
    open spec fn comparable(m: Self::Measurement) -> bool {
        m.partial_cmp_spec(&m) == Some(Ordering::Equal)
    }

    /// The real number that a measurement stands for.
    open spec fn measure(m: Self::Measurement) -> real {
        (choose|scale: spec_fn(Self::Measurement) -> real| is_scale::<Self::Measurement>(scale))(m)
    }

    /// The order of two items along the axis that is split at `depth`.
    open spec fn axis_order(&self, rhs: &Self, depth: usize) -> Ordering {
        choose|o: Ordering| call_ensures(Self::cmp_in_depth, (self, rhs, depth), o)
    }

    /// The distance between two items.
    open spec fn dist(&self, other: &Self) -> real {
        Self::measure(
            choose|m: Self::Measurement| call_ensures(Self::distance, (self, other), m),
        )
    }

    /// The distance from `self` to the plane through `other` that splits at
    /// `depth`.
    open spec fn axis_dist(&self, other: &Self, depth: usize) -> real {
        Self::measure(
            choose|m: Self::Measurement|
                call_ensures(Self::distance_to_axis, (self, other, depth), m),
        )
    }

    /// Compares two items along the axis that is split at `depth`.
    fn cmp_in_depth(&self, rhs: &Self, depth: usize) -> Ordering;

    /// Computes the distance between two items.
    fn distance(&self, other: &Self) -> Self::Measurement;

    /// Computes the distance from `self` to the plane through `other` that
    /// splits at `depth`.
    fn distance_to_axis(&self, other: &Self, depth: usize) -> Self::Measurement;
}

/// `scale` maps the measurements that compare with themselves to real
/// numbers in their order.
pub open spec fn is_scale<M: PartialOrd>(scale: spec_fn(M) -> real) -> bool {
    forall|a: M, b: M|
        a.partial_cmp_spec(&a) == Some(Ordering::Equal) && b.partial_cmp_spec(&b) == Some(
            Ordering::Equal,
        ) ==> (a.is_lt(&b) <==> #[trigger] scale(a) < #[trigger] scale(b)) && (a.is_le(&b)
            <==> scale(a) <= scale(b))
}

/// `x` lies strictly on the low side of the plane through `pivot`.
pub open spec fn below<T: KdTreeItem>(x: T, pivot: T, depth: usize) -> bool {
    x.axis_order(&pivot, depth) == Ordering::Less
}

/// `x` lies on the low side of the plane through `pivot`, or on the plane.
pub open spec fn at_or_below<T: KdTreeItem>(x: T, pivot: T, depth: usize) -> bool {
    x.axis_order(&pivot, depth) != Ordering::Greater
}

/// `x` lies on the high side of the plane through `pivot`, or on the plane.
pub open spec fn at_or_above<T: KdTreeItem>(x: T, pivot: T, depth: usize) -> bool {
    x.axis_order(&pivot, depth) != Ordering::Less
}

/// The plane through `pivot` parts `q` from `x`: `q` lies strictly below it
/// and `x` does not, or `q` lies on or above it and `x` on or below.
pub open spec fn parted<T: KdTreeItem>(q: T, pivot: T, x: T, depth: usize) -> bool {
    if below(q, pivot, depth) {
        at_or_above(x, pivot, depth)
    } else {
        at_or_below(x, pivot, depth)
    }
}

/// The methods of `T` compute its model, and every measurement they return
/// is comparable.
pub open spec fn computes_model<T: KdTreeItem>() -> bool {
    &&& forall|a: T, b: T, depth: usize, o: Ordering| #[trigger]
        call_ensures(T::cmp_in_depth, (&a, &b, depth), o) ==> o == a.axis_order(&b, depth)
    &&& forall|a: T, b: T, m: T::Measurement| #[trigger]
        call_ensures(T::distance, (&a, &b), m) ==> T::comparable(m) && T::measure(m) == a.dist(
            &b,
        )
    &&& forall|a: T, b: T, depth: usize, m: T::Measurement| #[trigger]
        call_ensures(T::distance_to_axis, (&a, &b, depth), m) ==> T::comparable(m) && T::measure(
            m,
        ) == a.axis_dist(&b, depth)
}

/// Comparable measurements are ordered as the numbers they stand for.
pub open spec fn measurements_ordered<T: KdTreeItem>() -> bool {
    &&& T::Measurement::obeys_partial_cmp_spec()
    &&& forall|a: T::Measurement, b: T::Measurement|
        T::comparable(a) && T::comparable(b) ==> (a.is_lt(&b) <==> #[trigger] T::measure(a)
            < #[trigger] T::measure(b)) && (a.is_le(&b) <==> T::measure(a) <= T::measure(b))
}

/// Along the axis split at `depth` the items are totally ordered, ties
/// allowed.
pub open spec fn axis_order_total<T: KdTreeItem>(depth: usize) -> bool {
    &&& forall|a: T, b: T| #[trigger]
        below(a, b, depth) <==> b.axis_order(&a, depth) == Ordering::Greater
    &&& forall|a: T, b: T| #[trigger] at_or_below(a, b, depth) <==> at_or_above(b, a, depth)
    &&& forall|a: T, b: T, c: T|
        #![trigger a.axis_order(&b, depth), b.axis_order(&c, depth), a.axis_order(&c, depth)]
        a.axis_order(&b, depth) == b.axis_order(&c, depth) ==> a.axis_order(&c, depth)
            == a.axis_order(&b, depth)
}

/// The distance is a metric: zero from an item to itself, never negative,
/// symmetric, and it obeys the triangle inequality.
pub open spec fn is_metric<T: KdTreeItem>() -> bool {
    &&& forall|a: T| #[trigger] a.dist(&a) == 0 as real
    &&& forall|a: T, b: T| #[trigger] a.dist(&b) >= 0 as real
    &&& forall|a: T, b: T| #[trigger] a.dist(&b) == b.dist(&a)
    &&& forall|a: T, b: T, c: T|
        #![trigger a.dist(&b), b.dist(&c), a.dist(&c)]
        a.dist(&c) <= a.dist(&b) + b.dist(&c)
}

/// An item is at least as far from another as the splitting plane that parts
/// the two.
pub open spec fn planes_bound<T: KdTreeItem>() -> bool {
    forall|q: T, pivot: T, x: T, depth: usize| #[trigger]
        parted(q, pivot, x, depth) ==> q.axis_dist(&pivot, depth) <= q.dist(&x)
}

/// What the tree and the clustering ask of an item type: its methods compute
/// its model, its measurements are totally ordered, each axis orders the items
/// totally, the distance is a metric, and no item is nearer than a plane that
/// parts it from the query.
pub open spec fn lawful<T: KdTreeItem>() -> bool {
    &&& computes_model::<T>()
    &&& measurements_ordered::<T>()
    &&& forall|depth: usize| #[trigger] axis_order_total::<T>(depth)
    &&& is_metric::<T>()
    &&& planes_bound::<T>()
}

/// Compares two items along the axis that is split at `depth`.
fn axis_cmp<T: KdTreeItem>(a: &T, b: &T, depth: usize) -> (o: Ordering)
    requires
        lawful::<T>(),
    ensures
        o == a.axis_order(b, depth),
{
    a.cmp_in_depth(b, depth)
}

/// The distance between two items.
fn distance_between<T: KdTreeItem>(a: &T, b: &T) -> (m: T::Measurement)
    requires
        lawful::<T>(),
    ensures
        T::comparable(m),
        T::measure(m) == a.dist(b),
{
    a.distance(b)
}

/// The distance from `a` to the plane through `b` that splits at `depth`.
fn distance_to_plane<T: KdTreeItem>(a: &T, b: &T, depth: usize) -> (m: T::Measurement)
    requires
        lawful::<T>(),
    ensures
        T::comparable(m),
        T::measure(m) == a.axis_dist(b, depth),
{
    a.distance_to_axis(b, depth)
}

/// Whether measurement `a` is less than `b`.
fn measure_lt<T: KdTreeItem>(a: &T::Measurement, b: &T::Measurement) -> (r: bool)
    requires
        lawful::<T>(),
        T::comparable(*a),
        T::comparable(*b),
    ensures
        r == (T::measure(*a) < T::measure(*b)),
{
    *a < *b
}

/// Whether measurement `a` is at most `b`.
fn measure_le<T: KdTreeItem>(a: &T::Measurement, b: &T::Measurement) -> (r: bool)
    requires
        lawful::<T>(),
        T::comparable(*a),
        T::comparable(*b),
    ensures
        r == (T::measure(*a) <= T::measure(*b)),
{
    *a <= *b
}

/// The first `n` elements of `s`.
spec fn prefix<A>(s: Seq<A>, n: usize) -> Seq<A> {
    s.take(n as int)
}

/// What is left of `s` behind its first `n` elements.
spec fn suffix<A>(s: Seq<A>, n: usize) -> Seq<A> {
    s.skip(n as int)
}

/// `s` ascends along the axis split at `depth`.
spec fn sorted_in_depth<T: KdTreeItem>(s: Seq<T>, depth: usize) -> bool {
    forall|i: int, j: int| 0 <= i < j < s.len() ==> at_or_below(#[trigger] s[i], #[trigger] s[j], depth)
}

/// `slice::sort_unstable_by` on the elements of `items` from `start` on, with
/// the order along the axis split at `depth` as the comparison. The standard
/// library documents that it sorts the slice in ascending order by a
/// comparison that is a total order, in place and without keeping the order of
/// equal elements: what comes back holds the same elements, ascending, and
/// nothing before `start` is touched. That the comparison is a total order is
/// part of `lawful`. Nothing of this is proved here.
#[verifier::external_body]
fn sort_tail_in_depth<T: KdTreeItem>(items: &mut Vec<T>, start: usize, depth: usize)
    requires
        lawful::<T>(),
        start <= old(items)@.len(),
    ensures
        final(items)@.len() == old(items)@.len(),
        prefix(final(items)@, start) == prefix(old(items)@, start),
        suffix(final(items)@, start).to_multiset() == suffix(old(items)@, start).to_multiset(),
        sorted_in_depth(suffix(final(items)@, start), depth),
{
    items[start..].sort_unstable_by(|lhs, rhs| axis_cmp(lhs, rhs, depth));
}

/// A node of the tree: one item and the arena positions of its two children.
struct Node<T> {
    item: T,
    left_index: Option<usize>,
    right_index: Option<usize>,
}

/// A k-d tree. Its view is the multiset of the items it holds.
pub struct KdTree<T: KdTreeItem> {
    nodes: Vec<Node<T>>,
    root_index: Option<usize>,
}

/// The arena position behind a link, 0 for an absent one.
spec fn link_rank(link: Option<usize>) -> nat {
    match link {
        None => 0,
        Some(i) => i as nat,
    }
}

/// The depth of the children of a node at `depth`.
spec fn deeper(depth: usize) -> usize {
    (depth + 1) as usize
}

/// The items of the subtree behind `link`.
spec fn subtree_items<T>(nodes: Seq<Node<T>>, link: Option<usize>) -> Multiset<T>
    decreases link_rank(link),
{
    match link {
        None => Multiset::empty(),
        Some(i) => if 0 < i <= nodes.len() {
            let node = nodes[i - 1];
            let left = if link_rank(node.left_index) < i {
                subtree_items(nodes, node.left_index)
            } else {
                Multiset::empty()
            };
            let right = if link_rank(node.right_index) < i {
                subtree_items(nodes, node.right_index)
            } else {
                Multiset::empty()
            };
            left.add(right).insert(node.item)
        } else {
            Multiset::empty()
        },
    }
}

/// The subtree behind `link`, rooted at `depth`, is a k-d tree: links point
/// backwards in the arena, each node is a median of its subtree along the
/// axis of its depth, nothing in its left subtree lies above it and nothing
/// in its right subtree below.
spec fn subtree_wf<T: KdTreeItem>(nodes: Seq<Node<T>>, link: Option<usize>, depth: usize) -> bool
    decreases link_rank(link),
{
    match link {
        None => true,
        Some(i) => {
            &&& 0 < i <= nodes.len()
            &&& depth + i <= usize::MAX
            &&& link_rank(nodes[i - 1].left_index) < i
            &&& link_rank(nodes[i - 1].right_index) < i
            &&& subtree_wf(nodes, nodes[i - 1].left_index, deeper(depth))
            &&& subtree_wf(nodes, nodes[i - 1].right_index, deeper(depth))
            &&& subtree_items(nodes, nodes[i - 1].left_index).len() == subtree_items(
                nodes,
                link,
            ).len() / 2
            &&& forall|x: T| #[trigger]
                subtree_items(nodes, nodes[i - 1].left_index).contains(x) ==> at_or_below(
                    x,
                    nodes[i - 1].item,
                    depth,
                )
            &&& forall|x: T| #[trigger]
                subtree_items(nodes, nodes[i - 1].right_index).contains(x) ==> at_or_above(
                    x,
                    nodes[i - 1].item,
                    depth,
                )
        },
    }
}

/// A subtree does not change when nodes are appended to the arena.
proof fn lemma_subtree_stable<T: KdTreeItem>(
    a: Seq<Node<T>>,
    b: Seq<Node<T>>,
    link: Option<usize>,
    depth: usize,
)
    requires
        a.len() <= b.len(),
        forall|i: int| 0 <= i < a.len() ==> a[i] == b[i],
        link_rank(link) <= a.len(),
    ensures
        subtree_items(b, link) == subtree_items(a, link),
        subtree_wf(b, link, depth) == subtree_wf(a, link, depth),
    decreases link_rank(link),
{
    if let Some(i) = link {
        if 0 < i {
            let node = a[i - 1];
            if link_rank(node.left_index) < i {
                lemma_subtree_stable(a, b, node.left_index, deeper(depth));
            }
            if link_rank(node.right_index) < i {
                lemma_subtree_stable(a, b, node.right_index, deeper(depth));
            }
        }
    }
}

/// Appends `node` to the arena and returns its 1-based position.
fn allocate_node<T: KdTreeItem>(nodes: &mut Vec<Node<T>>, node: Node<T>) -> (index: usize)
    ensures
        final(nodes)@ == old(nodes)@.push(node),
        index == final(nodes)@.len(),
{
    nodes.push(node);
    nodes.len()
}

/// A sequence is, as a multiset, one of its elements with what stands before
/// and behind it.
proof fn lemma_split_at<T>(s: Seq<T>, k: int)
    requires
        0 <= k < s.len(),
    ensures
        s.to_multiset() == s.take(k).to_multiset().add(s.skip(k + 1).to_multiset()).insert(s[k]),
{
    broadcast use vstd::seq_lib::group_to_multiset_ensures;

    let lower = s.take(k);
    let upper = s.skip(k + 1);
    assert(s =~= (lower + seq![s[k]]) + upper);
    vstd::seq_lib::lemma_multiset_commutative(lower + seq![s[k]], upper);
    vstd::seq_lib::lemma_multiset_commutative(lower, seq![s[k]]);
    assert(seq![s[k]] =~= Seq::<T>::empty().push(s[k]));
    assert(seq![s[k]].to_multiset() =~= Multiset::<T>::empty().insert(s[k]));
    assert(s.to_multiset() =~= lower.to_multiset().add(upper.to_multiset()).insert(s[k]));
}

/// In an ascending sequence nothing before a position lies above its element,
/// and nothing behind it below.
proof fn lemma_sorted_split<T: KdTreeItem>(s: Seq<T>, k: int, depth: usize)
    requires
        lawful::<T>(),
        0 <= k < s.len(),
        sorted_in_depth(s, depth),
    ensures
        forall|x: T| #[trigger] s.take(k).to_multiset().contains(x) ==> at_or_below(x, s[k], depth),
        forall|x: T| #[trigger]
            s.skip(k + 1).to_multiset().contains(x) ==> at_or_above(x, s[k], depth),
{
    broadcast use vstd::seq_lib::group_to_multiset_ensures;

    assert(axis_order_total::<T>(depth));
    assert forall|x: T| #[trigger] s.take(k).to_multiset().contains(x) implies at_or_below(
        x,
        s[k],
        depth,
    ) by {
        let lower = s.take(k);
        assert(lower.contains(x));
        let j = choose|j: int| 0 <= j < lower.len() && lower[j] == x;
        assert(s[j] == x);
    }
    assert forall|x: T| #[trigger] s.skip(k + 1).to_multiset().contains(x) implies at_or_above(
        x,
        s[k],
        depth,
    ) by {
        let upper = s.skip(k + 1);
        assert(upper.contains(x));
        let j = choose|j: int| 0 <= j < upper.len() && upper[j] == x;
        assert(s[k + 1 + j] == x);
        assert(at_or_below(s[k], x, depth));
    }
}

/// A node appended behind its two wellformed subtrees roots a wellformed
/// subtree, if it is a median that parts them.
proof fn lemma_new_node<T: KdTreeItem>(
    before: Seq<Node<T>>,
    node: Node<T>,
    depth: usize,
    lower: Multiset<T>,
    upper: Multiset<T>,
)
    requires
        depth + before.len() + 1 <= usize::MAX,
        link_rank(node.left_index) <= before.len(),
        link_rank(node.right_index) <= before.len(),
        subtree_wf(before, node.left_index, deeper(depth)),
        subtree_wf(before, node.right_index, deeper(depth)),
        subtree_items(before, node.left_index) == lower,
        subtree_items(before, node.right_index) == upper,
        lower.len() == (lower.len() + upper.len() + 1) / 2,
        forall|x: T| #[trigger] lower.contains(x) ==> at_or_below(x, node.item, depth),
        forall|x: T| #[trigger] upper.contains(x) ==> at_or_above(x, node.item, depth),
    ensures
        subtree_wf(before.push(node), Some((before.len() + 1) as usize), depth),
        subtree_items(before.push(node), Some((before.len() + 1) as usize)) == lower.add(
            upper,
        ).insert(node.item),
{
    broadcast use vstd::multiset::group_multiset_axioms;

    let after = before.push(node);
    let link = Some((before.len() + 1) as usize);
    lemma_subtree_stable(before, after, node.left_index, deeper(depth));
    lemma_subtree_stable(before, after, node.right_index, deeper(depth));
    assert(after[before.len() as int] == node);
    assert(subtree_items(after, link) =~= lower.add(upper).insert(node.item));
    assert(subtree_items(after, link).len() == lower.len() + upper.len() + 1);
}

/// Builds the subtree of the items from `start` on, rooted at `depth`, and
/// takes them out of `items`.
fn construct_part<T: KdTreeItem>(
    nodes: &mut Vec<Node<T>>,
    items: &mut Vec<T>,
    start: usize,
    depth: usize,
) -> (link: Option<usize>)
    requires
        lawful::<T>(),
        start <= old(items)@.len(),
        depth + old(nodes)@.len() + (old(items)@.len() - start) <= usize::MAX,
    ensures
        final(items)@ == prefix(old(items)@, start),
        final(nodes)@.len() == old(nodes)@.len() + (old(items)@.len() - start),
        final(nodes)@.take(old(nodes)@.len() as int) == old(nodes)@,
        link_rank(link) == (if old(items)@.len() == start {
            0
        } else {
            final(nodes)@.len()
        }),
        subtree_wf(final(nodes)@, link, depth),
        subtree_items(final(nodes)@, link) == suffix(old(items)@, start).to_multiset(),
    decreases old(items)@.len() - start,
{
    let ghost nodes0 = nodes@;
    let ghost items0 = items@;
    let count: usize = items.len() - start;
    if count == 0 {
        proof {
            assert(items@ =~= prefix(items0, start));
            assert(nodes@.take(nodes0.len() as int) =~= nodes0);
            assert(suffix(items0, start) =~= Seq::<T>::empty());
            Seq::<T>::empty().to_multiset_ensures();
        }
        return None;
    }
    if count == 1 {
        let item = items.pop().unwrap();
        let index = allocate_node(nodes, Node { item, left_index: None, right_index: None });
        proof {
            assert(items@ =~= prefix(items0, start));
            assert(nodes@.take(nodes0.len() as int) =~= nodes0);
            assert(suffix(items0, start).take(0) =~= Seq::<T>::empty());
            assert(suffix(items0, start).skip(1) =~= Seq::<T>::empty());
            Seq::<T>::empty().to_multiset_ensures();
            lemma_split_at(suffix(items0, start), 0);
            assert(subtree_items(nodes0, None) =~= Multiset::<T>::empty());
            assert(subtree_wf(nodes0, None, deeper(depth)));
            lemma_new_node(
                nodes0,
                Node { item, left_index: None, right_index: None },
                depth,
                Multiset::empty(),
                Multiset::empty(),
            );
        }
        return Some(index);
    }
    sort_tail_in_depth(items, start, depth);
    let ghost sorted = items@;
    let ghost tail = suffix(sorted, start);
    let mid: usize = start + count / 2;

    let right_index = construct_part(nodes, items, mid + 1, depth + 1);
    let ghost nodes1 = nodes@;
    let mid_item = items.pop().unwrap();
    proof {
        assert(items@ =~= sorted.take(mid as int));
        assert(suffix(sorted, (mid + 1) as usize) =~= tail.skip(mid - start + 1));
        assert(suffix(items@, start) =~= tail.take(mid - start));
        assert(prefix(items@, start) =~= prefix(sorted, start));
    }
    let left_index = construct_part(nodes, items, start, depth + 1);
    let ghost nodes2 = nodes@;
    let ghost node = Node { item: mid_item, left_index, right_index };
    let mid_node_index = allocate_node(nodes, Node { item: mid_item, left_index, right_index });

    proof {
        let k = mid - start;
        let lower = tail.take(k).to_multiset();
        let upper = tail.skip(k + 1).to_multiset();
        assert(mid_item == tail[k]);
        assert forall|i: int| 0 <= i < nodes1.len() implies nodes1[i] == nodes2[i] by {
            assert(nodes2.take(nodes1.len() as int)[i] == nodes2[i]);
        }
        assert(nodes@.take(nodes0.len() as int) =~= nodes0) by {
            assert forall|i: int| 0 <= i < nodes0.len() implies nodes0[i] == nodes@[i] by {
                assert(nodes1.take(nodes0.len() as int)[i] == nodes1[i]);
            }
        }
        lemma_subtree_stable(nodes1, nodes2, right_index, deeper(depth));
        lemma_split_at(tail, k);
        lemma_sorted_split(tail, k, depth);
        tail.take(k).to_multiset_ensures();
        tail.skip(k + 1).to_multiset_ensures();
        lemma_new_node(nodes2, node, depth, lower, upper);
    }
    Some(mid_node_index)
}

/// `pivot` is a median of `items` along the axis split at `depth`: the other
/// items fall into a lower half, none of it above `pivot`, and an upper half,
/// none of it below.
pub open spec fn is_median<T: KdTreeItem>(items: Multiset<T>, pivot: T, depth: usize) -> bool {
    exists|lower: Multiset<T>, upper: Multiset<T>|
        {
            &&& items == #[trigger] lower.add(upper).insert(pivot)
            &&& lower.len() == items.len() / 2
            &&& forall|x: T| lower.contains(x) ==> at_or_below(x, pivot, depth)
            &&& forall|x: T| upper.contains(x) ==> at_or_above(x, pivot, depth)
        }
}

/// Whether `query` lies strictly on the low side of the plane through `pivot`.
fn is_below<T: KdTreeItem>(query: &T, pivot: &T, depth: usize) -> (r: bool)
    requires
        lawful::<T>(),
    ensures
        r == below(*query, *pivot, depth),
{
    match axis_cmp(query, pivot, depth) {
        Ordering::Less => true,
        Ordering::Equal | Ordering::Greater => false,
    }
}

/// The subtree on the far side of a node's plane holds nothing nearer to
/// `query` than the plane.
proof fn lemma_far_side<T: KdTreeItem>(
    nodes: Seq<Node<T>>,
    link: Option<usize>,
    depth: usize,
    query: T,
)
    requires
        lawful::<T>(),
        link.is_some(),
        subtree_wf(nodes, link, depth),
    ensures
        forall|x: T| #[trigger]
            subtree_items(nodes, far_link(nodes, link, depth, query)).contains(x)
                ==> query.axis_dist(&nodes[link.unwrap() - 1].item, depth) <= query.dist(&x),
{
    let node = nodes[link.unwrap() - 1];
    assert forall|x: T| #[trigger]
        subtree_items(nodes, far_link(nodes, link, depth, query)).contains(x) implies query.axis_dist(
        &node.item,
        depth,
    ) <= query.dist(&x) by {
        assert(parted(query, node.item, x, depth));
    }
}

/// The child of the node behind `link` on whose side of the plane `query`
/// lies.
spec fn near_link<T: KdTreeItem>(
    nodes: Seq<Node<T>>,
    link: Option<usize>,
    depth: usize,
    query: T,
) -> Option<usize> {
    let node = nodes[link.unwrap() - 1];
    if below(query, node.item, depth) {
        node.left_index
    } else {
        node.right_index
    }
}

/// The child of the node behind `link` on the other side of the plane.
spec fn far_link<T: KdTreeItem>(
    nodes: Seq<Node<T>>,
    link: Option<usize>,
    depth: usize,
    query: T,
) -> Option<usize> {
    let node = nodes[link.unwrap() - 1];
    if below(query, node.item, depth) {
        node.right_index
    } else {
        node.left_index
    }
}

/// A wellformed subtree is its root's item with the items of the near and of
/// the far child, and both children are wellformed one level down.
proof fn lemma_subtree_split<T: KdTreeItem>(
    nodes: Seq<Node<T>>,
    link: Option<usize>,
    depth: usize,
    query: T,
)
    requires
        link.is_some(),
        subtree_wf(nodes, link, depth),
    ensures
        0 < link.unwrap() <= nodes.len(),
        depth < usize::MAX,
        link_rank(near_link(nodes, link, depth, query)) < link_rank(link),
        link_rank(far_link(nodes, link, depth, query)) < link_rank(link),
        subtree_wf(nodes, near_link(nodes, link, depth, query), deeper(depth)),
        subtree_wf(nodes, far_link(nodes, link, depth, query), deeper(depth)),
        subtree_items(nodes, link) == subtree_items(
            nodes,
            near_link(nodes, link, depth, query),
        ).add(subtree_items(nodes, far_link(nodes, link, depth, query))).insert(
            nodes[link.unwrap() - 1].item,
        ),
{
    let node = nodes[link.unwrap() - 1];
    let near = subtree_items(nodes, near_link(nodes, link, depth, query));
    let far = subtree_items(nodes, far_link(nodes, link, depth, query));
    assert(subtree_items(nodes, link) =~= near.add(far).insert(node.item));
}

/// An item met on the way through the tree, with its distance from the query.
struct NeighborCandidate<'a, T: KdTreeItem>(&'a T, T::Measurement);

/// The items of a sequence of candidates.
spec fn candidate_items<'a, T: KdTreeItem>(candidates: Seq<NeighborCandidate<'a, T>>) -> Seq<T> {
    candidates.map_values(|c: NeighborCandidate<'a, T>| *c.0)
}

/// Each candidate carries its item's distance from `query`, and the
/// candidates stand in the order of their distances, nearest first.
spec fn candidates_wf<'a, T: KdTreeItem>(
    candidates: Seq<NeighborCandidate<'a, T>>,
    query: T,
) -> bool {
    &&& forall|i: int|
        0 <= i < candidates.len() ==> T::comparable(#[trigger] candidates[i].1) && T::measure(
            candidates[i].1,
        ) == query.dist(candidates[i].0)
    &&& ascending_from(query, candidate_items(candidates))
}

/// Puts `candidate` into `candidates` behind every candidate that is not
/// farther from the query than it.
fn push_candidate<'a, T: KdTreeItem>(
    candidates: &mut Vec<NeighborCandidate<'a, T>>,
    candidate: NeighborCandidate<'a, T>,
    Ghost(query): Ghost<T>,
) -> (at: Ghost<int>)
    requires
        lawful::<T>(),
        candidates_wf(old(candidates)@, query),
        T::comparable(candidate.1),
        T::measure(candidate.1) == query.dist(candidate.0),
    ensures
        0 <= at@ <= old(candidates)@.len(),
        final(candidates)@ == old(candidates)@.insert(at@, candidate),
        candidate_items(final(candidates)@) == candidate_items(old(candidates)@).insert(
            at@,
            *candidate.0,
        ),
        candidates_wf(final(candidates)@, query),
{
    let ghost before = candidates@;
    let mut at: usize = candidates.len();
    while at > 0 && measure_lt::<T>(&candidate.1, &candidates[at - 1].1)
        invariant
            lawful::<T>(),
            candidates@ == before,
            candidates_wf(before, query),
            T::comparable(candidate.1),
            at <= before.len(),
            forall|j: int|
                at <= j < before.len() ==> T::measure(candidate.1) < T::measure(
                    #[trigger] before[j].1,
                ),
        decreases at,
    {
        at -= 1;
    }
    candidates.insert(at, candidate);
    proof {
        let after = candidates@;
        assert(candidate_items(after) =~= candidate_items(before).insert(at as int, *candidate.0));
        assert forall|i: int, j: int| 0 <= i < j < after.len() implies query.dist(
            &#[trigger] candidate_items(after)[i],
        ) <= query.dist(&#[trigger] candidate_items(after)[j]) by {
            let i0 = if i < at { i } else { i - 1 };
            let j0 = if j < at { j } else { j - 1 };
            if i != at && j != at {
                assert(query.dist(&candidate_items(before)[i0]) <= query.dist(
                    &candidate_items(before)[j0],
                ));
            } else if i == at {
                assert(T::measure(candidate.1) < T::measure(before[j0].1));
            } else {
                assert(at > 0 ==> T::measure(candidate.1) >= T::measure(before[at - 1].1));
                if i0 < at - 1 {
                    assert(query.dist(&candidate_items(before)[i0]) <= query.dist(
                        &candidate_items(before)[at - 1],
                    ));
                }
            }
        }
    }
    Ghost(at as int)
}

impl<T: KdTreeItem> View for KdTree<T> {
    type V = Multiset<T>;

    closed spec fn view(&self) -> Multiset<T> {
        subtree_items(self.nodes@, self.root_index)
    }
}

impl<T: KdTreeItem> KdTree<T> {
    /// The arena holds one node for each item, and the root's subtree is a
    /// k-d tree that holds them all.
    #[verifier::type_invariant]
    spec fn wf(self) -> bool {
        &&& subtree_wf(self.nodes@, self.root_index, 0)
        &&& subtree_items(self.nodes@, self.root_index).len() == self.nodes@.len()
    }

    /// Builds the tree of `items`.
    pub fn construct(items: Vec<T>) -> (tree: KdTree<T>)
        requires
            lawful::<T>(),
        ensures
            tree@ == items@.to_multiset(),
    {
        let mut items = items;
        let ghost items0 = items@;
        let mut nodes: Vec<Node<T>> = Vec::with_capacity(items.len());
        let root_index = construct_part(&mut nodes, &mut items, 0, 0);
        proof {
            assert(suffix(items0, 0) =~= items0);
            items0.to_multiset_ensures();
        }
        KdTree { nodes, root_index }
    }

    /// The item at the root: a median of all items along the first axis, or
    /// `None` for the empty tree.
    pub fn root(&self) -> (r: Option<&T>)
        ensures
            r.is_none() <==> self@.len() == 0,
            r matches Some(x) ==> is_median(self@, *x, 0),
    {
        proof {
            use_type_invariant(self);
        }
        match self.get_node(self.root_index) {
            None => None,
            Some(node) => {
                proof {
                    let lower = subtree_items(self.nodes@, node.left_index);
                    let upper = subtree_items(self.nodes@, node.right_index);
                    assert(self@ =~= lower.add(upper).insert(node.item));
                }
                Some(&node.item)
            },
        }
    }

    /// An item that is as near to `query` as any, or `None` for the empty
    /// tree.
    pub fn find_nearest<'a>(&'a self, query: &'a T) -> (nearest: Option<&'a T>)
        requires
            lawful::<T>(),
        ensures
            nearest.is_none() <==> self@.len() == 0,
            nearest matches Some(x) ==> is_closest(self@, *query, *x),
    {
        let found = self.find_nearest_n(query, 1);
        proof {
            lemma_nearest_one(self@, *query, items_of(found@));
        }
        if found.len() == 0 {
            None
        } else {
            Some(found[0])
        }
    }

    /// The `max_count` items nearest to `query`, nearest first, or all items
    /// if the tree holds fewer.
    pub fn find_nearest_n<'a>(&'a self, query: &'a T, max_count: usize) -> (nearest: Vec<&'a T>)
        requires
            lawful::<T>(),
        ensures
            is_nearest(self@, *query, max_count as nat, items_of(nearest@)),
    {
        proof {
            use_type_invariant(self);
        }
        let mut nearest: Vec<&'a T> = Vec::new();
        if max_count == 0 {
            proof {
                assert(items_of(nearest@) =~= Seq::<T>::empty());
                Seq::<T>::empty().to_multiset_ensures();
                assert(Seq::<T>::empty().to_multiset().subset_of(self@)) by {
                    broadcast use vstd::multiset::group_multiset_axioms;
                }
            }
            return nearest;
        }
        let room = if max_count < self.nodes.len() {
            max_count
        } else {
            self.nodes.len()
        };
        let mut candidates: Vec<NeighborCandidate<'a, T>> = Vec::with_capacity(room);
        let ghost nothing = Multiset::<T>::empty();
        proof {
            assert(candidate_items(candidates@) =~= Seq::<T>::empty());
            Seq::<T>::empty().to_multiset_ensures();
            assert(is_nearest(nothing, *query, max_count as nat, Seq::<T>::empty())) by {
                broadcast use vstd::multiset::group_multiset_axioms;
            }
        }
        self.find_nearest_n_depth(
            &mut candidates,
            max_count,
            self.root_index,
            query,
            0,
            Ghost(nothing),
        );
        proof {
            assert(nothing.add(self@) =~= self@) by {
                broadcast use vstd::multiset::group_multiset_axioms;
            }
        }
        let mut i: usize = 0;
        while i < candidates.len()
            invariant
                i <= candidates@.len(),
                nearest@.len() == i,
                forall|j: int| 0 <= j < i ==> *nearest@[j] == *candidates@[j].0,
            decreases candidates@.len() - i,
        {
            nearest.push(candidates[i].0);
            i += 1;
        }
        proof {
            assert(items_of(nearest@) =~= candidate_items(candidates@));
        }
        nearest
    }

    /// Looks at the items of the subtree behind `link` and keeps in
    /// `candidates` the `max_candidates` nearest to `query` of those and of
    /// the items of `pool`, which were looked at before.
    fn find_nearest_n_depth<'a>(
        &'a self,
        candidates: &mut Vec<NeighborCandidate<'a, T>>,
        max_candidates: usize,
        link: Option<usize>,
        query: &T,
        depth: usize,
        Ghost(pool): Ghost<Multiset<T>>,
    )
        requires
            lawful::<T>(),
            max_candidates > 0,
            subtree_wf(self.nodes@, link, depth),
            candidates_wf(old(candidates)@, *query),
            is_nearest(pool, *query, max_candidates as nat, candidate_items(old(candidates)@)),
        ensures
            candidates_wf(final(candidates)@, *query),
            is_nearest(
                pool.add(subtree_items(self.nodes@, link)),
                *query,
                max_candidates as nat,
                candidate_items(final(candidates)@),
            ),
        decreases link_rank(link),
    {
        let ghost count = max_candidates as nat;
        let ghost chosen0 = candidate_items(candidates@);
        let Some(node) = self.get_node(link) else {
            proof {
                assert(pool.add(subtree_items(self.nodes@, link)) =~= pool) by {
                    broadcast use vstd::multiset::group_multiset_axioms;
                }
            }
            return ;
        };
        proof {
            lemma_subtree_split(self.nodes@, link, depth, *query);
            lemma_far_side(self.nodes@, link, depth, *query);
        }
        let ghost near = subtree_items(self.nodes@, near_link(self.nodes@, link, depth, *query));
        let ghost far = subtree_items(self.nodes@, far_link(self.nodes@, link, depth, *query));
        let ghost pool1 = pool.insert(node.item);

        let node_distance = distance_between(query, &node.item);
        if candidates.len() < max_candidates {
            let at = push_candidate(
                candidates,
                NeighborCandidate(&node.item, node_distance),
                Ghost(*query),
            );
            proof {
                lemma_admit(pool, *query, count, chosen0, at@, node.item);
            }
        } else if measure_lt::<T>(&node_distance, &candidates[candidates.len() - 1].1) {
            proof {
                assert(chosen0.last() == *candidates@[candidates@.len() - 1].0);
                assert(candidate_items(candidates@.drop_last()) =~= chosen0.drop_last());
            }
            candidates.pop();
            let at = push_candidate(
                candidates,
                NeighborCandidate(&node.item, node_distance),
                Ghost(*query),
            );
            proof {
                lemma_replace(pool, *query, count, chosen0, at@, node.item);
            }
        } else {
            proof {
                let one = Multiset::<T>::empty().insert(node.item);
                assert(chosen0.last() == *candidates@[candidates@.len() - 1].0);
                assert forall|x: T| #[trigger] one.contains(x) implies query.dist(&chosen0.last())
                    <= query.dist(&x) by {
                    broadcast use vstd::multiset::group_multiset_axioms;
                }
                lemma_pass_over(pool, *query, count, chosen0, one);
                assert(pool.add(one) =~= pool1) by {
                    broadcast use vstd::multiset::group_multiset_axioms;
                }
            }
        }

        let (first, second) = if is_below(query, &node.item, depth) {
            (node.left_index, node.right_index)
        } else {
            (node.right_index, node.left_index)
        };
        self.find_nearest_n_depth(candidates, max_candidates, first, query, depth + 1, Ghost(pool1));
        let ghost pool2 = pool1.add(near);
        let ghost chosen2 = candidate_items(candidates@);

        if candidates.len() < max_candidates {
            self.find_nearest_n_depth(
                candidates,
                max_candidates,
                second,
                query,
                depth + 1,
                Ghost(pool2),
            );
        } else {
            let axis_distance = distance_to_plane(query, &node.item, depth);
            if measure_lt::<T>(&axis_distance, &candidates[candidates.len() - 1].1) {
                self.find_nearest_n_depth(
                    candidates,
                    max_candidates,
                    second,
                    query,
                    depth + 1,
                    Ghost(pool2),
                );
            } else {
                proof {
                    assert(chosen2.last() == *candidates@[candidates@.len() - 1].0);
                    lemma_pass_over(pool2, *query, count, chosen2, far);
                }
            }
        }
        proof {
            assert(pool2.add(far) =~= pool.add(subtree_items(self.nodes@, link))) by {
                broadcast use vstd::multiset::group_multiset_axioms;
            }
        }
    }

    /// All items no farther than `epsilon` from `query`, in no stated order.
    pub fn find_range_n<'a>(&'a self, query: &T, epsilon: &T::Measurement) -> (found: Vec<&'a T>)
        requires
            lawful::<T>(),
            T::comparable(*epsilon),
        ensures
            is_range(self@, *query, T::measure(*epsilon), items_of(found@)),
    {
        broadcast use vstd::seq_lib::group_to_multiset_ensures;

        proof {
            use_type_invariant(self);
        }
        let mut found: Vec<&'a T> = Vec::new();
        self.find_range_n_depth(&mut found, self.root_index, query, epsilon, 0);
        proof {
            assert(items_of(Seq::<&T>::empty()) =~= Seq::<T>::empty());
            assert(items_of(found@).to_multiset() =~= self@.filter(
                within(*query, T::measure(*epsilon)),
            ));
        }
        found
    }

    /// Appends to `found` the items of the subtree behind `link` that lie no
    /// farther than `epsilon` from `query`.
    fn find_range_n_depth<'a>(
        &'a self,
        found: &mut Vec<&'a T>,
        link: Option<usize>,
        query: &T,
        epsilon: &T::Measurement,
        depth: usize,
    )
        requires
            lawful::<T>(),
            T::comparable(*epsilon),
            subtree_wf(self.nodes@, link, depth),
        ensures
            items_of(final(found)@).to_multiset() == items_of(old(found)@).to_multiset().add(
                subtree_items(self.nodes@, link).filter(within(*query, T::measure(*epsilon))),
            ),
        decreases link_rank(link),
    {
        broadcast use vstd::seq_lib::group_to_multiset_ensures;
        broadcast use vstd::multiset::group_multiset_axioms;

        let ghost inside = within(*query, T::measure(*epsilon));
        let ghost found0 = items_of(found@);
        let Some(node) = self.get_node(link) else {
            proof {
                assert(items_of(found@).to_multiset() =~= found0.to_multiset().add(
                    subtree_items(self.nodes@, link).filter(inside),
                ));
            }
            return ;
        };
        proof {
            lemma_subtree_split(self.nodes@, link, depth, *query);
            lemma_far_side(self.nodes@, link, depth, *query);
        }
        let ghost near = subtree_items(self.nodes@, near_link(self.nodes@, link, depth, *query));
        let ghost far = subtree_items(self.nodes@, far_link(self.nodes@, link, depth, *query));

        let node_distance = distance_between(query, &node.item);
        if measure_le::<T>(&node_distance, epsilon) {
            found.push(&node.item);
            proof {
                assert(items_of(found@) =~= found0.push(node.item));
            }
        }
        let ghost found1 = items_of(found@);
        let (first, second) = if is_below(query, &node.item, depth) {
            (node.left_index, node.right_index)
        } else {
            (node.right_index, node.left_index)
        };
        self.find_range_n_depth(found, first, query, epsilon, depth + 1);
        let ghost found2 = items_of(found@);

        let axis_distance = distance_to_plane(query, &node.item, depth);
        if measure_le::<T>(&axis_distance, epsilon) {
            self.find_range_n_depth(found, second, query, epsilon, depth + 1);
        } else {
            proof {
                assert forall|x: T| far.filter(inside).count(x) == 0 by {
                    if far.contains(x) {
                        assert(!inside(x));
                    }
                }
                assert(far.filter(inside) =~= Multiset::<T>::empty());
            }
        }
        proof {
            assert(found1.to_multiset() =~= found0.to_multiset().add(
                Multiset::<T>::empty().insert(node.item).filter(inside),
            ));
            assert(found2.to_multiset() =~= found1.to_multiset().add(near.filter(inside)));
            assert(items_of(found@).to_multiset() =~= found2.to_multiset().add(far.filter(inside)));
            assert(near.add(far).insert(node.item).filter(inside) =~= Multiset::<T>::empty().insert(
                node.item,
            ).filter(inside).add(near.filter(inside)).add(far.filter(inside)));
            assert(items_of(found@).to_multiset() =~= found0.to_multiset().add(
                subtree_items(self.nodes@, link).filter(inside),
            ));
        }
    }

    /// The node behind `index`.
    #[inline]
    fn get_node(&self, index: Option<usize>) -> (node: Option<&Node<T>>)
        requires
            index matches Some(i) ==> 0 < i <= self.nodes@.len(),
        ensures
            index.is_none() ==> node.is_none(),
            index matches Some(i) ==> node == Some(&self.nodes@[i - 1]),
    {
        match index {
            None => None,
            Some(ip1) => Some(&self.nodes[ip1 - 1]),
        }
    }
}

} // verus!
