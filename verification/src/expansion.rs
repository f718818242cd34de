//! The state of a DBSCAN run between two steps, what holds of it, and how each
//! step keeps that.

use crate::clustering::connected;
use crate::clustering::is_clustering;
use crate::clustering::is_core;
use crate::clustering::is_core_chain;
use crate::clustering::label_id;
use crate::clustering::neighborhood;
use crate::dbscan::DbscanLabel;
use crate::kdtree::is_metric;
use crate::kdtree::KdTreeItem;
use vstd::prelude::*;

verus! {

/// How far a run has come.
pub struct Progress {
    /// The label of each position.
    pub labels: Seq<DbscanLabel>,
    /// Whether the neighbourhood of each position has been looked up.
    pub visited: Seq<bool>,
    /// The core point from which each cluster grew, cluster 1 first.
    pub seeds: Seq<int>,
    /// The core points whose neighbourhoods wait to be gone through, the one
    /// in hand first.
    pub pending: Seq<int>,
    /// The position at which the search for the next seed goes on.
    pub next: int,
}

/// The number of positions that are not visited yet.
pub open spec fn unvisited(visited: Seq<bool>) -> nat
    decreases visited.len(),
{
    if visited.len() == 0 {
        0
    } else {
        unvisited(visited.drop_last()) + if visited.last() {
            0nat
        } else {
            1nat
        }
    }
}

/// Visiting a position leaves one position less to visit.
pub proof fn lemma_unvisited_drops(visited: Seq<bool>, q: int)
    requires
        0 <= q < visited.len(),
        !visited[q],
    ensures
        unvisited(visited.update(q, true)) + 1 == unvisited(visited),
    decreases visited.len(),
{
    let after = visited.update(q, true);
    if q == visited.len() - 1 {
        assert(after.drop_last() =~= visited.drop_last());
    } else {
        assert(after.drop_last() =~= visited.drop_last().update(q, true));
        lemma_unvisited_drops(visited.drop_last(), q);
    }
}

/// The neighbourhood of the core point `c` has been gone through: all of it
/// is visited and labeled, with the cluster of `c` or an earlier one.
pub open spec fn closed_at<T: KdTreeItem>(
    items: Seq<T>,
    radius: real,
    pr: Progress,
    c: int,
) -> bool {
    forall|q: int| #[trigger]
        neighborhood(items, radius, c).contains(q) ==> pr.visited[q] && pr.labels[q]
            != DbscanLabel::Noise && label_id(pr.labels[q]) <= label_id(pr.labels[c])
}

/// The label of `p` is that of a core point in whose neighbourhood `p` lies.
pub open spec fn has_parent<T: KdTreeItem>(
    items: Seq<T>,
    radius: real,
    min_items: nat,
    labels: Seq<DbscanLabel>,
    p: int,
) -> bool {
    exists|c: int|
        #[trigger] is_core(items, radius, min_items, c) && neighborhood(items, radius, c).contains(p)
            && labels[c] == labels[p]
}

/// What holds of a run between any two of its steps.
pub open spec fn in_progress<T: KdTreeItem>(
    items: Seq<T>,
    radius: real,
    min_items: nat,
    pr: Progress,
) -> bool {
    &&& is_metric::<T>()
    &&& min_items >= 1
    &&& pr.labels.len() == items.len()
    &&& pr.visited.len() == items.len()
    &&& 0 <= pr.next <= items.len()
    &&& forall|p: int| 0 <= p < pr.next ==> #[trigger] pr.visited[p]
    &&& forall|p: int|
        0 <= p < items.len() && #[trigger] pr.labels[p] != DbscanLabel::Noise ==> pr.visited[p]
            && 1 <= label_id(pr.labels[p]) <= pr.seeds.len()
    &&& forall|k: int|
        0 <= k < pr.seeds.len() ==> is_core(items, radius, min_items, #[trigger] pr.seeds[k])
            && label_id(pr.labels[pr.seeds[k]]) == k + 1 && k <= pr.seeds[k] < pr.next
    &&& forall|j: int, k: int|
        0 <= j < k < pr.seeds.len() ==> #[trigger] pr.seeds[j] < #[trigger] pr.seeds[k]
    &&& forall|c: int|
        #[trigger] is_core(items, radius, min_items, c) && pr.visited[c] ==> {
            &&& pr.labels[c] != DbscanLabel::Noise
            &&& pr.seeds[label_id(pr.labels[c]) - 1] <= c
            &&& connected(items, radius, min_items, pr.seeds[label_id(pr.labels[c]) - 1], c)
            &&& closed_at(items, radius, pr, c) || (pr.pending.contains(c) && label_id(
                pr.labels[c],
            ) == pr.seeds.len())
        }
    &&& forall|p: int|
        0 <= p < items.len() && #[trigger] pr.labels[p] != DbscanLabel::Noise && !is_core(
            items,
            radius,
            min_items,
            p,
        ) ==> has_parent(items, radius, min_items, pr.labels, p)
    &&& forall|j: int|
        0 <= j < pr.pending.len() ==> is_core(items, radius, min_items, #[trigger] pr.pending[j])
            && pr.visited[pr.pending[j]] && label_id(pr.labels[pr.pending[j]]) == pr.seeds.len()
}

/// A core point is connected to itself.
pub proof fn lemma_connected_self<T: KdTreeItem>(
    items: Seq<T>,
    radius: real,
    min_items: nat,
    c: int,
)
    requires
        is_core(items, radius, min_items, c),
    ensures
        connected(items, radius, min_items, c, c),
{
    reveal(connected);
    let chain = seq![c];
    assert(is_core_chain(items, radius, min_items, chain));
    assert(chain.first() == c && chain.last() == c);
}

/// A walk over core points goes on to a core point in the neighbourhood of
/// its last.
pub proof fn lemma_connected_step<T: KdTreeItem>(
    items: Seq<T>,
    radius: real,
    min_items: nat,
    a: int,
    b: int,
    c: int,
)
    requires
        connected(items, radius, min_items, a, b),
        neighborhood(items, radius, b).contains(c),
        is_core(items, radius, min_items, c),
    ensures
        connected(items, radius, min_items, a, c),
{
    reveal(connected);
    let chain = choose|chain: Seq<int>|
        #[trigger] is_core_chain(items, radius, min_items, chain) && chain.first() == a
            && chain.last() == b;
    let longer = chain.push(c);
    assert forall|i: int| 0 <= i < longer.len() implies is_core(
        items,
        radius,
        min_items,
        #[trigger] longer[i],
    ) by {
        if i < chain.len() {
            assert(longer[i] == chain[i]);
        }
    }
    assert forall|i: int| 0 < i < longer.len() implies neighborhood(
        items,
        radius,
        longer[i - 1],
    ).contains(#[trigger] longer[i]) by {
        if i < chain.len() {
            assert(longer[i] == chain[i]);
            assert(longer[i - 1] == chain[i - 1]);
        } else {
            assert(longer[i - 1] == chain.last());
        }
    }
    assert(is_core_chain(items, radius, min_items, longer));
    assert(longer.first() == a && longer.last() == c);
}

/// Before the first step nothing is visited or labeled.
pub proof fn lemma_begin<T: KdTreeItem>(items: Seq<T>, radius: real, min_items: nat, pr: Progress)
    requires
        is_metric::<T>(),
        min_items >= 1,
        pr.labels.len() == items.len(),
        pr.visited.len() == items.len(),
        forall|p: int| 0 <= p < items.len() ==> pr.labels[p] == DbscanLabel::Noise,
        forall|p: int| 0 <= p < items.len() ==> !pr.visited[p],
        pr.seeds.len() == 0,
        pr.pending.len() == 0,
        pr.next == 0,
    ensures
        in_progress(items, radius, min_items, pr),
{
}

/// The search for a seed passes over a position that is visited already.
pub proof fn lemma_pass_visited<T: KdTreeItem>(
    items: Seq<T>,
    radius: real,
    min_items: nat,
    pr: Progress,
)
    requires
        in_progress(items, radius, min_items, pr),
        pr.next < items.len(),
        pr.visited[pr.next],
    ensures
        in_progress(items, radius, min_items, Progress { next: pr.next + 1, ..pr }),
{
    let after = Progress { next: pr.next + 1, ..pr };
    assert forall|c: int|
        #[trigger] is_core(items, radius, min_items, c) && after.visited[c] implies closed_at(
        items,
        radius,
        after,
        c,
    ) || (after.pending.contains(c) && label_id(after.labels[c]) == after.seeds.len()) by {
        if closed_at(items, radius, pr, c) {
            assert(closed_at(items, radius, after, c));
        }
    }
}

/// The search for a seed visits a position that is no core point.
pub proof fn lemma_pass_noncore<T: KdTreeItem>(
    items: Seq<T>,
    radius: real,
    min_items: nat,
    pr: Progress,
)
    requires
        in_progress(items, radius, min_items, pr),
        pr.next < items.len(),
        !pr.visited[pr.next],
        !is_core(items, radius, min_items, pr.next),
    ensures
        in_progress(
            items,
            radius,
            min_items,
            Progress { visited: pr.visited.update(pr.next, true), next: pr.next + 1, ..pr },
        ),
{
    let after = Progress { visited: pr.visited.update(pr.next, true), next: pr.next + 1, ..pr };
    assert forall|c: int|
        #[trigger] is_core(items, radius, min_items, c) && after.visited[c] implies closed_at(
        items,
        radius,
        after,
        c,
    ) || (after.pending.contains(c) && label_id(after.labels[c]) == after.seeds.len()) by {
        if closed_at(items, radius, pr, c) {
            assert(closed_at(items, radius, after, c));
        }
    }
}

/// The search for a seed finds an unvisited core point, which founds the next
/// cluster.
pub proof fn lemma_seed<T: KdTreeItem>(
    items: Seq<T>,
    radius: real,
    min_items: nat,
    pr: Progress,
    label: DbscanLabel,
)
    requires
        in_progress(items, radius, min_items, pr),
        pr.pending.len() == 0,
        pr.next < items.len(),
        !pr.visited[pr.next],
        is_core(items, radius, min_items, pr.next),
        label != DbscanLabel::Noise,
        label_id(label) == pr.seeds.len() + 1,
    ensures
        in_progress(
            items,
            radius,
            min_items,
            Progress {
                labels: pr.labels.update(pr.next, label),
                visited: pr.visited.update(pr.next, true),
                seeds: pr.seeds.push(pr.next),
                pending: seq![pr.next],
                next: pr.next + 1,
            },
        ),
{
    let seed = pr.next;
    let after = Progress {
        labels: pr.labels.update(seed, label),
        visited: pr.visited.update(seed, true),
        seeds: pr.seeds.push(seed),
        pending: seq![seed],
        next: seed + 1,
    };
    assert(pr.labels[seed] == DbscanLabel::Noise);
    assert forall|k: int| 0 <= k < after.seeds.len() implies is_core(
        items,
        radius,
        min_items,
        #[trigger] after.seeds[k],
    ) && label_id(after.labels[after.seeds[k]]) == k + 1 && k <= after.seeds[k] < after.next by {
        if k < pr.seeds.len() {
            assert(after.seeds[k] == pr.seeds[k]);
        } else {
            if pr.seeds.len() > 0 {
                assert(pr.seeds[pr.seeds.len() - 1] < seed);
            }
        }
    }
    assert forall|j: int, k: int| 0 <= j < k < after.seeds.len() implies #[trigger] after.seeds[j]
        < #[trigger] after.seeds[k] by {
        assert(after.seeds[j] == pr.seeds[j]);
        if k < pr.seeds.len() {
            assert(after.seeds[k] == pr.seeds[k]);
        }
    }
    assert forall|c: int|
        #[trigger] is_core(items, radius, min_items, c) && after.visited[c] implies {
        &&& after.labels[c] != DbscanLabel::Noise
        &&& after.seeds[label_id(after.labels[c]) - 1] <= c
        &&& connected(items, radius, min_items, after.seeds[label_id(after.labels[c]) - 1], c)
        &&& closed_at(items, radius, after, c) || (after.pending.contains(c) && label_id(
            after.labels[c],
        ) == after.seeds.len())
    } by {
        if c == seed {
            lemma_connected_self(items, radius, min_items, seed);
            assert(after.pending[0] == seed);
        } else {
            assert(pr.visited[c]);
            assert(after.seeds[label_id(pr.labels[c]) - 1] == pr.seeds[label_id(pr.labels[c]) - 1]);
            assert(closed_at(items, radius, pr, c));
            assert(closed_at(items, radius, after, c));
        }
    }
    assert forall|p: int|
        0 <= p < items.len() && #[trigger] after.labels[p] != DbscanLabel::Noise && !is_core(
            items,
            radius,
            min_items,
            p,
        ) implies has_parent(items, radius, min_items, after.labels, p) by {
        assert(has_parent(items, radius, min_items, pr.labels, p));
        let c = choose|c: int|
            #[trigger] is_core(items, radius, min_items, c) && neighborhood(items, radius, c).contains(
                p,
            ) && pr.labels[c] == pr.labels[p];
        assert(after.labels[c] == after.labels[p]);
    }
    assert forall|j: int| 0 <= j < after.pending.len() implies is_core(
        items,
        radius,
        min_items,
        #[trigger] after.pending[j],
    ) && after.visited[after.pending[j]] && label_id(after.labels[after.pending[j]])
        == after.seeds.len() by {
        assert(after.pending[j] == seed);
    }
}

/// A cluster grows by an unvisited point in the neighbourhood of the core
/// point in hand. If the point is a core point itself, its neighbourhood
/// waits its turn.
pub proof fn lemma_visit<T: KdTreeItem>(
    items: Seq<T>,
    radius: real,
    min_items: nat,
    pr: Progress,
    q: int,
    label: DbscanLabel,
)
    requires
        in_progress(items, radius, min_items, pr),
        pr.pending.len() > 0,
        neighborhood(items, radius, pr.pending[0]).contains(q),
        !pr.visited[q],
        label != DbscanLabel::Noise,
        label_id(label) == pr.seeds.len(),
    ensures
        in_progress(
            items,
            radius,
            min_items,
            Progress {
                labels: pr.labels.update(q, label),
                visited: pr.visited.update(q, true),
                pending: if is_core(items, radius, min_items, q) {
                    pr.pending.push(q)
                } else {
                    pr.pending
                },
                ..pr
            },
        ),
{
    let owner = pr.pending[0];
    let after = Progress {
        labels: pr.labels.update(q, label),
        visited: pr.visited.update(q, true),
        pending: if is_core(items, radius, min_items, q) {
            pr.pending.push(q)
        } else {
            pr.pending
        },
        ..pr
    };
    assert(pr.labels[q] == DbscanLabel::Noise);
    assert(is_core(items, radius, min_items, owner));
    assert(pr.seeds.len() >= 1);
    let seed = pr.seeds[pr.seeds.len() - 1];
    assert(seed < pr.next);
    assert(q >= pr.next);
    assert forall|k: int| 0 <= k < after.seeds.len() implies is_core(
        items,
        radius,
        min_items,
        #[trigger] after.seeds[k],
    ) && label_id(after.labels[after.seeds[k]]) == k + 1 && k <= after.seeds[k] < after.next by {
        assert(pr.seeds[k] != q);
    }
    assert forall|c: int|
        #[trigger] is_core(items, radius, min_items, c) && after.visited[c] implies {
        &&& after.labels[c] != DbscanLabel::Noise
        &&& after.seeds[label_id(after.labels[c]) - 1] <= c
        &&& connected(items, radius, min_items, after.seeds[label_id(after.labels[c]) - 1], c)
        &&& closed_at(items, radius, after, c) || (after.pending.contains(c) && label_id(
            after.labels[c],
        ) == after.seeds.len())
    } by {
        if c == q {
            assert(connected(items, radius, min_items, seed, owner));
            lemma_connected_step(items, radius, min_items, seed, owner, q);
            assert(after.pending[pr.pending.len() as int] == q);
        } else {
            assert(pr.visited[c]);
            if closed_at(items, radius, pr, c) {
                assert(closed_at(items, radius, after, c));
            } else {
                let j = choose|j: int| 0 <= j < pr.pending.len() && pr.pending[j] == c;
                assert(after.pending[j] == c);
            }
        }
    }
    assert forall|p: int|
        0 <= p < items.len() && #[trigger] after.labels[p] != DbscanLabel::Noise && !is_core(
            items,
            radius,
            min_items,
            p,
        ) implies has_parent(items, radius, min_items, after.labels, p) by {
        if p == q {
            assert(after.labels[owner] == after.labels[q]);
        } else {
            assert(has_parent(items, radius, min_items, pr.labels, p));
            let c = choose|c: int|
                #[trigger] is_core(items, radius, min_items, c) && neighborhood(
                    items,
                    radius,
                    c,
                ).contains(p) && pr.labels[c] == pr.labels[p];
            assert(after.labels[c] == after.labels[p]);
        }
    }
    assert forall|j: int| 0 <= j < after.pending.len() implies is_core(
        items,
        radius,
        min_items,
        #[trigger] after.pending[j],
    ) && after.visited[after.pending[j]] && label_id(after.labels[after.pending[j]])
        == after.seeds.len() by {
        if j < pr.pending.len() {
            assert(after.pending[j] == pr.pending[j]);
        }
    }
}

/// A visited point that is still noise, in the neighbourhood of the core
/// point in hand, joins the cluster as a border point.
pub proof fn lemma_upgrade<T: KdTreeItem>(
    items: Seq<T>,
    radius: real,
    min_items: nat,
    pr: Progress,
    q: int,
    label: DbscanLabel,
)
    requires
        in_progress(items, radius, min_items, pr),
        pr.pending.len() > 0,
        neighborhood(items, radius, pr.pending[0]).contains(q),
        pr.visited[q],
        pr.labels[q] == DbscanLabel::Noise,
        label != DbscanLabel::Noise,
        label_id(label) == pr.seeds.len(),
    ensures
        in_progress(items, radius, min_items, Progress { labels: pr.labels.update(q, label), ..pr }),
{
    let owner = pr.pending[0];
    let after = Progress { labels: pr.labels.update(q, label), ..pr };
    assert(is_core(items, radius, min_items, owner));
    assert(!is_core(items, radius, min_items, q));
    assert forall|k: int| 0 <= k < after.seeds.len() implies is_core(
        items,
        radius,
        min_items,
        #[trigger] after.seeds[k],
    ) && label_id(after.labels[after.seeds[k]]) == k + 1 && k <= after.seeds[k] < after.next by {
        assert(pr.seeds[k] != q);
    }
    assert forall|c: int|
        #[trigger] is_core(items, radius, min_items, c) && after.visited[c] implies {
        &&& after.labels[c] != DbscanLabel::Noise
        &&& after.seeds[label_id(after.labels[c]) - 1] <= c
        &&& connected(items, radius, min_items, after.seeds[label_id(after.labels[c]) - 1], c)
        &&& closed_at(items, radius, after, c) || (after.pending.contains(c) && label_id(
            after.labels[c],
        ) == after.seeds.len())
    } by {
        if closed_at(items, radius, pr, c) {
            assert(closed_at(items, radius, after, c));
        }
    }
    assert forall|p: int|
        0 <= p < items.len() && #[trigger] after.labels[p] != DbscanLabel::Noise && !is_core(
            items,
            radius,
            min_items,
            p,
        ) implies has_parent(items, radius, min_items, after.labels, p) by {
        if p == q {
            assert(after.labels[owner] == after.labels[q]);
        } else {
            assert(has_parent(items, radius, min_items, pr.labels, p));
            let c = choose|c: int|
                #[trigger] is_core(items, radius, min_items, c) && neighborhood(
                    items,
                    radius,
                    c,
                ).contains(p) && pr.labels[c] == pr.labels[p];
            assert(after.labels[c] == after.labels[p]);
        }
    }
}

/// The neighbourhood of the core point in hand has been gone through.
pub proof fn lemma_group_done<T: KdTreeItem>(
    items: Seq<T>,
    radius: real,
    min_items: nat,
    pr: Progress,
)
    requires
        in_progress(items, radius, min_items, pr),
        pr.pending.len() > 0,
        forall|q: int| #[trigger]
            neighborhood(items, radius, pr.pending[0]).contains(q) ==> pr.visited[q] && pr.labels[q]
                != DbscanLabel::Noise,
    ensures
        in_progress(items, radius, min_items, Progress { pending: pr.pending.drop_first(), ..pr }),
{
    let owner = pr.pending[0];
    let after = Progress { pending: pr.pending.drop_first(), ..pr };
    assert(closed_at(items, radius, pr, owner));
    assert forall|c: int|
        #[trigger] is_core(items, radius, min_items, c) && after.visited[c] implies closed_at(
        items,
        radius,
        after,
        c,
    ) || (after.pending.contains(c) && label_id(after.labels[c]) == after.seeds.len()) by {
        if closed_at(items, radius, pr, c) {
            assert(closed_at(items, radius, after, c));
        } else {
            let j = choose|j: int| 0 <= j < pr.pending.len() && pr.pending[j] == c;
            assert(j > 0);
            assert(after.pending[j - 1] == c);
        }
    }
    assert forall|j: int| 0 <= j < after.pending.len() implies is_core(
        items,
        radius,
        min_items,
        #[trigger] after.pending[j],
    ) && after.visited[after.pending[j]] && label_id(after.labels[after.pending[j]])
        == after.seeds.len() by {
        assert(after.pending[j] == pr.pending[j + 1]);
    }
}

/// When every position has been passed and nothing is pending, the labels
/// are a DBSCAN labeling.
pub proof fn lemma_finish<T: KdTreeItem>(items: Seq<T>, radius: real, min_items: nat, pr: Progress)
    requires
        in_progress(items, radius, min_items, pr),
        pr.pending.len() == 0,
        pr.next == items.len(),
    ensures
        is_clustering(items, radius, min_items, pr.labels, pr.seeds),
{
    assert forall|c: int| #[trigger] is_core(items, radius, min_items, c) implies closed_at(
        items,
        radius,
        pr,
        c,
    ) by {
        assert(pr.visited[c]);
    }
    assert forall|p: int|
        0 <= p < pr.labels.len() && #[trigger] pr.labels[p] != DbscanLabel::Noise && !is_core(
            items,
            radius,
            min_items,
            p,
        ) implies exists|c: int|
        #[trigger] is_core(items, radius, min_items, c) && neighborhood(items, radius, c).contains(p)
            && pr.labels[c] == pr.labels[p] by {
        assert(has_parent(items, radius, min_items, pr.labels, p));
    }
}

} // verus!
