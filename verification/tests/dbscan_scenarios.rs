use kd_dbscan::dbscan::dbscan;
use kd_dbscan::dbscan::DbscanLabel;
use kd_dbscan::kdtree::KdTreeItem;
use std::cmp::Ordering;

#[derive(Debug, Clone, PartialEq)]
struct Point2([f32; 2]);

impl KdTreeItem for Point2 {
    type Measurement = f32;

    fn cmp_in_depth(&self, rhs: &Self, depth: usize) -> Ordering {
        self.0[depth % 2].partial_cmp(&rhs.0[depth % 2]).expect("not total order")
    }

    fn distance(&self, other: &Self) -> f32 {
        let dx = self.0[0] - other.0[0];
        let dy = self.0[1] - other.0[1];
        (dx * dx + dy * dy).sqrt()
    }

    fn distance_to_axis(&self, other: &Self, depth: usize) -> f32 {
        (self.0[depth % 2] - other.0[depth % 2]).abs()
    }
}

fn points(coordinates: &[[f32; 2]]) -> Vec<Point2> {
    coordinates.iter().map(|c| Point2(*c)).collect()
}

fn two_blobs() -> Vec<[f32; 2]> {
    vec![
        [0.0, 0.0],
        [0.0, 0.1],
        [0.1, 0.0],
        [0.1, 0.1],
        [0.05, 0.05],
        [5.0, 5.0],
        [5.0, 5.1],
        [5.1, 5.0],
        [5.1, 5.1],
        [5.05, 5.05],
    ]
}

fn neighbor_count(items: &[Point2], p: usize, epsilon: f32) -> usize {
    items.iter().filter(|x| items[p].distance(x) <= epsilon).count()
}

/// Core points reachable from `start` by steps from a core point to a core
/// point in its neighbourhood.
fn reachable_cores(items: &[Point2], start: usize, epsilon: f32, min_items: usize) -> Vec<bool> {
    let mut seen = vec![false; items.len()];
    let mut stack = vec![start];
    seen[start] = true;
    while let Some(c) = stack.pop() {
        for q in 0..items.len() {
            if !seen[q]
                && items[c].distance(&items[q]) <= epsilon
                && neighbor_count(items, q, epsilon) >= min_items
            {
                seen[q] = true;
                stack.push(q);
            }
        }
    }
    seen
}

/// Pseudo-random points on a coarse grid, so that ties and duplicates occur.
fn scattered(count: usize, seed: u64) -> Vec<[f32; 2]> {
    let mut state = seed;
    let mut next = move || {
        state = state.wrapping_mul(6364136223846793005).wrapping_add(1442695040888963407);
        ((state >> 33) % 40) as f32 * 0.25
    };
    (0..count).map(|_| [next(), next()]).collect()
}

#[test]
fn empty_input_gives_no_labels() {
    let labels = dbscan(Vec::<Point2>::new(), 1.0, 3);
    assert_eq!(labels, vec![]);
}

#[test]
fn single_point_is_its_own_cluster() {
    let labels = dbscan(points(&[[0.0, 0.0]]), 1.0, 1);
    assert_eq!(labels, vec![DbscanLabel::Cluster(1)]);
}

#[test]
fn single_point_below_min_items_is_noise() {
    let labels = dbscan(points(&[[0.0, 0.0]]), 1.0, 2);
    assert_eq!(labels, vec![DbscanLabel::Noise]);
}

#[test]
fn two_blobs_give_two_clusters() {
    let labels = dbscan(points(&two_blobs()), 0.3, 3);
    let mut expected = vec![DbscanLabel::Cluster(1); 5];
    expected.extend(vec![DbscanLabel::Cluster(2); 5]);
    assert_eq!(labels, expected);
}

#[test]
fn chain_is_one_cluster() {
    let chain = [[0.0, 0.0], [0.0, 0.4], [0.0, 0.8], [0.0, 1.2], [0.0, 1.6]];
    let labels = dbscan(points(&chain), 0.5, 2);
    assert_eq!(labels, vec![DbscanLabel::Cluster(1); 5]);
}

#[test]
fn outlier_is_noise() {
    let mut input = two_blobs();
    input.push([10.0, 10.0]);
    let labels = dbscan(points(&input), 0.3, 3);
    let mut expected = vec![DbscanLabel::Cluster(1); 5];
    expected.extend(vec![DbscanLabel::Cluster(2); 5]);
    expected.push(DbscanLabel::Noise);
    assert_eq!(labels, expected);
}

#[test]
fn negative_epsilon_leaves_all_noise() {
    let labels = dbscan(points(&two_blobs()), -1.0, 1);
    assert_eq!(labels, vec![DbscanLabel::Noise; 10]);
}

#[test]
fn zero_epsilon_clusters_equal_points() {
    let input = [[1.0, 1.0], [2.0, 2.0], [1.0, 1.0], [3.0, 3.0]];
    let labels = dbscan(points(&input), 0.0, 2);
    assert_eq!(
        labels,
        vec![
            DbscanLabel::Cluster(1),
            DbscanLabel::Noise,
            DbscanLabel::Cluster(1),
            DbscanLabel::Noise
        ]
    );
}

#[test]
fn border_point_keeps_its_first_cluster() {
    // The point at 1.5 is no core point and lies within reach of a core
    // point of either cluster; the cluster found first keeps it.
    let input = [
        [0.0, 0.0],
        [0.2, 0.0],
        [0.4, 0.0],
        [0.6, 0.0],
        [1.5, 0.0],
        [2.4, 0.0],
        [2.6, 0.0],
        [2.8, 0.0],
        [3.0, 0.0],
    ];
    let labels = dbscan(points(&input), 1.0, 4);
    let mut expected = vec![DbscanLabel::Cluster(1); 5];
    expected.extend(vec![DbscanLabel::Cluster(2); 4]);
    assert_eq!(labels, expected);
}

#[test]
fn visited_noise_is_taken_in_as_border_point() {
    // The point at 1.5 is visited first and found to be no core point; the
    // cluster that reaches it later takes it in.
    let input = [
        [1.5, 0.0],
        [2.4, 0.0],
        [2.6, 0.0],
        [2.8, 0.0],
        [3.0, 0.0],
        [0.0, 0.0],
        [0.2, 0.0],
        [0.4, 0.0],
        [0.6, 0.0],
        [9.0, 9.0],
    ];
    let labels = dbscan(points(&input), 1.0, 4);
    let mut expected = vec![DbscanLabel::Cluster(1); 5];
    expected.extend(vec![DbscanLabel::Cluster(2); 4]);
    expected.push(DbscanLabel::Noise);
    assert_eq!(labels, expected);
}

#[test]
fn clusters_are_numbered_by_first_core_point() {
    let mut input = two_blobs();
    input.reverse();
    let labels = dbscan(points(&input), 0.3, 3);
    let mut expected = vec![DbscanLabel::Cluster(1); 5];
    expected.extend(vec![DbscanLabel::Cluster(2); 5]);
    assert_eq!(labels, expected);
}

#[test]
fn one_label_for_each_item() {
    for count in [0usize, 1, 2, 7, 50, 200] {
        let input = scattered(count, 11);
        let labels = dbscan(points(&input), 0.5, 3);
        assert_eq!(labels.len(), count);
    }
}

#[test]
fn core_points_are_never_noise() {
    let items = points(&scattered(150, 5));
    let labels = dbscan(items.clone(), 0.5, 4);
    for p in 0..items.len() {
        if neighbor_count(&items, p, 0.5) >= 4 {
            assert_ne!(labels[p], DbscanLabel::Noise);
        }
    }
}

#[test]
fn neighbourhood_of_a_core_point_is_clustered() {
    let items = points(&scattered(150, 7));
    let labels = dbscan(items.clone(), 0.5, 4);
    for p in 0..items.len() {
        if neighbor_count(&items, p, 0.5) < 4 {
            continue;
        }
        for q in 0..items.len() {
            if items[p].distance(&items[q]) <= 0.5 {
                assert_ne!(labels[q], DbscanLabel::Noise);
                assert!(labels[q] <= labels[p]);
                if neighbor_count(&items, q, 0.5) >= 4 {
                    assert_eq!(labels[q], labels[p]);
                }
            }
        }
    }
}

#[test]
fn noise_has_no_core_point_in_reach() {
    let items = points(&scattered(150, 9));
    let labels = dbscan(items.clone(), 0.5, 4);
    for p in 0..items.len() {
        let near_core = (0..items.len()).any(|c| {
            neighbor_count(&items, c, 0.5) >= 4 && items[c].distance(&items[p]) <= 0.5
        });
        assert_eq!(labels[p] != DbscanLabel::Noise, near_core);
    }
}

#[test]
fn core_points_of_a_cluster_are_connected() {
    let items = points(&scattered(120, 13));
    let labels = dbscan(items.clone(), 0.5, 4);
    for p in 0..items.len() {
        if neighbor_count(&items, p, 0.5) < 4 {
            continue;
        }
        let reach = reachable_cores(&items, p, 0.5, 4);
        for q in 0..items.len() {
            if neighbor_count(&items, q, 0.5) >= 4 {
                assert_eq!(labels[p] == labels[q], reach[q]);
            }
        }
    }
}

#[test]
fn cluster_ids_have_no_gaps() {
    let items = points(&scattered(200, 17));
    let labels = dbscan(items, 0.4, 3);
    let mut highest = 0;
    let mut first_seen = Vec::new();
    for label in &labels {
        if let DbscanLabel::Cluster(k) = label {
            assert!(*k >= 1);
            if *k > highest {
                highest = *k;
            }
            if !first_seen.contains(k) {
                first_seen.push(*k);
            }
        }
    }
    assert!(highest >= 2);
    assert_eq!(first_seen.len(), highest);
}

#[test]
fn larger_epsilon_keeps_points_clustered() {
    let items = points(&scattered(150, 19));
    let small = dbscan(items.clone(), 0.3, 4);
    let large = dbscan(items.clone(), 0.6, 4);
    for p in 0..items.len() {
        if small[p] != DbscanLabel::Noise {
            assert_ne!(large[p], DbscanLabel::Noise);
        }
    }
    for p in 0..items.len() {
        for q in 0..items.len() {
            let both_core = neighbor_count(&items, p, 0.3) >= 4 && neighbor_count(&items, q, 0.3) >= 4;
            if both_core && small[p] == small[q] {
                assert_eq!(large[p], large[q]);
            }
        }
    }
}

#[test]
fn border_point_may_change_sides_as_epsilon_grows() {
    // The point at 1.5 is a border point for either radius. With the small
    // radius only the later cluster reaches it; with the large one the
    // earlier cluster reaches it too, and takes it first.
    let input = [
        [0.0, 0.0],
        [0.05, 0.0],
        [0.1, 0.0],
        [0.15, 0.0],
        [0.2, 0.0],
        [0.25, 0.0],
        [1.5, 0.0],
        [2.5, 0.0],
        [3.0, 0.0],
        [3.1, 0.0],
        [3.2, 0.0],
        [3.3, 0.0],
        [3.4, 0.0],
    ];
    let small = dbscan(points(&input), 1.0, 6);
    let large = dbscan(points(&input), 1.25, 6);
    assert_eq!(small[6], DbscanLabel::Cluster(2));
    assert_eq!(small[7], DbscanLabel::Cluster(2));
    assert_eq!(large[6], DbscanLabel::Cluster(1));
    assert_eq!(large[7], DbscanLabel::Cluster(2));
}

#[test]
fn labeling_is_the_same_on_every_run() {
    let items = points(&scattered(100, 23));
    let first = dbscan(items.clone(), 0.5, 3);
    let second = dbscan(items, 0.5, 3);
    assert_eq!(first, second);
}
