use kd_dbscan::kdtree::KdTree;
use kd_dbscan::kdtree::KdTreeItem;
use std::cmp::Ordering;

#[derive(Debug, Clone, PartialEq)]
struct Point2([f64; 2]);

impl KdTreeItem for Point2 {
    type Measurement = f64;

    fn cmp_in_depth(&self, rhs: &Self, depth: usize) -> Ordering {
        self.0[depth % 2].partial_cmp(&rhs.0[depth % 2]).expect("not total order")
    }

    fn distance(&self, other: &Self) -> f64 {
        let dx = self.0[0] - other.0[0];
        let dy = self.0[1] - other.0[1];
        (dx * dx + dy * dy).sqrt()
    }

    fn distance_to_axis(&self, other: &Self, depth: usize) -> f64 {
        (self.0[depth % 2] - other.0[depth % 2]).abs()
    }
}

/// A point on a line, with the absolute difference as distance.
#[derive(Debug, Clone, PartialEq)]
struct OnLine(i64);

impl KdTreeItem for OnLine {
    type Measurement = u64;

    fn cmp_in_depth(&self, rhs: &Self, _depth: usize) -> Ordering {
        self.0.cmp(&rhs.0)
    }

    fn distance(&self, other: &Self) -> u64 {
        self.0.abs_diff(other.0)
    }

    fn distance_to_axis(&self, other: &Self, _depth: usize) -> u64 {
        self.0.abs_diff(other.0)
    }
}

fn on_line(values: &[i64]) -> Vec<OnLine> {
    values.iter().map(|v| OnLine(*v)).collect()
}

fn scattered(count: usize, seed: u64) -> Vec<Point2> {
    let mut state = seed;
    let mut next = move || {
        state = state.wrapping_mul(6364136223846793005).wrapping_add(1442695040888963407);
        ((state >> 33) % 64) as f64 * 0.125
    };
    (0..count).map(|_| Point2([next(), next()])).collect()
}

fn sorted_distances(items: &[Point2], query: &Point2) -> Vec<f64> {
    let mut distances: Vec<f64> = items.iter().map(|x| query.distance(x)).collect();
    distances.sort_by(|a, b| a.partial_cmp(b).unwrap());
    distances
}

fn sorted_coordinates(found: &[&Point2]) -> Vec<[f64; 2]> {
    let mut coordinates: Vec<[f64; 2]> = found.iter().map(|x| x.0).collect();
    coordinates.sort_by(|a, b| a.partial_cmp(b).unwrap());
    coordinates
}

#[test]
fn empty_tree_answers_with_nothing() {
    let tree = KdTree::construct(Vec::<Point2>::new());
    let query = Point2([1.0, 1.0]);
    assert!(tree.root().is_none());
    assert!(tree.find_nearest(&query).is_none());
    assert!(tree.find_nearest_n(&query, 3).is_empty());
    assert!(tree.find_range_n(&query, &10.0).is_empty());
}

#[test]
fn tree_of_one_item() {
    let tree = KdTree::construct(vec![Point2([1.0, 2.0])]);
    let query = Point2([4.0, 6.0]);
    assert_eq!(tree.root(), Some(&Point2([1.0, 2.0])));
    assert_eq!(tree.find_nearest(&query), Some(&Point2([1.0, 2.0])));
    assert_eq!(tree.find_nearest_n(&query, 5), vec![&Point2([1.0, 2.0])]);
    assert_eq!(tree.find_range_n(&query, &5.0), vec![&Point2([1.0, 2.0])]);
    assert!(tree.find_range_n(&query, &4.99).is_empty());
}

#[test]
fn root_is_the_median_along_the_first_axis() {
    let tree = KdTree::construct(on_line(&[3, 1, 2]));
    assert_eq!(tree.root(), Some(&OnLine(2)));
    let tree = KdTree::construct(on_line(&[9, 7, 5, 3, 1]));
    assert_eq!(tree.root(), Some(&OnLine(5)));
    let tree = KdTree::construct(on_line(&[20, 10]));
    assert_eq!(tree.root(), Some(&OnLine(20)));
    let tree = KdTree::construct(on_line(&[40, 10, 30, 20]));
    assert_eq!(tree.root(), Some(&OnLine(30)));
}

#[test]
fn nearest_on_a_line() {
    let tree = KdTree::construct(on_line(&[50, -20, 10, 40, 0, 30, -10, 20]));
    assert_eq!(tree.find_nearest(&OnLine(12)), Some(&OnLine(10)));
    assert_eq!(tree.find_nearest(&OnLine(-100)), Some(&OnLine(-20)));
    assert_eq!(tree.find_nearest(&OnLine(100)), Some(&OnLine(50)));
    assert_eq!(tree.find_nearest(&OnLine(40)), Some(&OnLine(40)));
}

#[test]
fn nearest_n_comes_nearest_first() {
    let tree = KdTree::construct(on_line(&[50, -20, 10, 40, 0, 30, -10, 20]));
    let found = tree.find_nearest_n(&OnLine(12), 4);
    assert_eq!(found, vec![&OnLine(10), &OnLine(20), &OnLine(0), &OnLine(30)]);
    let found = tree.find_nearest_n(&OnLine(51), 3);
    assert_eq!(found, vec![&OnLine(50), &OnLine(40), &OnLine(30)]);
}

#[test]
fn nearest_n_of_none_is_empty() {
    let tree = KdTree::construct(on_line(&[1, 2, 3]));
    assert!(tree.find_nearest_n(&OnLine(2), 0).is_empty());
}

#[test]
fn nearest_n_beyond_the_size_returns_all() {
    let tree = KdTree::construct(on_line(&[5, 1, 9]));
    let found = tree.find_nearest_n(&OnLine(4), 10);
    assert_eq!(found, vec![&OnLine(5), &OnLine(1), &OnLine(9)]);
    let found = tree.find_nearest_n(&OnLine(4), usize::MAX);
    assert_eq!(found.len(), 3);
}

#[test]
fn equal_items_are_kept_apart() {
    let tree = KdTree::construct(on_line(&[7, 7, 7, 7]));
    assert_eq!(tree.find_range_n(&OnLine(7), &0).len(), 4);
    assert_eq!(tree.find_nearest_n(&OnLine(0), 3).len(), 3);
    assert_eq!(tree.find_nearest_n(&OnLine(0), 9).len(), 4);
}

#[test]
fn range_on_a_line_includes_the_rim() {
    let tree = KdTree::construct(on_line(&[50, -20, 10, 40, 0, 30, -10, 20]));
    let mut found: Vec<i64> = tree.find_range_n(&OnLine(15), &15).iter().map(|x| x.0).collect();
    found.sort();
    assert_eq!(found, vec![0, 10, 20, 30]);
}

#[test]
fn range_of_radius_zero_holds_the_query() {
    let items = scattered(60, 3);
    let tree = KdTree::construct(items.clone());
    for query in &items {
        let found = tree.find_range_n(query, &0.0);
        assert!(found.iter().any(|x| *x == query));
    }
}

#[test]
fn nearest_matches_a_scan() {
    for (count, seed) in [(1usize, 1u64), (2, 2), (3, 3), (10, 4), (100, 5), (1000, 6)] {
        let items = scattered(count, seed);
        let tree = KdTree::construct(items.clone());
        for query in scattered(25, seed + 100) {
            let least = sorted_distances(&items, &query)[0];
            let found = tree.find_nearest(&query).expect("the tree is not empty");
            assert_eq!(query.distance(found), least);
            assert!(items.contains(found));
        }
    }
}

#[test]
fn nearest_n_matches_a_scan() {
    for (count, seed) in [(1usize, 11u64), (2, 12), (5, 13), (64, 14), (500, 15)] {
        let items = scattered(count, seed);
        let tree = KdTree::construct(items.clone());
        for query in scattered(10, seed + 100) {
            let all = sorted_distances(&items, &query);
            for k in [0usize, 1, 2, 3, 7, 64, 600] {
                let found = tree.find_nearest_n(&query, k);
                let distances: Vec<f64> = found.iter().map(|x| query.distance(x)).collect();
                let most = k.min(count);
                assert_eq!(found.len(), most);
                assert_eq!(distances, all[..most].to_vec());
            }
        }
    }
}

#[test]
fn range_matches_a_scan() {
    for (count, seed) in [(1usize, 21u64), (2, 22), (9, 23), (100, 24), (1000, 25)] {
        let items = scattered(count, seed);
        let tree = KdTree::construct(items.clone());
        for query in scattered(10, seed + 100) {
            for epsilon in [0.0, 0.125, 0.5, 1.0, 3.0, 100.0] {
                let found = tree.find_range_n(&query, &epsilon);
                let scanned: Vec<&Point2> =
                    items.iter().filter(|x| query.distance(x) <= epsilon).collect();
                assert_eq!(sorted_coordinates(&found), sorted_coordinates(&scanned));
            }
        }
    }
}

#[test]
fn order_of_the_input_does_not_matter() {
    let items = scattered(200, 31);
    let mut reversed = items.clone();
    reversed.reverse();
    let mut rotated = items.clone();
    rotated.rotate_left(77);
    let tree = KdTree::construct(items);
    let tree_reversed = KdTree::construct(reversed);
    let tree_rotated = KdTree::construct(rotated);
    for query in scattered(20, 131) {
        let found = sorted_coordinates(&tree.find_range_n(&query, &1.0));
        assert_eq!(found, sorted_coordinates(&tree_reversed.find_range_n(&query, &1.0)));
        assert_eq!(found, sorted_coordinates(&tree_rotated.find_range_n(&query, &1.0)));

        let distances: Vec<f64> =
            tree.find_nearest_n(&query, 9).iter().map(|x| query.distance(x)).collect();
        let distances_reversed: Vec<f64> =
            tree_reversed.find_nearest_n(&query, 9).iter().map(|x| query.distance(x)).collect();
        let distances_rotated: Vec<f64> =
            tree_rotated.find_nearest_n(&query, 9).iter().map(|x| query.distance(x)).collect();
        assert_eq!(distances, distances_reversed);
        assert_eq!(distances, distances_rotated);
    }
}
