use rtree_knn::{KObj, RTree, RTreeNode};
use std::cell::Cell;

type Rect = [f64; 4];

fn key(d: f64) -> u64 {
    d.to_bits()
}

fn box_dist(a: &Rect, b: &Rect) -> f64 {
    let dx = if a[2] < b[0] {
        b[0] - a[2]
    } else if a[0] > b[2] {
        a[0] - b[2]
    } else {
        0.0
    };
    let dy = if a[3] < b[1] {
        b[1] - a[3]
    } else if a[1] > b[3] {
        a[1] - b[3]
    } else {
        0.0
    };
    dx.hypot(dy)
}

fn box_key(a: &Rect, b: &Rect) -> u64 {
    key(box_dist(a, b))
}

fn item_key(q: &Rect, item: &Rect) -> u64 {
    key(box_dist(item, q))
}

fn leaf(r: Rect) -> RTreeNode<Rect, Rect> {
    RTreeNode::Leaf { item: r, envelope: r }
}

fn three_items() -> RTree<Rect, Rect> {
    RTree {
        root: vec![
            leaf([0.0, 0.0, 1.0, 1.0]),
            leaf([1.0, 1.0, 2.0, 2.0]),
            leaf([4.0, 2.0, 7.0, 3.0]),
        ],
    }
}

fn nested() -> (RTree<Rect, Rect>, Vec<Rect>) {
    let items: Vec<Rect> = vec![
        [13.0, 0.0, 14.0, 1.0],
        [10.0, 0.0, 11.0, 1.0],
        [2.0, 5.0, 3.0, 6.0],
        [29.0, 0.0, 30.0, 1.0],
        [20.0, 0.0, 21.0, 1.0],
        [5.0, 0.0, 6.0, 1.0],
    ];
    let tree = RTree {
        root: vec![
            RTreeNode::Parent {
                envelope: [10.0, 0.0, 14.0, 1.0],
                children: vec![leaf(items[0]), leaf(items[1])],
            },
            leaf(items[2]),
            RTreeNode::Parent {
                envelope: [5.0, 0.0, 30.0, 1.0],
                children: vec![
                    RTreeNode::Parent {
                        envelope: [20.0, 0.0, 30.0, 1.0],
                        children: vec![leaf(items[3]), leaf(items[4])],
                    },
                    leaf(items[5]),
                ],
            },
        ],
    };
    (tree, items)
}

fn brute_force(items: &[Rect], q: &Rect) -> f64 {
    let mut best = f64::MAX;
    for it in items {
        let d = box_dist(it, q);
        if d < best {
            best = d;
        }
    }
    best
}

#[test]
fn min_dist_of_three_items_is_the_brute_force_minimum() {
    let tree = three_items();
    let items = [[0.0, 0.0, 1.0, 1.0], [1.0, 1.0, 2.0, 2.0], [4.0, 2.0, 7.0, 3.0]];
    let query: Rect = [0.0, 0.0, 1.0, 1.0];
    let got = tree.knn_min_dist(&query, &query, box_key, item_key, |_o, _m| false, key(f64::MAX));
    assert_eq!(got, Some(key(brute_force(&items, &query))));
    assert_eq!(f64::from_bits(got.unwrap()), 0.0);
}

#[test]
fn min_dist_from_a_far_query() {
    let tree = three_items();
    let query: Rect = [10.0, 7.0, 11.0, 8.0];
    let got = tree.knn_min_dist(&query, &query, box_key, item_key, |_o, _m| false, key(f64::MAX));
    assert_eq!(f64::from_bits(got.unwrap()), 5.0);
}

#[test]
fn min_dist_on_nested_tree_equals_brute_force() {
    let (tree, items) = nested();
    let queries: [Rect; 4] = [
        [0.0, 0.0, 1.0, 1.0],
        [16.0, 0.0, 17.0, 1.0],
        [40.0, 10.0, 41.0, 11.0],
        [2.0, 9.0, 3.0, 10.0],
    ];
    for q in queries.iter() {
        let got =
            tree.knn_min_dist(q, q, box_key, item_key, |_o, _m| false, key(f64::INFINITY));
        assert_eq!(got, Some(key(brute_force(&items, q))));
    }
}

#[test]
fn min_dist_on_empty_tree_is_none() {
    let tree: RTree<Rect, Rect> = RTree::new();
    let query: Rect = [0.0, 0.0, 1.0, 1.0];
    let got = tree.knn_min_dist(&query, &query, box_key, item_key, |_o, _m| false, key(f64::MAX));
    assert_eq!(got, None);
    let hollow: RTree<Rect, Rect> =
        RTree { root: vec![RTreeNode::Parent { envelope: query, children: vec![] }] };
    let got = hollow.knn_min_dist(&query, &query, box_key, item_key, |_o, _m| false, 7);
    assert_eq!(got, None);
}

#[test]
fn min_dist_keeps_the_bound_that_nothing_improves() {
    let tree = three_items();
    let query: Rect = [10.0, 7.0, 11.0, 8.0];
    let got = tree.knn_min_dist(&query, &query, box_key, item_key, |_o, _m| false, key(2.5));
    assert_eq!(got, Some(key(2.5)));
}

#[test]
fn min_dist_bound_is_strict() {
    let tree = three_items();
    let query: Rect = [10.0, 7.0, 11.0, 8.0];
    let scored: Cell<usize> = Cell::new(0);
    let got = tree.knn_min_dist(
        &query,
        &query,
        box_key,
        |q: &Rect, item: &Rect| {
            scored.set(scored.get() + 1);
            key(box_dist(item, q))
        },
        |_o, _m| false,
        key(5.0),
    );
    assert_eq!(got, Some(key(5.0)));
    assert_eq!(scored.get(), 0);
}

#[test]
fn min_dist_passes_over_what_cannot_improve() {
    let (tree, _items) = nested();
    let query: Rect = [2.0, 9.0, 3.0, 10.0];
    let scored: Cell<usize> = Cell::new(0);
    let got = tree.knn_min_dist(
        &query,
        &query,
        box_key,
        |q: &Rect, item: &Rect| {
            scored.set(scored.get() + 1);
            key(box_dist(item, q))
        },
        |_o, _m| false,
        key(f64::MAX),
    );
    assert_eq!(f64::from_bits(got.unwrap()), 3.0);
    assert_eq!(scored.get(), 1);
}

#[test]
fn min_dist_single_item() {
    let tree: RTree<Rect, Rect> = RTree { root: vec![leaf([3.0, 4.0, 5.0, 6.0])] };
    let query: Rect = [0.0, 0.0, 0.0, 0.0];
    let got = tree.knn_min_dist(&query, &query, box_key, item_key, |_o, _m| false, u64::MAX);
    assert_eq!(f64::from_bits(got.unwrap()), 5.0);
}

#[test]
fn min_dist_stop_ends_the_search() {
    let (tree, _items) = nested();
    let query: Rect = [16.0, 0.0, 17.0, 1.0];
    let served: Cell<usize> = Cell::new(0);
    let got = tree.knn_min_dist(
        &query,
        &query,
        box_key,
        item_key,
        |_o, _m| {
            served.set(served.get() + 1);
            true
        },
        key(f64::MAX),
    );
    assert_eq!(served.get(), 1);
    assert_eq!(f64::from_bits(got.unwrap()), 2.0);
}

#[test]
fn min_dist_predicate_sees_items_and_the_running_bound() {
    let tree = three_items();
    let query: Rect = [10.0, 7.0, 11.0, 8.0];
    let ok: Cell<bool> = Cell::new(true);
    let served: Cell<usize> = Cell::new(0);
    let got = tree.knn_min_dist(
        &query,
        &query,
        box_key,
        item_key,
        |o: KObj<Rect>, m: u64| {
            served.set(served.get() + 1);
            if !o.is_item || o.node != usize::MAX || m != key(5.0) || o.distance < m {
                ok.set(false);
            }
            false
        },
        key(f64::MAX),
    );
    assert_eq!(f64::from_bits(got.unwrap()), 5.0);
    assert_eq!(served.get(), 3);
    assert!(ok.get());
}

#[test]
fn min_dist_twice_gives_the_same() {
    let (tree, _items) = nested();
    let query: Rect = [0.0, 0.0, 1.0, 1.0];
    let one = tree.knn_min_dist(&query, &query, box_key, item_key, |_o, _m| false, u64::MAX);
    let two = tree.knn_min_dist(&query, &query, box_key, item_key, |_o, _m| false, u64::MAX);
    assert_eq!(one, two);
}

#[test]
fn min_dist_stays_between_the_scan_and_the_start_bound() {
    let (tree, items) = nested();
    let query: Rect = [16.0, 0.0, 17.0, 1.0];
    let scan = brute_force(&items, &query);
    let wrong_gaps: [f64; 4] = [0.0, 1.5, 3.0, 40.0];
    for g in wrong_gaps.iter() {
        for stop_after in 0..4usize {
            let served: Cell<usize> = Cell::new(0);
            let got = tree
                .knn_min_dist(
                    &query,
                    &query,
                    |_a: &Rect, _b: &Rect| key(*g),
                    item_key,
                    |_o, _m| {
                        served.set(served.get() + 1);
                        served.get() > stop_after
                    },
                    key(9.0),
                )
                .unwrap();
            assert!(got <= key(9.0));
            assert!(got >= key(scan));
        }
    }
}

#[test]
fn min_dist_with_a_gap_that_is_too_great_misses_the_nearest() {
    let (tree, items) = nested();
    let query: Rect = [16.0, 0.0, 17.0, 1.0];
    let got = tree.knn_min_dist(
        &query,
        &query,
        |a: &Rect, b: &Rect| if a[2] - a[0] > 2.0 { key(50.0) } else { key(box_dist(a, b)) },
        item_key,
        |_o, _m| false,
        key(20.0),
    );
    assert_eq!(f64::from_bits(got.unwrap()), 13f64.hypot(4.0));
    assert_eq!(brute_force(&items, &query), 2.0);
}
