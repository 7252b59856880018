use rtree_knn::{KObj, RTree, RTreeNode};
use std::cell::Cell;

type Rect = [f64; 4];

fn key(d: f64) -> u64 {
    d.to_bits()
}

fn box_dist(a: &Rect, b: &Rect) -> f64 {
    let dx = if a[2] < b[0] {
        b[0] - a[2]
    } else if a[0] > b[2] {
        a[0] - b[2]
    } else {
        0.0
    };
    let dy = if a[3] < b[1] {
        b[1] - a[3]
    } else if a[1] > b[3] {
        a[1] - b[3]
    } else {
        0.0
    };
    dx.hypot(dy)
}

fn leaf(name: &'static str, r: Rect) -> RTreeNode<&'static str, Rect> {
    RTreeNode::Leaf { item: name, envelope: r }
}

fn three_items() -> RTree<&'static str, Rect> {
    RTree {
        root: vec![
            leaf("a", [0.0, 0.0, 1.0, 1.0]),
            leaf("b", [1.0, 1.0, 2.0, 2.0]),
            leaf("c", [4.0, 2.0, 7.0, 3.0]),
        ],
    }
}

fn nested() -> RTree<&'static str, Rect> {
    RTree {
        root: vec![
            RTreeNode::Parent {
                envelope: [10.0, 0.0, 14.0, 1.0],
                children: vec![
                    leaf("far", [13.0, 0.0, 14.0, 1.0]),
                    leaf("mid", [10.0, 0.0, 11.0, 1.0]),
                ],
            },
            leaf("near", [2.0, 0.0, 3.0, 1.0]),
            RTreeNode::Parent {
                envelope: [5.0, 0.0, 30.0, 1.0],
                children: vec![
                    RTreeNode::Parent {
                        envelope: [20.0, 0.0, 30.0, 1.0],
                        children: vec![
                            leaf("last", [29.0, 0.0, 30.0, 1.0]),
                            leaf("late", [20.0, 0.0, 21.0, 1.0]),
                        ],
                    },
                    leaf("soon", [5.0, 0.0, 6.0, 1.0]),
                ],
            },
        ],
    }
}

const ORIGIN: Rect = [0.0, 0.0, 1.0, 1.0];

fn by_box(_q: &&'static str, _item: Option<&&'static str>, o: KObj<Rect>) -> u64 {
    key(box_dist(&o.mbr, &ORIGIN))
}

#[test]
fn knn_limit_two_returns_two_nearest_first() {
    let tree = three_items();
    let res = tree.knn(&"q", 2, by_box, |_o| (true, false));
    assert_eq!(res.len(), 2);
    assert_eq!(*res[0], "a");
    assert_eq!(*res[1], "b");
}

#[test]
fn knn_without_limit_returns_every_item_in_order() {
    let tree = nested();
    let res = tree.knn(&"q", 0, by_box, |_o| (true, false));
    let names: Vec<&str> = res.iter().map(|r| **r).collect();
    assert_eq!(names, vec!["near", "soon", "mid", "far", "late", "last"]);
}

#[test]
fn knn_distances_never_fall() {
    let tree = nested();
    let seen: Cell<u64> = Cell::new(0);
    let ok: Cell<bool> = Cell::new(true);
    let res = tree.knn(&"q", 0, by_box, |o: KObj<Rect>| {
        if o.distance < seen.get() {
            ok.set(false);
        }
        seen.set(o.distance);
        (true, false)
    });
    assert_eq!(res.len(), 6);
    assert!(ok.get());
}

#[test]
fn knn_limit_is_a_prefix_of_the_unlimited_search() {
    let tree = nested();
    let all = tree.knn(&"q", 0, by_box, |_o| (true, false));
    for limit in 1..9usize {
        let some = tree.knn(&"q", limit, by_box, |_o| (true, false));
        let want = if limit < all.len() { limit } else { all.len() };
        assert_eq!(some.len(), want);
        for i in 0..want {
            assert_eq!(*some[i], *all[i]);
        }
    }
}

#[test]
fn knn_on_empty_tree_is_empty() {
    let tree: RTree<&'static str, Rect> = RTree::new();
    let res = tree.knn(&"q", 0, by_box, |_o| (true, false));
    assert!(res.is_empty());
    let res = tree.knn(&"q", 3, by_box, |_o| (true, false));
    assert!(res.is_empty());
}

#[test]
fn knn_on_tree_of_empty_parents_is_empty() {
    let calls: Cell<usize> = Cell::new(0);
    let tree: RTree<&'static str, Rect> = RTree {
        root: vec![RTreeNode::Parent { envelope: ORIGIN, children: vec![] }],
    };
    let res = tree.knn(
        &"q",
        0,
        |_q: &&'static str, _i: Option<&&'static str>, _o: KObj<Rect>| {
            calls.set(calls.get() + 1);
            0
        },
        |_o| (true, false),
    );
    assert!(res.is_empty());
    assert_eq!(calls.get(), 0);
}

#[test]
fn knn_predicate_that_rejects_all_returns_nothing() {
    let tree = nested();
    let res = tree.knn(&"q", 2, by_box, |_o| (false, false));
    assert!(res.is_empty());
}

#[test]
fn knn_single_item() {
    let tree: RTree<&'static str, Rect> = RTree { root: vec![leaf("only", [3.0, 3.0, 4.0, 4.0])] };
    let res = tree.knn(&"q", 0, by_box, |_o| (true, false));
    assert_eq!(res.len(), 1);
    assert_eq!(*res[0], "only");
    let res = tree.knn(&"q", 5, by_box, |_o| (true, false));
    assert_eq!(res.len(), 1);
}

#[test]
fn knn_stop_ends_the_search_at_once() {
    let tree = nested();
    let res = tree.knn(&"q", 0, by_box, |_o| (true, true));
    assert_eq!(res.len(), 1);
    assert_eq!(*res[0], "near");
    let res = tree.knn(&"q", 0, by_box, |_o| (false, true));
    assert!(res.is_empty());
}

#[test]
fn knn_stop_comes_before_the_limit() {
    let tree = three_items();
    let res = tree.knn(&"q", 2, by_box, |_o| (true, true));
    assert_eq!(res.len(), 1);
}

#[test]
fn knn_predicate_filters_by_distance() {
    let tree = nested();
    let res = tree.knn(&"q", 0, by_box, |o: KObj<Rect>| {
        (f64::from_bits(o.distance) > 5.0, f64::from_bits(o.distance) > 15.0)
    });
    let names: Vec<&str> = res.iter().map(|r| **r).collect();
    assert_eq!(names, vec!["mid", "far", "late"]);
}

#[test]
fn knn_shows_the_distance_function_a_blank_candidate() {
    let tree = three_items();
    let blank: Cell<bool> = Cell::new(true);
    let with_item: Cell<usize> = Cell::new(0);
    let res = tree.knn(
        &"q",
        0,
        |q: &&'static str, item: Option<&&'static str>, o: KObj<Rect>| {
            if o.distance != 0 || o.node != usize::MAX || !o.is_item || *q != "q" {
                blank.set(false);
            }
            if item.is_some() {
                with_item.set(with_item.get() + 1);
            }
            key(box_dist(&o.mbr, &ORIGIN))
        },
        |_o| (true, false),
    );
    assert_eq!(res.len(), 3);
    assert!(blank.get());
    assert_eq!(with_item.get(), 3);
}

#[test]
fn knn_internal_nodes_are_scored_without_an_item() {
    let tree = nested();
    let parents: Cell<usize> = Cell::new(0);
    let wrong: Cell<bool> = Cell::new(false);
    let _ = tree.knn(
        &"q",
        0,
        |_q: &&'static str, item: Option<&&'static str>, o: KObj<Rect>| {
            if item.is_none() {
                parents.set(parents.get() + 1);
                if o.is_item {
                    wrong.set(true);
                }
            } else if !o.is_item {
                wrong.set(true);
            }
            key(box_dist(&o.mbr, &ORIGIN))
        },
        |_o| (true, false),
    );
    assert_eq!(parents.get(), 3);
    assert!(!wrong.get());
}

#[test]
fn knn_candidates_point_into_the_table_of_items() {
    let tree = three_items();
    let nodes: Cell<[usize; 3]> = Cell::new([9, 9, 9]);
    let n: Cell<usize> = Cell::new(0);
    let _ = tree.knn(&"q", 0, by_box, |o: KObj<Rect>| {
        let mut a = nodes.get();
        a[n.get()] = o.node;
        nodes.set(a);
        n.set(n.get() + 1);
        (true, false)
    });
    assert_eq!(n.get(), 3);
    assert_eq!(nodes.get(), [0, 1, 2]);
}

#[test]
fn knn_equal_distances_leave_in_order_of_arrival() {
    let tree: RTree<&'static str, Rect> = RTree {
        root: vec![leaf("x", ORIGIN), leaf("y", ORIGIN), leaf("z", ORIGIN)],
    };
    let res = tree.knn(&"q", 0, by_box, |_o| (true, false));
    let names: Vec<&str> = res.iter().map(|r| **r).collect();
    assert_eq!(names, vec!["x", "y", "z"]);
}

#[test]
fn knn_twice_gives_the_same() {
    let tree = nested();
    let one = tree.knn(&"q", 4, by_box, |_o| (true, false));
    let two = tree.knn(&"q", 4, by_box, |_o| (true, false));
    assert_eq!(one, two);
}

#[test]
fn knn_with_the_default_predicate() {
    let tree = nested();
    let res = tree.knn(&"q", 3, by_box, RTree::<&'static str, Rect>::knn_predicate);
    let names: Vec<&str> = res.iter().map(|r| **r).collect();
    assert_eq!(names, vec!["near", "soon", "mid"]);
}

#[test]
fn knn_an_internal_node_ranked_too_high_breaks_the_order() {
    let tree: RTree<&'static str, Rect> = RTree {
        root: vec![
            RTreeNode::Parent {
                envelope: [0.0, 0.0, 9.0, 9.0],
                children: vec![leaf("inner", [2.0, 0.0, 3.0, 1.0])],
            },
            leaf("outer", [6.0, 0.0, 7.0, 1.0]),
        ],
    };
    let res = tree.knn(
        &"q",
        0,
        |_q: &&'static str, item: Option<&&'static str>, o: KObj<Rect>| {
            if item.is_none() {
                key(100.0)
            } else {
                key(box_dist(&o.mbr, &ORIGIN))
            }
        },
        |_o| (true, false),
    );
    let names: Vec<&str> = res.iter().map(|r| **r).collect();
    assert_eq!(names, vec!["outer", "inner"]);
}

#[test]
fn knn_returns_no_item_twice_whatever_the_ranks() {
    let tree = nested();
    let turn: Cell<u64> = Cell::new(0);
    let res = tree.knn(
        &"q",
        0,
        |_q: &&'static str, _item: Option<&&'static str>, o: KObj<Rect>| {
            turn.set(turn.get() + 1);
            (o.mbr[0] as u64 * 7 + 3) % 5
        },
        |_o| (true, false),
    );
    let mut names: Vec<&str> = res.iter().map(|r| **r).collect();
    names.sort();
    assert_eq!(names, vec!["far", "last", "late", "mid", "near", "soon"]);
    assert_eq!(turn.get(), 9);
}

#[test]
fn knn_counts_every_item_with_the_default_predicate() {
    let tree = nested();
    let size = tree.size();
    for limit in 0..9usize {
        let res = tree.knn(&"q", limit, by_box, RTree::<&'static str, Rect>::knn_predicate);
        let want = if limit == 0 || limit > size { size } else { limit };
        assert_eq!(res.len(), want);
    }
}
