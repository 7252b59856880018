use rtree_knn::{KObj, MinQueue, RTree, RTreeNode};
use std::cmp::Ordering;

fn cand(d: u64, item: bool, node: usize) -> KObj<u8> {
    KObj { distance: d, is_item: item, mbr: 0, node }
}

#[test]
fn candidates_are_equal_by_distance() {
    assert_eq!(cand(5, true, 1), cand(5, false, 9));
    assert_ne!(cand(5, true, 1), cand(6, true, 1));
}

#[test]
fn nearer_candidate_is_the_greater() {
    assert_eq!(cand(1, true, 0).partial_cmp(&cand(2, true, 0)), Some(Ordering::Greater));
    assert_eq!(cand(2, true, 0).partial_cmp(&cand(1, true, 0)), Some(Ordering::Less));
    assert_eq!(cand(2, true, 0).partial_cmp(&cand(2, false, 7)), Some(Ordering::Equal));
    assert!(cand(1, true, 0) > cand(2, true, 0));
    assert!(cand(3, true, 0) < cand(2, true, 0));
}

#[test]
fn candidate_is_copied_whole() {
    let a = cand(4, true, 3);
    let b = a;
    let c = a.clone();
    assert_eq!(b.distance, 4);
    assert_eq!(c.node, 3);
    assert!(c.is_item);
    assert_eq!(c.mbr, 0);
}

#[test]
fn queue_serves_nearest_first_and_first_come_among_equals() {
    let mut q: MinQueue<u8> = MinQueue::new();
    assert!(q.is_empty());
    assert_eq!(q.len(), 0);
    assert!(q.peek().is_none());
    assert!(q.pop().is_none());
    q.push(cand(7, true, 0));
    q.push(cand(3, true, 1));
    q.push(cand(7, false, 2));
    q.push(cand(3, false, 3));
    q.push(cand(9, true, 4));
    q.push(cand(0, true, 5));
    assert_eq!(q.len(), 6);
    assert!(!q.is_empty());
    assert_eq!(q.peek().unwrap().node, 5);
    assert_eq!(q.len(), 6);
    let order: Vec<usize> = (0..6).map(|_| q.pop().unwrap().node).collect();
    assert_eq!(order, vec![5, 1, 3, 0, 2, 4]);
    assert!(q.pop().is_none());
}

#[test]
fn tree_counts_its_items() {
    let mut tree: RTree<u32, u8> = RTree::new();
    assert_eq!(tree.size(), 0);
    assert!(tree.is_empty());
    assert!(tree.root().is_empty());
    tree.root.push(RTreeNode::Parent { envelope: 0, children: vec![] });
    assert_eq!(tree.size(), 0);
    assert!(tree.is_empty());
    tree.root.push(RTreeNode::Parent {
        envelope: 0,
        children: vec![
            RTreeNode::Leaf { item: 1, envelope: 0 },
            RTreeNode::Parent {
                envelope: 0,
                children: vec![
                    RTreeNode::Leaf { item: 2, envelope: 0 },
                    RTreeNode::Leaf { item: 3, envelope: 0 },
                ],
            },
        ],
    });
    tree.root.push(RTreeNode::Leaf { item: 4, envelope: 0 });
    assert_eq!(tree.size(), 4);
    assert!(!tree.is_empty());
    assert_eq!(tree.root().len(), 3);
    tree.clear();
    assert_eq!(tree.size(), 0);
    assert!(tree.is_empty());
}

#[test]
fn sentinel_and_default_predicate() {
    assert_eq!(RTree::<u32, u8>::max_output_sentinel(), usize::MAX);
    assert_eq!(RTree::<u32, u8>::knn_predicate(cand(1, true, 0)), (true, false));
    assert_eq!(RTree::<u32, u8>::knn_predicate(cand(9, false, 4)), (true, false));
}
