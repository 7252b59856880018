use rtree_knn::{KObj, MinQueue};

fn key(d: f64) -> u64 {
    d.to_bits()
}

fn entry(d: f64) -> KObj<()> {
    KObj { distance: key(d), is_item: false, mbr: (), node: 0 }
}

#[test]
fn test_min_heap() {
    let mut minheap = MinQueue::new();
    minheap.push(entry(0.3));
    minheap.push(entry(42.0));
    minheap.push(entry(0.42));
    minheap.push(entry(1.0));
    minheap.push(entry(0.3));
    minheap.push(entry(0.42));
    minheap.push(entry(0.43));
    let o = minheap.pop();
    assert!(o.is_some());
    assert_eq!(o.unwrap(), entry(0.3));

    let o = minheap.pop();
    assert!(o.is_some());
    assert_eq!(o.unwrap(), entry(0.3));

    let o = minheap.pop();
    assert!(o.is_some());
    assert_eq!(f64::from_bits(o.unwrap().distance), 0.42);

    let o = minheap.pop();
    assert!(o.is_some());
    assert_eq!(f64::from_bits(o.unwrap().distance), 0.42);

    let o = minheap.pop();
    assert!(o.is_some());
    assert_eq!(f64::from_bits(o.unwrap().distance), 0.43);

    let o = minheap.pop();
    assert!(o.is_some());
    assert_eq!(f64::from_bits(o.unwrap().distance), 1.0);

    let o = minheap.pop();
    assert!(o.is_some());
    assert_eq!(f64::from_bits(o.unwrap().distance), 42.0);

    let o = minheap.pop();
    assert!(o.is_none());
}
