use rstar::{ParentNode, RTreeObject, AABB};
use rtree_knn::{KObj, RTree, RTreeNode};

type Rect = [f64; 4];

#[derive(Clone, Debug)]
struct MonoMBR {
    ll: [f64; 2],
    ur: [f64; 2],
    i: usize,
    j: usize,
}

impl MonoMBR {
    fn new(a: [f64; 2], b: [f64; 2], i: usize, j: usize) -> MonoMBR {
        MonoMBR {
            ll: [a[0].min(b[0]), a[1].min(b[1])],
            ur: [a[0].max(b[0]), a[1].max(b[1])],
            i,
            j,
        }
    }

    fn wkt(&self) -> String {
        format!(
            "POLYGON (({lx} {ly},{lx} {uy},{ux} {uy},{ux} {ly},{lx} {ly}))",
            lx = self.ll[0],
            ly = self.ll[1],
            ux = self.ur[0],
            uy = self.ur[1]
        )
    }
}

impl PartialEq for MonoMBR {
    fn eq(&self, other: &Self) -> bool {
        self.ll == other.ll && self.ur == other.ur
    }
}

impl RTreeObject for MonoMBR {
    type Envelope = AABB<[f64; 2]>;

    fn envelope(&self) -> Self::Envelope {
        AABB::from_corners(self.ll, self.ur)
    }
}

fn rect(e: &AABB<[f64; 2]>) -> Rect {
    [e.lower()[0], e.lower()[1], e.upper()[0], e.upper()[1]]
}

fn key(d: f64) -> u64 {
    d.to_bits()
}

fn box_dist(a: &Rect, b: &Rect) -> f64 {
    let dx = if a[2] < b[0] {
        b[0] - a[2]
    } else if a[0] > b[2] {
        a[0] - b[2]
    } else {
        0.0
    };
    let dy = if a[3] < b[1] {
        b[1] - a[3]
    } else if a[1] > b[3] {
        a[1] - b[3]
    } else {
        0.0
    };
    dx.hypot(dy)
}

fn nodes_of<'a>(p: &'a ParentNode<MonoMBR>) -> Vec<RTreeNode<&'a MonoMBR, Rect>> {
    let mut out = Vec::new();
    for child in p.children() {
        match child {
            rstar::RTreeNode::Leaf(item) => {
                out.push(RTreeNode::Leaf { item, envelope: rect(&item.envelope()) });
            }
            rstar::RTreeNode::Parent(inner) => {
                out.push(RTreeNode::Parent {
                    envelope: rect(&inner.envelope()),
                    children: nodes_of(inner),
                });
            }
        }
    }
    out
}

fn picture<'a>(index: &'a rstar::RTree<MonoMBR>) -> RTree<&'a MonoMBR, Rect> {
    RTree { root: nodes_of(index.root()) }
}

fn grid(n: usize) -> Vec<MonoMBR> {
    let mut items = Vec::new();
    for i in 0..n {
        for j in 0..n {
            let x = (i * 3) as f64;
            let y = (j * 3) as f64;
            items.push(MonoMBR::new([x, y], [x + 1.0, y + 1.0], i, j));
        }
    }
    items
}

#[test]
fn test_rtree() {
    let items = vec![
        MonoMBR::new([0., 0.], [1., 1.], 0, 3),
        MonoMBR::new([1., 1.], [2., 2.], 3, 7),
        MonoMBR::new([4., 2.], [7.0, 3.0], 7, 11),
    ];
    let mut index = rstar::RTree::bulk_load(items);
    assert_eq!(picture(&index).size(), 3);
    let dist = std::f64::MAX;
    let query = MonoMBR::new([0., 0.], [1., 1.], 0, 3);
    let query_box = rect(&query.envelope());
    let got = picture(&index).knn_min_dist(
        &&query,
        &query_box,
        |a: &Rect, b: &Rect| key(box_dist(a, b)),
        |q: &&MonoMBR, item: &&MonoMBR| {
            key(box_dist(&rect(&q.envelope()), &rect(&item.envelope())))
        },
        |o: KObj<Rect>, _m: u64| f64::from_bits(o.distance) > dist || dist == 0.0,
        key(dist),
    );
    assert_eq!(got, Some(key(0.0)));

    let all = index.root().envelope();
    println!("{}", MonoMBR::new(all.lower(), all.upper(), 0, 0).wkt());

    let query = MonoMBR::new([2.5, 0.5], [4.0, 2.5], 0, 9);
    let res: Vec<&MonoMBR> = index.locate_in_envelope_intersecting(query.envelope()).collect();
    for r in res.into_iter() {
        assert!(index.contains(r));
    }
    let at = MonoMBR::new([1., 1.], [2., 2.], 3, 7);
    let res = index.remove(&at);
    assert_eq!(picture(&index).size(), 2);
    assert!(!index.contains(&at));

    match res {
        Some(v) => {
            println!("rm = {}", v.wkt())
        }
        None => println!("None!"),
    }
    println!("tree size = {}", picture(&index).size());
    let rt = index.clone();
    assert_eq!(picture(&rt).size(), 2);
}

#[test]
fn knn_on_a_bulk_loaded_index_matches_a_sort() {
    let items = grid(12);
    let index = rstar::RTree::bulk_load(items.clone());
    let tree = picture(&index);
    assert_eq!(tree.size(), 144);
    assert_eq!(tree.size(), index.size());
    let query = MonoMBR::new([16.2, 7.9], [16.4, 8.3], 0, 0);
    let qb = rect(&query.envelope());
    let res = tree.knn(
        &&query,
        10,
        |_q: &&MonoMBR, _item: Option<&&MonoMBR>, o: KObj<Rect>| key(box_dist(&o.mbr, &qb)),
        |_o| (true, false),
    );
    assert_eq!(res.len(), 10);
    let mut all: Vec<f64> = items.iter().map(|m| box_dist(&rect(&m.envelope()), &qb)).collect();
    all.sort_by(|a, b| a.partial_cmp(b).unwrap());
    for k in 0..10 {
        assert_eq!(box_dist(&rect(&res[k].envelope()), &qb), all[k]);
    }
}

#[test]
fn min_dist_on_a_bulk_loaded_index_matches_brute_force() {
    let items = grid(12);
    let index = rstar::RTree::bulk_load(items.clone());
    let tree = picture(&index);
    let queries = [[50.0, 50.0], [-4.0, 13.5], [16.5, 16.5], [7.0, 100.0]];
    for c in queries.iter() {
        let query = MonoMBR::new(*c, [c[0] + 0.5, c[1] + 0.25], 0, 0);
        let qb = rect(&query.envelope());
        let got = tree.knn_min_dist(
            &&query,
            &qb,
            |a: &Rect, b: &Rect| key(box_dist(a, b)),
            |q: &&MonoMBR, item: &&MonoMBR| {
                key(box_dist(&rect(&q.envelope()), &rect(&item.envelope())))
            },
            |_o: KObj<Rect>, _m: u64| false,
            key(f64::INFINITY),
        );
        let mut best = f64::INFINITY;
        for m in items.iter() {
            let d = box_dist(&rect(&m.envelope()), &qb);
            if d < best {
                best = d;
            }
        }
        assert_eq!(got, Some(key(best)));
    }
}

#[test]
fn picture_of_an_index_after_insert_and_remove() {
    let mut index: rstar::RTree<MonoMBR> = rstar::RTree::new();
    assert!(picture(&index).is_empty());
    for m in grid(5) {
        index.insert(m);
    }
    assert_eq!(picture(&index).size(), 25);
    let gone = MonoMBR::new([6.0, 6.0], [7.0, 7.0], 2, 2);
    assert!(index.remove(&gone).is_some());
    let tree = picture(&index);
    assert_eq!(tree.size(), 24);
    let qb = rect(&gone.envelope());
    let res = tree.knn(
        &&gone,
        1,
        |_q: &&MonoMBR, _item: Option<&&MonoMBR>, o: KObj<Rect>| key(box_dist(&o.mbr, &qb)),
        |_o| (true, false),
    );
    assert_eq!(res.len(), 1);
    assert_eq!(box_dist(&rect(&res[0].envelope()), &qb), 2.0);
    let di = if res[0].i > 2 { res[0].i - 2 } else { 2 - res[0].i };
    let dj = if res[0].j > 2 { res[0].j - 2 } else { 2 - res[0].j };
    assert_eq!(di + dj, 1);
}
