use tracey::bvh::{sort_key, Bvh, BvhChild};
use tracey::traversal::{BvhTraversal, TraversalStep};

fn keys_from(points: &[[f64; 3]]) -> Vec<[u64; 3]> {
    points
        .iter()
        .map(|p| [sort_key(p[0].to_bits()), sort_key(p[1].to_bits()), sort_key(p[2].to_bits())])
        .collect()
}

fn check_layout(bvh: &Bvh, keys: &[[u64; 3]]) {
    let n = keys.len();
    let mut seen = vec![false; n];
    for &p in &bvh.order {
        assert!(p < n);
        assert!(!seen[p]);
        seen[p] = true;
    }
    let root = bvh.root();
    assert_eq!(root, bvh.nodes.len() - 1);
    assert_eq!(bvh.nodes[root].start, 0);
    assert_eq!(bvh.nodes[root].end, n);
    for (i, nd) in bvh.nodes.iter().enumerate() {
        assert!(nd.axis < 3);
        assert!(nd.start < nd.end);
        let mid = nd.start + (nd.end - nd.start) / 2;
        match nd.end - nd.start {
            1 => {
                assert_eq!(nd.left, BvhChild::Leaf(bvh.order[nd.start]));
                assert_eq!(nd.right, BvhChild::Leaf(bvh.order[nd.start]));
            }
            2 => {
                assert_eq!(nd.left, BvhChild::Leaf(bvh.order[nd.start]));
                assert_eq!(nd.right, BvhChild::Leaf(bvh.order[nd.start + 1]));
            }
            _ => match (nd.left, nd.right) {
                (BvhChild::Node(a), BvhChild::Node(b)) => {
                    assert!(a < i && b < i);
                    assert_eq!((bvh.nodes[a].start, bvh.nodes[a].end), (nd.start, mid));
                    assert_eq!((bvh.nodes[b].start, bvh.nodes[b].end), (mid, nd.end));
                }
                _ => panic!("inner node without inner children"),
            },
        }
        for p in nd.start..mid {
            for q in mid..nd.end {
                assert!(keys[bvh.order[p]][nd.axis] <= keys[bvh.order[q]][nd.axis]);
            }
        }
    }
}

fn leaves_under(bvh: &Bvh, c: BvhChild, out: &mut Vec<usize>) {
    match c {
        BvhChild::Leaf(p) => out.push(p),
        BvhChild::Node(i) => {
            leaves_under(bvh, bvh.nodes[i].left, out);
            leaves_under(bvh, bvh.nodes[i].right, out);
        }
    }
}

// Runs one query with integer hit distances; a box is reported as hit when
// some primitive below it is hit before the current bound.
fn query(bvh: &Bvh, dist: &[Option<i64>], limit: i64) -> Option<usize> {
    let bound = |closest: Option<usize>| match closest {
        Some(c) => dist[c].unwrap(),
        None => limit,
    };
    let mut t = BvhTraversal::new(bvh);
    loop {
        match t.next_step() {
            TraversalStep::Finished(r) => return r,
            TraversalStep::TestBox(i) => {
                let mut leaves = Vec::new();
                leaves_under(bvh, BvhChild::Node(i), &mut leaves);
                let b = bound(t.closest);
                let hit = leaves.iter().any(|&p| matches!(dist[p], Some(d) if d < b));
                let node = bvh.nodes[i];
                t.record_box(&node, hit);
            }
            TraversalStep::TestPrimitive(p) => {
                let hit = matches!(dist[p], Some(d) if d < bound(t.closest));
                t.record_primitive(p, hit);
            }
        }
    }
}

fn linear_scan(dist: &[Option<i64>], limit: i64) -> Option<i64> {
    let mut closest = limit;
    let mut found = None;
    for d in dist.iter().flatten() {
        if *d < closest {
            closest = *d;
            found = Some(*d);
        }
    }
    found
}

#[test]
fn single_primitive_has_one_leaf_twice() {
    let keys = keys_from(&[[1.0, 2.0, 3.0]]);
    let bvh = Bvh::new(&keys);
    assert_eq!(bvh.nodes.len(), 1);
    assert_eq!(bvh.nodes[0].left, BvhChild::Leaf(0));
    assert_eq!(bvh.nodes[0].right, BvhChild::Leaf(0));
    check_layout(&bvh, &keys);
}

#[test]
fn two_primitives_are_ordered_on_the_axis() {
    let keys = keys_from(&[[5.0, 5.0, 5.0], [-1.0, -1.0, -1.0]]);
    let bvh = Bvh::new(&keys);
    assert_eq!(bvh.nodes.len(), 1);
    assert_eq!(bvh.nodes[0].left, BvhChild::Leaf(1));
    assert_eq!(bvh.nodes[0].right, BvhChild::Leaf(0));
    check_layout(&bvh, &keys);
}

#[test]
fn larger_sets_are_split_at_the_midpoint() {
    let mut pts = Vec::new();
    for i in 0..37 {
        let f = i as f64;
        pts.push([(f * 7.3) % 11.0 - 5.0, (f * 3.1) % 13.0, -(f * 1.7) % 5.0]);
    }
    let keys = keys_from(&pts);
    for _ in 0..20 {
        let bvh = Bvh::new(&keys);
        check_layout(&bvh, &keys);
        let mut leaves = Vec::new();
        leaves_under(&bvh, BvhChild::Node(bvh.root()), &mut leaves);
        leaves.sort();
        leaves.dedup();
        assert_eq!(leaves, (0..37).collect::<Vec<usize>>());
    }
}

#[test]
fn query_matches_linear_scan() {
    let mut pts = Vec::new();
    let mut dist = Vec::new();
    for i in 0..25i64 {
        let f = i as f64;
        pts.push([(f * 5.7) % 9.0, (f * 2.3) % 4.0 - 2.0, (f * 1.1) % 6.0]);
        dist.push(if i % 3 == 0 { None } else { Some((i * 37) % 23 + 1) });
    }
    let keys = keys_from(&pts);
    for limit in [5i64, 12, 100] {
        for _ in 0..10 {
            let bvh = Bvh::new(&keys);
            let r = query(&bvh, &dist, limit);
            assert_eq!(r.map(|c| dist[c].unwrap()), linear_scan(&dist, limit));
        }
    }
}

#[test]
fn query_with_no_hit_finishes_empty() {
    let keys = keys_from(&[[0.0, 0.0, 0.0], [1.0, 1.0, 1.0], [2.0, 2.0, 2.0]]);
    let bvh = Bvh::new(&keys);
    assert_eq!(query(&bvh, &[None, None, None], 10), None);
    assert_eq!(query(&bvh, &[Some(20), None, Some(11)], 10), None);
}

#[test]
fn missed_box_skips_its_subtree() {
    let keys = keys_from(&[[0.0, 0.0, 0.0], [1.0, 1.0, 1.0], [2.0, 2.0, 2.0]]);
    let bvh = Bvh::new(&keys);
    let mut t = BvhTraversal::new(&bvh);
    assert_eq!(t.next_step(), TraversalStep::TestBox(bvh.root()));
    let root = bvh.nodes[bvh.root()];
    t.record_box(&root, false);
    assert!(t.pending.is_empty());
    assert_eq!(t.next_step(), TraversalStep::Finished(None));
}

#[test]
fn hit_box_visits_left_child_first() {
    let keys = keys_from(&[[0.0, 0.0, 0.0], [1.0, 1.0, 1.0]]);
    let bvh = Bvh::new(&keys);
    let mut t = BvhTraversal::new(&bvh);
    assert_eq!(t.next_step(), TraversalStep::TestBox(0));
    t.record_box(&bvh.nodes[0], true);
    assert_eq!(t.next_step(), TraversalStep::TestPrimitive(0));
    t.record_primitive(0, true);
    assert_eq!(t.next_step(), TraversalStep::TestPrimitive(1));
    t.record_primitive(1, false);
    assert_eq!(t.next_step(), TraversalStep::Finished(Some(0)));
}

#[test]
fn sort_key_values() {
    assert_eq!(sort_key(0), 0x8000_0000_0000_0000);
    assert_eq!(sort_key(0x8000_0000_0000_0000), 0x7FFF_FFFF_FFFF_FFFF);
    assert_eq!(sort_key(1.0f64.to_bits()), 0xBFF0_0000_0000_0000);
    assert_eq!(sort_key((-1.0f64).to_bits()), 0x400F_FFFF_FFFF_FFFF);
}

#[test]
fn sort_key_follows_float_order() {
    let values: [f64; 10] = [-1e300, -3.5, -1.0, -1e-10, 0.0, 1e-10, 0.5, 1.0, 2.0, 1e300];
    for w in values.windows(2) {
        assert!(sort_key(w[0].to_bits()) < sort_key(w[1].to_bits()));
    }
}
