use vstd::prelude::*;

use crate::bvh::{lists, node_wf, nodes_wf, split_point, Bvh, BvhChild, BvhNode};

verus! {

/// A measure that falls from a node to its children, which come earlier in
/// the arena.
pub open spec fn child_rank(c: BvhChild) -> nat {
    match c {
        BvhChild::Leaf(_) => 0,
        BvhChild::Node(i) => i as nat + 1,
    }
}

/// Primitive `p` hangs below the child `c`: it is that leaf, or a leaf of
/// the subtree of that node.
pub open spec fn under(nodes: Seq<BvhNode>, c: BvhChild, p: usize) -> bool
    decreases child_rank(c),
{
    match c {
        BvhChild::Leaf(q) => q == p,
        BvhChild::Node(i) => {
            &&& i < nodes.len()
            &&& {
                ||| nodes[i as int].left == BvhChild::Leaf(p)
                ||| nodes[i as int].right == BvhChild::Leaf(p)
                ||| (nodes[i as int].left matches BvhChild::Node(a) && a < i && under(
                    nodes,
                    BvhChild::Node(a),
                    p,
                ))
                ||| (nodes[i as int].right matches BvhChild::Node(b) && b < i && under(
                    nodes,
                    BvhChild::Node(b),
                    p,
                ))
            }
        },
    }
}

proof fn lemma_node_covers(nodes: Seq<BvhNode>, o: Seq<usize>, keys: Seq<[u64; 3]>, i: usize, t: int)
    requires
        nodes_wf(nodes, o, keys),
        i < nodes.len(),
        nodes[i as int].start <= t < nodes[i as int].end,
    ensures
        under(nodes, BvhChild::Node(i), o[t]),
    decreases i,
{
    let nd = nodes[i as int];
    assert(node_wf(nodes, o, keys, i as int));
    let s = nd.start as int;
    let e = nd.end as int;
    if e - s == 1 {
        assert(nd.left == BvhChild::Leaf(o[t]));
    } else if e - s == 2 {
        if t == s {
            assert(nd.left == BvhChild::Leaf(o[t]));
        } else {
            assert(nd.right == BvhChild::Leaf(o[t]));
        }
    } else {
        let a = nd.left->Node_0;
        let b = nd.right->Node_0;
        if t < split_point(s, e) {
            lemma_node_covers(nodes, o, keys, a, t);
        } else {
            lemma_node_covers(nodes, o, keys, b, t);
        }
    }
}

/// Every primitive of a well-formed hierarchy hangs below its root.
pub proof fn lemma_every_primitive_under_root(bvh: &Bvh, keys: Seq<[u64; 3]>, p: usize)
    requires
        bvh.wf(keys),
        p < keys.len(),
    ensures
        under(bvh.nodes@, BvhChild::Node((bvh.nodes.len() - 1) as usize), p),
{
    assert(lists(bvh.order@, p));
    let t = choose|t: int| 0 <= t < bvh.order@.len() && bvh.order@[t] == p;
    lemma_node_covers(bvh.nodes@, bvh.order@, keys, (bvh.nodes.len() - 1) as usize, t);
}

/// What a ray query over the hierarchy asks for next.
#[derive(PartialEq, Eq, Structural, Debug, Clone, Copy)]
pub enum TraversalStep {
    /// Test the ray against the bounding box of this node, up to the
    /// closest hit found so far.
    TestBox(usize),
    /// Test the ray against this primitive, up to the closest hit found so far.
    TestPrimitive(usize),
    /// The query is over; this primitive holds the closest hit, if any.
    Finished(Option<usize>),
}

/// The state of one ray query over a hierarchy: the children still to be
/// visited, the next one last, and the primitive of the closest hit so far.
/// The caller computes each test that a step asks for and reports it back.
pub struct BvhTraversal {
    pub pending: Vec<BvhChild>,
    pub closest: Option<usize>,
}

impl BvhTraversal {
    /// A query that starts at the root, with no hit yet.
    pub fn new(bvh: &Bvh) -> (r: BvhTraversal)
        requires
            bvh.nodes.len() > 0,
        ensures
            r.pending@ == seq![BvhChild::Node((bvh.nodes.len() - 1) as usize)],
            r.closest == None::<usize>,
    {
        let mut pending: Vec<BvhChild> = Vec::new();
        pending.push(BvhChild::Node(bvh.root()));
        BvhTraversal { pending, closest: None }
    }

    /// Takes the next pending child and says which test it needs; with
    /// nothing pending, the query is over.
    pub fn next_step(&mut self) -> (r: TraversalStep)
        ensures
            old(self).pending.len() == 0 ==> r == TraversalStep::Finished(old(self).closest)
                && final(self).pending@ == old(self).pending@,
            old(self).pending.len() > 0 ==> final(self).pending@ == old(self).pending@.drop_last()
                && r == match old(self).pending@.last() {
                BvhChild::Node(i) => TraversalStep::TestBox(i),
                BvhChild::Leaf(p) => TraversalStep::TestPrimitive(p),
            },
            final(self).closest == old(self).closest,
    {
        match self.pending.pop() {
            None => TraversalStep::Finished(self.closest),
            Some(BvhChild::Node(i)) => TraversalStep::TestBox(i),
            Some(BvhChild::Leaf(p)) => TraversalStep::TestPrimitive(p),
        }
    }

    /// Records whether the ray meets the box of `node`. A node whose box is
    /// missed is skipped whole; otherwise both children become pending,
    /// the left one to be visited first, so that the right one is tested
    /// only up to any closer hit found on the left.
    pub fn record_box(&mut self, node: &BvhNode, hit: bool)
        ensures
            hit ==> final(self).pending@ == old(self).pending@.push(node.right).push(node.left),
            !hit ==> final(self).pending@ == old(self).pending@,
            final(self).closest == old(self).closest,
    {
        if hit {
            self.pending.push(node.right);
            self.pending.push(node.left);
        }
    }

    /// Records whether the ray meets primitive `p` before the closest hit
    /// so far; if so, `p` holds the closest hit now.
    pub fn record_primitive(&mut self, p: usize, hit: bool)
        ensures
            final(self).closest == if hit { Some(p) } else { old(self).closest },
            final(self).pending@ == old(self).pending@,
    {
        if hit {
            self.closest = Some(p);
        }
    }
}

/// In a model of one ray query, `dist(p)` is the distance along the ray of
/// primitive `p`'s first hit past the near end of the queried interval, if
/// it has one, and `bound` is the far end (`None`: unbounded). The
/// primitive counts as hit when its distance lies before `bound`.
pub open spec fn hit_before(dist: spec_fn(usize) -> Option<int>, p: usize, bound: Option<int>) -> bool {
    match dist(p) {
        None => false,
        Some(x) => match bound {
            None => true,
            Some(y) => x < y,
        },
    }
}

/// The far end of the interval that the next test uses: the distance of
/// the closest hit so far, or the query's own far end.
pub open spec fn current_bound(
    dist: spec_fn(usize) -> Option<int>,
    limit: Option<int>,
    closest: Option<usize>,
) -> Option<int> {
    match closest {
        Some(c) => dist(c),
        None => limit,
    }
}

/// The distance of a query result.
pub open spec fn result_distance(dist: spec_fn(usize) -> Option<int>, r: Option<usize>) -> Option<int> {
    match r {
        Some(c) => dist(c),
        None => None,
    }
}

/// `c` names a primitive below `n` or a node below `n_nodes`.
pub open spec fn valid_child(c: BvhChild, n_nodes: nat, n: nat) -> bool {
    match c {
        BvhChild::Leaf(q) => q < n,
        BvhChild::Node(i) => i < n_nodes,
    }
}

/// The state of a query over a well-formed hierarchy is sound: the closest
/// hit so far lies within the query, and every primitive that could still
/// give a closer hit hangs below a pending child.
pub open spec fn query_inv(
    bvh: &Bvh,
    keys: Seq<[u64; 3]>,
    dist: spec_fn(usize) -> Option<int>,
    limit: Option<int>,
    pending: Seq<BvhChild>,
    closest: Option<usize>,
) -> bool {
    &&& bvh.wf(keys)
    &&& forall|k: int| 0 <= k < pending.len() ==> valid_child(#[trigger] pending[k], bvh.nodes.len() as nat, keys.len())
    &&& closest matches Some(c) ==> c < keys.len() && hit_before(dist, c, limit)
    &&& forall|p: usize|
        p < keys.len() && #[trigger] hit_before(dist, p, current_bound(dist, limit, closest)) ==> exists|k: int|
            0 <= k < pending.len() && under(bvh.nodes@, #[trigger] pending[k], p)
}

/// A query that starts at the root with no hit is sound.
pub proof fn lemma_query_start(
    bvh: &Bvh,
    keys: Seq<[u64; 3]>,
    dist: spec_fn(usize) -> Option<int>,
    limit: Option<int>,
)
    requires
        bvh.wf(keys),
    ensures
        query_inv(bvh, keys, dist, limit, seq![BvhChild::Node((bvh.nodes.len() - 1) as usize)], None),
{
    let pending = seq![BvhChild::Node((bvh.nodes.len() - 1) as usize)];
    assert forall|p: usize|
        p < keys.len() && #[trigger] hit_before(dist, p, current_bound(dist, limit, None)) implies exists|k: int|
        0 <= k < pending.len() && under(bvh.nodes@, #[trigger] pending[k], p) by {
        lemma_every_primitive_under_root(bvh, keys, p);
        assert(under(bvh.nodes@, pending[0], p));
    }
}

/// Answering a box test keeps a query sound, provided that a miss is
/// reported only where no primitive of the node's subtree is hit before
/// the current bound.
pub proof fn lemma_query_box(
    bvh: &Bvh,
    keys: Seq<[u64; 3]>,
    dist: spec_fn(usize) -> Option<int>,
    limit: Option<int>,
    pending: Seq<BvhChild>,
    closest: Option<usize>,
    i: usize,
    hit: bool,
)
    requires
        query_inv(bvh, keys, dist, limit, pending, closest),
        pending.len() > 0,
        pending.last() == BvhChild::Node(i),
        !hit ==> forall|p: usize|
            under(bvh.nodes@, BvhChild::Node(i), p) ==> !#[trigger] hit_before(
                dist,
                p,
                current_bound(dist, limit, closest),
            ),
    ensures
        query_inv(
            bvh,
            keys,
            dist,
            limit,
            if hit {
                pending.drop_last().push(bvh.nodes@[i as int].right).push(bvh.nodes@[i as int].left)
            } else {
                pending.drop_last()
            },
            closest,
        ),
{
    let n = keys.len();
    let last = pending.len() - 1;
    assert(valid_child(pending[last], bvh.nodes.len() as nat, n));
    let nd = bvh.nodes@[i as int];
    assert(node_wf(bvh.nodes@, bvh.order@, keys, i as int));
    let rest = pending.drop_last();
    let next = if hit { rest.push(nd.right).push(nd.left) } else { rest };
    assert forall|k: int| 0 <= k < next.len() implies valid_child(#[trigger] next[k], bvh.nodes.len() as nat, n) by {
        if k < last {
            assert(next[k] == pending[k]);
        } else {
            let s = nd.start as int;
            let e = nd.end as int;
            assert(bvh.order@[s] < n);
            if e - s == 2 {
                assert(bvh.order@[s + 1] < n);
            }
        }
    }
    assert forall|p: usize|
        p < n && #[trigger] hit_before(dist, p, current_bound(dist, limit, closest)) implies exists|k: int|
        0 <= k < next.len() && under(bvh.nodes@, #[trigger] next[k], p) by {
        let k = choose|k: int| 0 <= k < pending.len() && under(bvh.nodes@, #[trigger] pending[k], p);
        if k < last {
            assert(next[k] == pending[k]);
        } else {
            assert(hit);
            if under(bvh.nodes@, nd.left, p) {
                assert(next[last + 1] == nd.left);
            } else {
                assert(next[last] == nd.right);
            }
        }
    }
}

/// Answering a primitive test exactly keeps a query sound.
pub proof fn lemma_query_primitive(
    bvh: &Bvh,
    keys: Seq<[u64; 3]>,
    dist: spec_fn(usize) -> Option<int>,
    limit: Option<int>,
    pending: Seq<BvhChild>,
    closest: Option<usize>,
    q: usize,
)
    requires
        query_inv(bvh, keys, dist, limit, pending, closest),
        pending.len() > 0,
        pending.last() == BvhChild::Leaf(q),
    ensures
        query_inv(
            bvh,
            keys,
            dist,
            limit,
            pending.drop_last(),
            if hit_before(dist, q, current_bound(dist, limit, closest)) {
                Some(q)
            } else {
                closest
            },
        ),
{
    let n = keys.len();
    let last = pending.len() - 1;
    assert(valid_child(pending[last], bvh.nodes.len() as nat, n));
    let hit = hit_before(dist, q, current_bound(dist, limit, closest));
    let c2 = if hit { Some(q) } else { closest };
    let next = pending.drop_last();
    assert forall|k: int| 0 <= k < next.len() implies valid_child(#[trigger] next[k], bvh.nodes.len() as nat, n) by {
        assert(next[k] == pending[k]);
    }
    if hit {
        if let Some(c) = closest {
            assert(hit_before(dist, c, limit));
        }
    }
    assert forall|p: usize|
        p < n && #[trigger] hit_before(dist, p, current_bound(dist, limit, c2)) implies exists|k: int|
        0 <= k < next.len() && under(bvh.nodes@, #[trigger] next[k], p) by {
        if hit {
            assert(hit_before(dist, p, current_bound(dist, limit, closest)));
        }
        let k = choose|k: int| 0 <= k < pending.len() && under(bvh.nodes@, #[trigger] pending[k], p);
        if k < last {
            assert(next[k] == pending[k]);
        } else {
            assert(p == q);
        }
    }
}

/// When nothing is pending, a sound query holds the closest hit: no
/// primitive is hit before it, and with no result no primitive is hit.
pub proof fn lemma_query_finished(
    bvh: &Bvh,
    keys: Seq<[u64; 3]>,
    dist: spec_fn(usize) -> Option<int>,
    limit: Option<int>,
    closest: Option<usize>,
)
    requires
        query_inv(bvh, keys, dist, limit, Seq::empty(), closest),
    ensures
        closest matches Some(c) ==> c < keys.len() && hit_before(dist, c, limit),
        forall|p: usize|
            p < keys.len() ==> !#[trigger] hit_before(dist, p, current_bound(dist, limit, closest)),
{
    assert forall|p: usize| p < keys.len() implies !#[trigger] hit_before(
        dist,
        p,
        current_bound(dist, limit, closest),
    ) by {
        if hit_before(dist, p, current_bound(dist, limit, closest)) {
            let k = choose|k: int| 0 <= k < 0 && under(bvh.nodes@, #[trigger] Seq::<BvhChild>::empty()[k], p);
        }
    }
}

/// The result of testing primitives `0..k` one after another, each only up
/// to the closest hit found before it.
pub open spec fn linear_scan(dist: spec_fn(usize) -> Option<int>, limit: Option<int>, k: nat) -> Option<usize>
    decreases k,
{
    if k == 0 {
        None
    } else {
        let prev = linear_scan(dist, limit, (k - 1) as nat);
        if hit_before(dist, (k - 1) as usize, current_bound(dist, limit, prev)) {
            Some((k - 1) as usize)
        } else {
            prev
        }
    }
}

proof fn lemma_linear_scan_closest(dist: spec_fn(usize) -> Option<int>, limit: Option<int>, k: nat)
    requires
        k <= usize::MAX,
    ensures
        linear_scan(dist, limit, k) matches Some(c) ==> c < k && hit_before(dist, c, limit),
        forall|p: usize|
            p < k ==> !#[trigger] hit_before(dist, p, current_bound(dist, limit, linear_scan(dist, limit, k))),
    decreases k,
{
    if k > 0 {
        let k1 = (k - 1) as nat;
        lemma_linear_scan_closest(dist, limit, k1);
        let prev = linear_scan(dist, limit, k1);
        let q = k1 as usize;
        if hit_before(dist, q, current_bound(dist, limit, prev)) {
            if let Some(c) = prev {
                assert(hit_before(dist, c, limit));
            }
            assert forall|p: usize| p < k implies !#[trigger] hit_before(
                dist,
                p,
                current_bound(dist, limit, linear_scan(dist, limit, k)),
            ) by {
                if p < k1 {
                    assert(!hit_before(dist, p, current_bound(dist, limit, prev)));
                }
            }
        }
    }
}

/// A query over the hierarchy finds a hit at the same distance as a linear
/// scan over all primitives: once the stepper has run out of pending
/// children, having had sound answers to its box tests and exact ones to
/// its primitive tests, its closest hit is as near as the scan's, and it
/// has one exactly when the scan has one.
pub proof fn lemma_query_matches_linear_scan(
    bvh: &Bvh,
    keys: Seq<[u64; 3]>,
    dist: spec_fn(usize) -> Option<int>,
    limit: Option<int>,
    closest: Option<usize>,
)
    requires
        query_inv(bvh, keys, dist, limit, Seq::empty(), closest),
    ensures
        result_distance(dist, closest) == result_distance(dist, linear_scan(dist, limit, keys.len())),
{
    let n = keys.len();
    lemma_query_finished(bvh, keys, dist, limit, closest);
    lemma_linear_scan_closest(dist, limit, n);
    let scan = linear_scan(dist, limit, n);
    match (closest, scan) {
        (Some(c), Some(d)) => {
            assert(!hit_before(dist, d, current_bound(dist, limit, closest)));
            assert(!hit_before(dist, c, current_bound(dist, limit, scan)));
        },
        (Some(c), None) => {
            assert(!hit_before(dist, c, current_bound(dist, limit, scan)));
        },
        (None, Some(d)) => {
            assert(!hit_before(dist, d, current_bound(dist, limit, closest)));
        },
        (None, None) => {},
    }
}

} // verus!
