use rand::Rng;
use vstd::prelude::*;

verus! {

/// One side of a BVH node: a primitive, by its index in the primitive list,
/// or another node, by its index in the node arena.
#[derive(PartialEq, Eq, Structural, Debug, Clone, Copy)]
pub enum BvhChild {
    Leaf(usize),
    Node(usize),
}

/// A node of the hierarchy. It covers the primitives `order[start..end]` of
/// its tree and splits them on `axis` at the midpoint of that range.
#[derive(PartialEq, Eq, Structural, Debug, Clone, Copy)]
pub struct BvhNode {
    pub left: BvhChild,
    pub right: BvhChild,
    pub axis: usize,
    pub start: usize,
    pub end: usize,
}

/// A bounding-volume hierarchy over primitives `0..n`, stored as an arena.
/// Children always come before their parent; the root is the last node.
pub struct Bvh {
    /// The primitives in leaf order, left to right.
    pub order: Vec<usize>,
    pub nodes: Vec<BvhNode>,
}

/// The sort key of primitive `p` on `axis`: the position of its bounding
/// box's minimum corner on that axis, as an order-preserving integer.
pub open spec fn key(keys: Seq<[u64; 3]>, p: usize, axis: usize) -> u64 {
    keys[p as int]@[axis as int]
}

/// The sort key on `axis` of the primitive at position `i` of `o`.
pub open spec fn key_at(keys: Seq<[u64; 3]>, o: Seq<usize>, i: int, axis: usize) -> u64 {
    key(keys, o[i], axis)
}

/// The index at which a node over `[start, end)` splits its range.
pub open spec fn split_point(start: int, end: int) -> int {
    start + (end - start) / 2
}

/// `o` lists each of `0..n` exactly once.
pub open spec fn is_permutation(o: Seq<usize>, n: nat) -> bool {
    &&& o.len() == n
    &&& forall|i: int| 0 <= i < n ==> #[trigger] o[i] < n
    &&& forall|i: int, j: int| 0 <= i < j < n ==> #[trigger] o[i] != #[trigger] o[j]
    &&& forall|v: usize| v < n ==> #[trigger] lists(o, v)
}

/// `v` is an entry of `o`.
pub open spec fn lists(o: Seq<usize>, v: usize) -> bool {
    exists|t: int| 0 <= t < o.len() && o[t] == v
}

/// Every key on `axis` in the left half of `[start, end)` is at most every
/// key in the right half.
pub open spec fn partitioned(
    keys: Seq<[u64; 3]>,
    o: Seq<usize>,
    start: int,
    end: int,
    axis: usize,
) -> bool {
    forall|p: int, q: int|
        start <= p < split_point(start, end) <= q < end ==> #[trigger] key_at(keys, o, p, axis)
            <= #[trigger] key_at(keys, o, q, axis)
}

/// Node `i` of `nodes` is well formed with respect to the leaf order `o`.
pub open spec fn node_wf(nodes: Seq<BvhNode>, o: Seq<usize>, keys: Seq<[u64; 3]>, i: int) -> bool {
    let nd = nodes[i];
    let s = nd.start as int;
    let e = nd.end as int;
    let m = split_point(s, e);
    &&& s < e <= o.len()
    &&& nd.axis < 3
    &&& if e - s == 1 {
        nd.left == BvhChild::Leaf(o[s]) && nd.right == BvhChild::Leaf(o[s])
    } else if e - s == 2 {
        nd.left == BvhChild::Leaf(o[s]) && nd.right == BvhChild::Leaf(o[s + 1])
    } else {
        &&& nd.left matches BvhChild::Node(a)
        &&& nd.right matches BvhChild::Node(b)
        &&& 0 <= a < i && nodes[a as int].start == s && nodes[a as int].end == m
        &&& 0 <= b < i && nodes[b as int].start == m && nodes[b as int].end == e
    }
    &&& partitioned(keys, o, s, e, nd.axis)
}

/// Every node of `nodes` is well formed.
pub open spec fn nodes_wf(nodes: Seq<BvhNode>, o: Seq<usize>, keys: Seq<[u64; 3]>) -> bool {
    forall|i: int| 0 <= i < nodes.len() ==> #[trigger] node_wf(nodes, o, keys, i)
}

/// Each entry of `next[start..end]` is some entry of `prev[start..end]`.
pub open spec fn drawn_from(next: Seq<usize>, prev: Seq<usize>, start: int, end: int) -> bool {
    forall|p: int| start <= p < end ==> #[trigger] occurs_in(prev, next[p], start, end)
}

pub open spec fn occurs_in(s: Seq<usize>, v: usize, start: int, end: int) -> bool {
    exists|q: int| start <= q < end && s[q] == v
}

/// `next` equals `prev` outside `[start, end)`.
pub open spec fn same_outside(next: Seq<usize>, prev: Seq<usize>, start: int, end: int) -> bool {
    &&& next.len() == prev.len()
    &&& forall|p: int| 0 <= p < prev.len() && !(start <= p < end) ==> #[trigger] next[p] == prev[p]
}

/// The sign bit of an IEEE 754 double.
pub const SIGN_BIT: u64 = 0x8000_0000_0000_0000;

/// The sort key of a double from its bit pattern (as `f64::to_bits` gives
/// it): the sign bit is set for non-negative values and all bits are
/// flipped for negative ones, so that integer order follows the order of
/// the values.
pub open spec fn sort_key_spec(bits: u64) -> u64 {
    if bits & SIGN_BIT != 0 {
        !bits
    } else {
        bits | SIGN_BIT
    }
}

/// The sort key of a double from its bit pattern; see [`sort_key_spec`].
pub fn sort_key(bits: u64) -> (r: u64)
    ensures
        r == sort_key_spec(bits),
{
    if bits & SIGN_BIT != 0 {
        !bits
    } else {
        bits | SIGN_BIT
    }
}

/// Sort keys order doubles as their values are ordered: every negative
/// value (sign bit set) sorts below every non-negative one, two
/// non-negative values sort as their magnitudes, and two negative values
/// sort in reverse order of their magnitudes.
pub proof fn lemma_sort_key_order(a: u64, b: u64)
    ensures
        a & SIGN_BIT != 0 && b & SIGN_BIT == 0 ==> sort_key_spec(a) < sort_key_spec(b),
        a & SIGN_BIT == 0 && b & SIGN_BIT == 0 ==> (sort_key_spec(a) < sort_key_spec(b) <==> a < b),
        a & SIGN_BIT != 0 && b & SIGN_BIT != 0 ==> (sort_key_spec(a) < sort_key_spec(b) <==> b < a),
{
    assert(a & 0x8000_0000_0000_0000u64 != 0 && b & 0x8000_0000_0000_0000u64 == 0 ==> !a < (b
        | 0x8000_0000_0000_0000u64)) by (bit_vector);
    assert(a & 0x8000_0000_0000_0000u64 == 0 && b & 0x8000_0000_0000_0000u64 == 0 ==> ((a
        | 0x8000_0000_0000_0000u64) < (b | 0x8000_0000_0000_0000u64) <==> a < b)) by (bit_vector);
    assert(a & 0x8000_0000_0000_0000u64 != 0 && b & 0x8000_0000_0000_0000u64 != 0 ==> (!a < !b
        <==> b < a)) by (bit_vector);
}

/// Relies on rand's `Rng::gen_range` on the thread-local generator, which
/// returns a value in `[low, high)` and panics only when `low >= high`.
#[verifier::external_body]
fn random_below(high: usize) -> (r: usize)
    requires
        0 < high,
    ensures
        r < high,
{
    rand::thread_rng().gen_range(0, high)
}

/// Sorted by the key on `axis` over `[start, end)`.
pub open spec fn sorted_on(keys: Seq<[u64; 3]>, o: Seq<usize>, start: int, end: int, axis: usize) -> bool {
    forall|p: int, q: int|
        start <= p < q < end ==> #[trigger] key_at(keys, o, p, axis) <= #[trigger] key_at(
            keys,
            o,
            q,
            axis,
        )
}

/// Every entry of `o` indexes `keys`.
pub open spec fn indexes_keys(o: Seq<usize>, keys: Seq<[u64; 3]>) -> bool {
    forall|i: int| 0 <= i < o.len() ==> #[trigger] o[i] < keys.len()
}

proof fn lemma_drawn_from_trans(a: Seq<usize>, b: Seq<usize>, c: Seq<usize>, start: int, end: int)
    requires
        drawn_from(a, b, start, end),
        drawn_from(b, c, start, end),
    ensures
        drawn_from(a, c, start, end),
{
    assert forall|p: int| start <= p < end implies #[trigger] occurs_in(c, a[p], start, end) by {
        assert(occurs_in(b, a[p], start, end));
        let q = choose|q: int| start <= q < end && b[q] == a[p];
        assert(occurs_in(c, b[q], start, end));
    }
}

/// Exchanges two entries of the leaf order.
fn swap_entries(order: &mut Vec<usize>, a: usize, b: usize)
    requires
        a < b < old(order).len(),
    ensures
        final(order)@ == old(order)@.update(a as int, old(order)@[b as int]).update(
            b as int,
            old(order)@[a as int],
        ),
{
    let t = order[a];
    let u = order[b];
    order.set(a, u);
    order.set(b, t);
}

/// Sorts `order[start..end]` by the key on `axis`, by insertion, leaving
/// the rest of `order` alone.
fn sort_range(keys: &Vec<[u64; 3]>, order: &mut Vec<usize>, start: usize, end: usize, axis: usize)
    requires
        start <= end <= old(order).len(),
        axis < 3,
        indexes_keys(old(order)@, keys@),
        is_permutation(old(order)@, old(order)@.len()),
    ensures
        indexes_keys(final(order)@, keys@),
        is_permutation(final(order)@, old(order)@.len()),
        same_outside(final(order)@, old(order)@, start as int, end as int),
        drawn_from(final(order)@, old(order)@, start as int, end as int),
        sorted_on(keys@, final(order)@, start as int, end as int, axis),
{
    let ghost orig = order@;
    let n = order.len();
    if start == end {
        return;
    }
    assert forall|p: int| start <= p < end implies #[trigger] occurs_in(orig, order@[p], start as int, end as int) by {
        assert(orig[p] == order@[p]);
    }
    let mut i: usize = start + 1;
    while i < end
        invariant
            start < i <= end <= n,
            n == order.len(),
            axis < 3,
            indexes_keys(order@, keys@),
            is_permutation(order@, n as nat),
            same_outside(order@, orig, start as int, end as int),
            drawn_from(order@, orig, start as int, end as int),
            sorted_on(keys@, order@, start as int, i as int, axis),
        decreases end - i,
    {
        let mut j: usize = i;
        while j > start && keys[order[j - 1]][axis] > keys[order[j]][axis]
            invariant
                start <= j <= i < end <= n,
                n == order.len(),
                axis < 3,
                indexes_keys(order@, keys@),
                is_permutation(order@, n as nat),
                same_outside(order@, orig, start as int, end as int),
                drawn_from(order@, orig, start as int, end as int),
                sorted_on(keys@, order@, start as int, j as int, axis),
                sorted_on(keys@, order@, j as int, i + 1, axis),
                forall|p: int, q: int|
                    start <= p < j < q <= i ==> #[trigger] key_at(keys@, order@, p, axis)
                        <= #[trigger] key_at(keys@, order@, q, axis),
            decreases j,
        {
            let ghost before = order@;
            assert(key_at(keys@, before, j - 1, axis) > key_at(keys@, before, j as int, axis));
            swap_entries(order, j - 1, j);
            let ghost jj = j as int;
            assert forall|p: int| 0 <= p < n implies #[trigger] order@[p] == before[if p == jj - 1 {
                jj
            } else if p == jj {
                jj - 1
            } else {
                p
            }] by {}
            assert forall|p: int| start <= p < end implies #[trigger] occurs_in(before, order@[p], start as int, end as int) by {
                if p == j - 1 {
                    assert(before[j as int] == order@[p]);
                } else if p == j {
                    assert(before[j - 1] == order@[p]);
                } else {
                    assert(before[p] == order@[p]);
                }
            }
            proof { lemma_drawn_from_trans(order@, before, orig, start as int, end as int); }
            assert forall|a: int, b: int| 0 <= a < b < n implies #[trigger] order@[a] != #[trigger] order@[b] by {
                let sa = if a == j - 1 { j as int } else if a == j { j - 1 } else { a };
                let sb = if b == j - 1 { j as int } else if b == j { j - 1 } else { b };
                assert(order@[a] == before[sa]);
                assert(order@[b] == before[sb]);
                if sa < sb {
                    assert(before[sa] != before[sb]);
                } else {
                    assert(before[sb] != before[sa]);
                }
            }
            assert forall|v: usize| v < n implies #[trigger] lists(order@, v) by {
                assert(lists(before, v));
                let t = choose|t: int| 0 <= t < before.len() && before[t] == v;
                let st = if t == j - 1 { jj } else if t == j { jj - 1 } else { t };
                assert(order@[st] == v);
            }
            assert forall|p: int| 0 <= p < n implies #[trigger] order@[p] < n && order@[p] < keys@.len() by {
                let sp = if p == j - 1 { j as int } else if p == j { j - 1 } else { p };
                assert(order@[p] == before[sp]);
            }
            assert forall|p: int, q: int|
                j - 1 <= p < q < i + 1 implies #[trigger] key_at(keys@, order@, p, axis)
                <= #[trigger] key_at(keys@, order@, q, axis) by {
                if p == j - 1 && q == j {
                    assert(order@[p] == before[jj]);
                    assert(order@[q] == before[jj - 1]);
                } else if p == j - 1 {
                    assert(order@[p] == before[jj]);
                    assert(order@[q] == before[q]);
                    assert(key_at(keys@, before, jj, axis) <= key_at(keys@, before, q, axis));
                } else if p == j {
                    assert(order@[p] == before[jj - 1]);
                    assert(order@[q] == before[q]);
                    assert(key_at(keys@, before, jj - 1, axis) <= key_at(keys@, before, q, axis));
                } else {
                    assert(order@[p] == before[p]);
                    assert(order@[q] == before[q]);
                    assert(key_at(keys@, before, p, axis) <= key_at(keys@, before, q, axis));
                }
            }
            assert forall|p: int, q: int|
                start <= p < q < j - 1 implies #[trigger] key_at(keys@, order@, p, axis)
                <= #[trigger] key_at(keys@, order@, q, axis) by {
                assert(order@[p] == before[p]);
                assert(order@[q] == before[q]);
                assert(key_at(keys@, before, p, axis) <= key_at(keys@, before, q, axis));
            }
            assert forall|p: int, q: int|
                start <= p < j - 1 < q <= i implies #[trigger] key_at(keys@, order@, p, axis)
                <= #[trigger] key_at(keys@, order@, q, axis) by {
                assert(order@[p] == before[p]);
                if q == j {
                    assert(order@[q] == before[jj - 1]);
                    assert(key_at(keys@, before, p, axis) <= key_at(keys@, before, jj - 1, axis));
                } else {
                    assert(order@[q] == before[q]);
                    assert(key_at(keys@, before, p, axis) <= key_at(keys@, before, q, axis));
                }
            }
            j = j - 1;
        }
        assert forall|p: int, q: int|
            start <= p < q < i + 1 implies #[trigger] key_at(keys@, order@, p, axis)
            <= #[trigger] key_at(keys@, order@, q, axis) by {
            if q < j {
            } else if p >= j {
            } else if q > j {
            } else {
                assert(j > start);
                assert(key_at(keys@, order@, j - 1, axis) <= key_at(keys@, order@, j as int, axis));
                if p < j - 1 {
                    assert(key_at(keys@, order@, p, axis) <= key_at(keys@, order@, j - 1, axis));
                }
            }
        }
        i = i + 1;
    }
}

proof fn lemma_node_wf_frame(
    n1: Seq<BvhNode>,
    o1: Seq<usize>,
    n2: Seq<BvhNode>,
    o2: Seq<usize>,
    keys: Seq<[u64; 3]>,
    i: int,
)
    requires
        0 <= i < n1.len() <= n2.len(),
        node_wf(n1, o1, keys, i),
        forall|k: int| 0 <= k < n1.len() ==> #[trigger] n2[k] == n1[k],
        o1.len() == o2.len(),
        forall|p: int| n1[i].start <= p < n1[i].end ==> #[trigger] o2[p] == o1[p],
    ensures
        node_wf(n2, o2, keys, i),
{
    let nd = n1[i];
    assert(n2[i] == nd);
    let s = nd.start as int;
    let e = nd.end as int;
    assert forall|p: int, q: int|
        s <= p < split_point(s, e) <= q < e implies #[trigger] key_at(keys, o2, p, nd.axis)
        <= #[trigger] key_at(keys, o2, q, nd.axis) by {
        assert(o2[p] == o1[p]);
        assert(o2[q] == o1[q]);
        assert(key_at(keys, o1, p, nd.axis) <= key_at(keys, o1, q, nd.axis));
    }
    if e - s == 1 {
        assert(o2[s] == o1[s]);
    } else if e - s == 2 {
        assert(o2[s] == o1[s]);
        assert(o2[s + 1] == o1[s + 1]);
    } else {
        let a = nd.left->Node_0 as int;
        let b = nd.right->Node_0 as int;
        assert(n2[a] == n1[a]);
        assert(n2[b] == n1[b]);
    }
}

/// Nodes that lie outside `[start, end)` stay well formed when only that
/// part of the leaf order changes and only new nodes are appended.
proof fn lemma_nodes_frame(
    n1: Seq<BvhNode>,
    o1: Seq<usize>,
    n2: Seq<BvhNode>,
    o2: Seq<usize>,
    keys: Seq<[u64; 3]>,
    start: int,
    end: int,
)
    requires
        nodes_wf(n1, o1, keys),
        n1.len() <= n2.len(),
        forall|k: int| 0 <= k < n1.len() ==> #[trigger] n2[k] == n1[k],
        same_outside(o2, o1, start, end),
        forall|k: int| 0 <= k < n1.len() ==> #[trigger] n1[k].end <= start || n1[k].start >= end,
    ensures
        forall|k: int| 0 <= k < n1.len() ==> #[trigger] node_wf(n2, o2, keys, k),
{
    assert forall|k: int| 0 <= k < n1.len() implies #[trigger] node_wf(n2, o2, keys, k) by {
        assert(node_wf(n1, o1, keys, k));
        assert(n1[k].end <= start || n1[k].start >= end);
        assert forall|p: int| n1[k].start <= p < n1[k].end implies #[trigger] o2[p] == o1[p] by {
            assert(p < o1.len());
        }
        lemma_node_wf_frame(n1, o1, n2, o2, keys, k);
    }
}

/// A range that was sorted, and whose two halves were then each only
/// rearranged in place, is still split by key at its midpoint.
proof fn lemma_halves_keep_partition(
    keys: Seq<[u64; 3]>,
    sorted: Seq<usize>,
    after_left: Seq<usize>,
    fin: Seq<usize>,
    start: int,
    end: int,
    axis: usize,
)
    requires
        0 <= start < end <= sorted.len(),
        sorted_on(keys, sorted, start, end, axis),
        drawn_from(after_left, sorted, start, split_point(start, end)),
        same_outside(after_left, sorted, start, split_point(start, end)),
        drawn_from(fin, after_left, split_point(start, end), end),
        same_outside(fin, after_left, split_point(start, end), end),
    ensures
        partitioned(keys, fin, start, end, axis),
        drawn_from(fin, sorted, start, end),
        same_outside(fin, sorted, start, end),
{
    let m = split_point(start, end);
    assert forall|p: int, q: int|
        start <= p < m <= q < end implies #[trigger] key_at(keys, fin, p, axis)
        <= #[trigger] key_at(keys, fin, q, axis) by {
        assert(fin[p] == after_left[p]);
        assert(occurs_in(sorted, after_left[p], start, m));
        let p2 = choose|p2: int| start <= p2 < m && sorted[p2] == after_left[p];
        assert(occurs_in(after_left, fin[q], m, end));
        let q2 = choose|q2: int| m <= q2 < end && after_left[q2] == fin[q];
        assert(after_left[q2] == sorted[q2]);
        assert(key_at(keys, sorted, p2, axis) <= key_at(keys, sorted, q2, axis));
    }
    assert forall|p: int| start <= p < end implies #[trigger] occurs_in(sorted, fin[p], start, end) by {
        if p < m {
            assert(fin[p] == after_left[p]);
            assert(occurs_in(sorted, after_left[p], start, m));
            let p2 = choose|p2: int| start <= p2 < m && sorted[p2] == after_left[p];
        } else {
            assert(occurs_in(after_left, fin[p], m, end));
            let q2 = choose|q2: int| m <= q2 < end && after_left[q2] == fin[p];
            assert(after_left[q2] == sorted[q2]);
        }
    }
}

/// Builds the subtree over `order[start..end]`, sorting and splitting that
/// part of `order` in place and appending its nodes; returns the index of
/// its root.
fn build_range(
    keys: &Vec<[u64; 3]>,
    order: &mut Vec<usize>,
    nodes: &mut Vec<BvhNode>,
    start: usize,
    end: usize,
) -> (idx: usize)
    requires
        start < end <= old(order).len(),
        is_permutation(old(order)@, keys.len() as nat),
        nodes_wf(old(nodes)@, old(order)@, keys@),
        forall|k: int|
            0 <= k < old(nodes).len() ==> #[trigger] old(nodes)@[k].end <= start
                || old(nodes)@[k].start >= end,
    ensures
        is_permutation(final(order)@, keys.len() as nat),
        same_outside(final(order)@, old(order)@, start as int, end as int),
        drawn_from(final(order)@, old(order)@, start as int, end as int),
        old(nodes).len() < final(nodes).len(),
        idx == final(nodes).len() - 1,
        forall|k: int| 0 <= k < old(nodes).len() ==> #[trigger] final(nodes)@[k] == old(nodes)@[k],
        nodes_wf(final(nodes)@, final(order)@, keys@),
        forall|k: int|
            old(nodes).len() <= k < final(nodes).len() ==> start <= #[trigger] final(nodes)@[k].start
                && final(nodes)@[k].end <= end,
        final(nodes)@[idx as int].start == start,
        final(nodes)@[idx as int].end == end,
    decreases end - start,
{
    let ghost o0 = order@;
    let ghost n0 = nodes@;
    let axis = random_below(3);
    if end - start == 1 {
        assert(drawn_from(o0, o0, start as int, end as int)) by {
            assert forall|p: int| start <= p < end implies #[trigger] occurs_in(o0, o0[p], start as int, end as int) by {}
        }
        let p = order[start];
        nodes.push(BvhNode { left: BvhChild::Leaf(p), right: BvhChild::Leaf(p), axis, start, end });
        proof {
            lemma_nodes_frame(n0, o0, nodes@, o0, keys@, start as int, end as int);
            assert(node_wf(nodes@, o0, keys@, n0.len() as int));
        }
        return nodes.len() - 1;
    }
    proof {
        assert forall|i: int| 0 <= i < order@.len() implies #[trigger] order@[i] < keys@.len() by {}
    }
    sort_range(keys, order, start, end, axis);
    let ghost o1 = order@;
    proof {
        lemma_nodes_frame(n0, o0, n0, o1, keys@, start as int, end as int);
    }
    if end - start == 2 {
        let l = order[start];
        let r = order[start + 1];
        nodes.push(BvhNode { left: BvhChild::Leaf(l), right: BvhChild::Leaf(r), axis, start, end });
        proof {
            lemma_nodes_frame(n0, o1, nodes@, o1, keys@, start as int, end as int);
            assert(node_wf(nodes@, o1, keys@, n0.len() as int));
        }
        return nodes.len() - 1;
    }
    let mid = start + (end - start) / 2;
    let a = build_range(keys, order, nodes, start, mid);
    let ghost o2 = order@;
    let ghost n2 = nodes@;
    let b = build_range(keys, order, nodes, mid, end);
    let ghost o3 = order@;
    let ghost n3 = nodes@;
    proof {
        lemma_halves_keep_partition(keys@, o1, o2, o3, start as int, end as int, axis);
        lemma_drawn_from_trans(o3, o1, o0, start as int, end as int);
    }
    nodes.push(BvhNode { left: BvhChild::Node(a), right: BvhChild::Node(b), axis, start, end });
    proof {
        assert forall|k: int| 0 <= k < n3.len() implies #[trigger] node_wf(nodes@, o3, keys@, k) by {
            assert(node_wf(n3, o3, keys@, k));
            lemma_node_wf_frame(n3, o3, nodes@, o3, keys@, k);
        }
        assert(n3[a as int] == n2[a as int]);
        assert(node_wf(nodes@, o3, keys@, n3.len() as int));
    }
    nodes.len() - 1
}

impl Bvh {
    /// Well formed over the primitives `0..keys.len()`: `order` lists each
    /// primitive once, every node is well formed, and the last node is the
    /// root, over the whole of `order`.
    pub open spec fn wf(&self, keys: Seq<[u64; 3]>) -> bool {
        &&& is_permutation(self.order@, keys.len())
        &&& nodes_wf(self.nodes@, self.order@, keys)
        &&& self.nodes.len() > 0
        &&& self.nodes@.last().start == 0
        &&& self.nodes@.last().end == keys.len()
    }

    /// Builds the hierarchy over the primitives whose sort keys are given,
    /// one triple (x, y, z) per primitive. Each node draws its split axis
    /// at random, sorts its primitives on it and halves them.
    pub fn new(keys: &Vec<[u64; 3]>) -> (r: Bvh)
        requires
            keys.len() > 0,
        ensures
            r.wf(keys@),
    {
        let n = keys.len();
        let mut order: Vec<usize> = Vec::new();
        let mut i: usize = 0;
        while i < n
            invariant
                i <= n,
                n == keys.len(),
                order.len() == i,
                forall|k: int| 0 <= k < i ==> #[trigger] order@[k] == k,
            decreases n - i,
        {
            order.push(i);
            i = i + 1;
        }
        assert forall|v: usize| v < n implies #[trigger] lists(order@, v) by {
            assert(order@[v as int] == v);
        }
        let mut nodes: Vec<BvhNode> = Vec::new();
        build_range(keys, &mut order, &mut nodes, 0, n);
        Bvh { order, nodes }
    }

    /// Index of the root node.
    pub fn root(&self) -> (r: usize)
        requires
            self.nodes.len() > 0,
        ensures
            r == self.nodes.len() - 1,
    {
        self.nodes.len() - 1
    }
}

} // verus!
