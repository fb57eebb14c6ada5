//! Bounding volume hierarchy over the bounding boxes of a fixed collection of
//! objects.
use vstd::prelude::*;
use crate::aabb::Aabb;
use crate::ray::{Param, Ray, frac_le, frac_lt, lemma_le_lt, lemma_lt_le};
use crate::vec3::Axis;
use std::ops::Range;

verus! {

/// One node of the hierarchy. It stands for the objects
/// `order[start..end]`; a leaf holds one or two of them, an inner node holds
/// more and has two children that split its range at the middle.
#[derive(Clone, Copy, Debug)]
pub struct BvhNode {
    pub bbox: Aabb,
    /// For an inner node, the axis along which its objects were split: the
    /// axis of greatest extent of its box.
    pub axis: Axis,
    pub start: usize,
    pub end: usize,
    pub left: usize,
    pub right: usize,
    pub leaf: bool,
}

/// A hierarchy over `boxes`, the bounding boxes of the objects. `order` is a
/// permutation of the object indices; the nodes are stored children first, so
/// the last node is the root. An empty collection has no nodes.
pub struct Bvh {
    pub boxes: Vec<Aabb>,
    pub order: Vec<usize>,
    pub nodes: Vec<BvhNode>,
}

/// Some position of `order` holds `x`.
pub open spec fn listed(order: Seq<usize>, x: int) -> bool {
    exists|k: int| 0 <= k < order.len() && order[k] == x
}

/// `order` holds each object index below `n` exactly once.
pub open spec fn order_ok(order: Seq<usize>, n: int) -> bool {
    &&& order.len() == n
    &&& forall|k: int| 0 <= k < n ==> order[k] < n
    &&& forall|k: int, l: int| 0 <= k < l < n ==> order[k] != order[l]
    &&& forall|x: int| 0 <= x < n ==> #[trigger] listed(order, x)
}

/// Exchanging two entries keeps `order` a permutation.
proof fn lemma_swap_order_ok(order: Seq<usize>, n: int, p: int, q: int)
    requires
        order_ok(order, n),
        0 <= p < n,
        0 <= q < n,
    ensures
        order_ok(order.update(p, order[q]).update(q, order[p]), n),
{
    let o2 = order.update(p, order[q]).update(q, order[p]);
    assert forall|x: int| 0 <= x < n implies #[trigger] listed(o2, x) by {
        assert(listed(order, x));
        let k = choose|k: int| 0 <= k < order.len() && order[k] == x;
        if k == p {
            assert(o2[q] == x);
        } else if k == q {
            assert(o2[p] == x);
        } else {
            assert(o2[k] == x);
        }
    }
}

pub open spec fn boxes_ok(boxes: Seq<Aabb>) -> bool {
    forall|o: int| 0 <= o < boxes.len() ==> #[trigger] boxes[o].bounded()
}

/// The box of a leaf over `order[start..end]`, for one or two objects.
pub open spec fn leaf_box(order: Seq<usize>, boxes: Seq<Aabb>, start: int, end: int) -> Aabb {
    if end - start == 1 {
        boxes[order[start] as int]
    } else {
        boxes[order[start] as int].merged(boxes[order[start + 1] as int])
    }
}

/// Along `a`, every centre among `order[start..mid]` is at most every
/// centre among `order[mid..end]`.
pub open spec fn split_ordered(
    order: Seq<usize>,
    boxes: Seq<Aabb>,
    start: int,
    mid: int,
    end: int,
    a: Axis,
) -> bool {
    forall|k: int, l: int|
        start <= k < mid <= l < end ==> center_key(boxes[order[k] as int], a) <= center_key(
            boxes[order[l] as int],
            a,
        )
}

/// Entry `k` of `new` is an entry of `old` in `[start, end)`.
pub open spec fn came_from(new: Seq<usize>, old: Seq<usize>, start: int, end: int, k: int) -> bool {
    exists|k2: int| start <= k2 < end && new[k] == #[trigger] old[k2]
}

/// Each entry of `new` in `[start, end)` is an entry of `old` in that range.
pub open spec fn from_range(new: Seq<usize>, old: Seq<usize>, start: int, end: int) -> bool {
    forall|k: int| start <= k < end ==> #[trigger] came_from(new, old, start, end, k)
}

/// The conditions on node `i` that involve only itself and its children.
pub open spec fn node_ok(nodes: Seq<BvhNode>, order: Seq<usize>, boxes: Seq<Aabb>, i: int) -> bool {
    let nd = nodes[i];
    &&& nd.start < nd.end <= order.len()
    &&& if nd.leaf {
        &&& nd.end - nd.start <= 2
        &&& nd.bbox == leaf_box(order, boxes, nd.start as int, nd.end as int)
    } else {
        &&& nd.end - nd.start > 2
        &&& nd.left < i
        &&& nd.right < i
        &&& nodes[nd.left as int].start == nd.start
        &&& nodes[nd.left as int].end == nd.start + (nd.end - nd.start) / 2
        &&& split_ordered(order, boxes, nd.start as int, nodes[nd.left as int].end as int, nd.end as int, nd.axis)
        &&& nd.axis == longest_axis(nd.bbox)
        &&& nodes[nd.left as int].end == nodes[nd.right as int].start
        &&& nodes[nd.right as int].end == nd.end
        &&& nd.bbox == nodes[nd.left as int].bbox.merged(nodes[nd.right as int].bbox)
    }
}

pub open spec fn nodes_ok(nodes: Seq<BvhNode>, order: Seq<usize>, boxes: Seq<Aabb>) -> bool {
    forall|i: int| 0 <= i < nodes.len() ==> #[trigger] node_ok(nodes, order, boxes, i)
}

/// `a` contains `b` and `b` contains `c`.
pub proof fn lemma_contains_trans(a: Aabb, b: Aabb, c: Aabb)
    requires
        a.contains(b),
        b.contains(c),
    ensures
        a.contains(c),
{
}

proof fn lemma_axis_monotone(outer: Aabb, inner: Aabb, r: Ray, lo: Param, hi: Param, a: Axis)
    requires
        outer.contains(inner),
        lo.wf(),
        hi.wf(),
        inner.admits(r, a),
    ensures
        outer.admits(r, a),
        frac_le(outer.entry(r, lo, a), inner.entry(r, lo, a)),
        frac_le(inner.exit(r, hi, a), outer.exit(r, hi, a)),
        outer.entry(r, lo, a).1 > 0,
        outer.exit(r, hi, a).1 > 0,
        inner.entry(r, lo, a).1 > 0,
        inner.exit(r, hi, a).1 > 0,
{
    let d = r.direction.comp(a) as int;
    let o = r.origin.comp(a) as int;
    let (omin, omax) = (outer.min.comp(a) as int, outer.max.comp(a) as int);
    let (imin, imax) = (inner.min.comp(a) as int, inner.max.comp(a) as int);
    assert(omin <= imin && imax <= omax) by {
        match a {
            Axis::X => {},
            Axis::Y => {},
            Axis::Z => {},
        }
    }
    if d > 0 {
        assert((omin - o) * d <= (imin - o) * d && (imax - o) * d <= (omax - o) * d)
            by (nonlinear_arith)
            requires
                omin <= imin,
                imax <= omax,
                d > 0,
        ;
    } else if d < 0 {
        assert((o - omax) * (-d) <= (o - imax) * (-d) && (o - imin) * (-d) <= (o - omin) * (-d))
            by (nonlinear_arith)
            requires
                omin <= imin,
                imax <= omax,
                d < 0,
        ;
    }
}

/// A ray that meets a box within `(lo, hi)` meets every box containing it.
pub proof fn lemma_hit_monotone(outer: Aabb, inner: Aabb, r: Ray, lo: Param, hi: Param)
    requires
        outer.contains(inner),
        lo.wf(),
        hi.wf(),
        inner.hit_spec(r, lo, hi),
    ensures
        outer.hit_spec(r, lo, hi),
{
    assert forall|a: Axis| #[trigger] outer.admits(r, a) by {
        lemma_axis_monotone(outer, inner, r, lo, hi, a);
    }
    assert forall|a: Axis| frac_lt(lo.frac(), #[trigger] outer.exit(r, hi, a)) by {
        lemma_axis_monotone(outer, inner, r, lo, hi, a);
        lemma_lt_le(lo.frac(), inner.exit(r, hi, a), outer.exit(r, hi, a));
    }
    assert forall|a: Axis| frac_lt(#[trigger] outer.entry(r, lo, a), hi.frac()) by {
        lemma_axis_monotone(outer, inner, r, lo, hi, a);
        lemma_le_lt(outer.entry(r, lo, a), inner.entry(r, lo, a), hi.frac());
    }
    assert forall|a: Axis, b: Axis|
        frac_lt(#[trigger] outer.entry(r, lo, a), #[trigger] outer.exit(r, hi, b)) by {
        lemma_axis_monotone(outer, inner, r, lo, hi, a);
        lemma_axis_monotone(outer, inner, r, lo, hi, b);
        lemma_le_lt(outer.entry(r, lo, a), inner.entry(r, lo, a), inner.exit(r, hi, b));
        lemma_lt_le(outer.entry(r, lo, a), inner.exit(r, hi, b), outer.exit(r, hi, b));
    }
}

/// The merged box of the objects `order[start..end]`, a non-empty range.
pub open spec fn span_box(order: Seq<usize>, boxes: Seq<Aabb>, start: int, end: int) -> Aabb
    decreases end - start,
{
    if end - start <= 1 {
        boxes[order[start] as int]
    } else {
        span_box(order, boxes, start, end - 1).merged(boxes[order[end - 1] as int])
    }
}

pub open spec fn extent(b: Aabb, a: Axis) -> int {
    b.max.comp(a) - b.min.comp(a)
}

/// The axis along which `b` is longest; the earlier axis on a tie.
pub open spec fn longest_axis(b: Aabb) -> Axis {
    if extent(b, Axis::X) >= extent(b, Axis::Y) && extent(b, Axis::X) >= extent(b, Axis::Z) {
        Axis::X
    } else if extent(b, Axis::Y) >= extent(b, Axis::Z) {
        Axis::Y
    } else {
        Axis::Z
    }
}

/// Twice the centre of `b` along `a`.
pub open spec fn center_key(b: Aabb, a: Axis) -> int {
    b.min.comp(a) + b.max.comp(a)
}

/// Merged box of `order[start..end]`.
fn range_box(boxes: &Vec<Aabb>, order: &Vec<usize>, start: usize, end: usize) -> (r: Aabb)
    requires
        start < end <= order@.len(),
        order_ok(order@, boxes@.len() as int),
        boxes_ok(boxes@),
    ensures
        r == span_box(order@, boxes@, start as int, end as int),
        r.bounded(),
{
    let mut acc = boxes[order[start]];
    let mut k = start + 1;
    while k < end
        invariant
            start < k <= end <= order@.len(),
            order_ok(order@, boxes@.len() as int),
            boxes_ok(boxes@),
            acc == span_box(order@, boxes@, start as int, k as int),
            acc.bounded(),
        decreases end - k,
    {
        acc = acc.merge(boxes[order[k]]);
        k = k + 1;
    }
    acc
}

/// The axis of greatest extent of `b`.
fn choose_axis(b: &Aabb) -> (r: Axis)
    requires
        b.bounded(),
    ensures
        r == longest_axis(*b),
{
    let ex = b.max.0 - b.min.0;
    let ey = b.max.1 - b.min.1;
    let ez = b.max.2 - b.min.2;
    if ex >= ey && ex >= ez {
        Axis::X
    } else if ey >= ez {
        Axis::Y
    } else {
        Axis::Z
    }
}

fn key_of(b: &Aabb, a: Axis) -> (r: i64)
    requires
        b.bounded(),
    ensures
        r == center_key(*b, a),
{
    b.min.get(a) + b.max.get(a)
}

/// Reorders `order[start..end]` so that its first `mid - start` entries are
/// those with the smallest centres along `a`: every centre in
/// `order[start..mid]` is at most every centre in `order[mid..end]`.
fn partition_halves(
    boxes: &Vec<Aabb>,
    order: &mut Vec<usize>,
    start: usize,
    mid: usize,
    end: usize,
    a: Axis,
)
    requires
        start <= mid <= end <= old(order)@.len(),
        order_ok(old(order)@, boxes@.len() as int),
        boxes_ok(boxes@),
    ensures
        order_ok(final(order)@, boxes@.len() as int),
        forall|k: int|
            0 <= k < final(order)@.len() && !(start <= k < end) ==> final(order)@[k] == old(
                order,
            )@[k],
        forall|k: int, l: int|
            start <= k < mid <= l < end ==> center_key(boxes@[final(order)@[k] as int], a)
                <= center_key(boxes@[final(order)@[l] as int], a),
        from_range(final(order)@, old(order)@, start as int, end as int),
        from_range(old(order)@, final(order)@, start as int, end as int),
{
    let ghost n = boxes@.len() as int;
    let ghost o0 = order@;
    assert forall|k: int| start <= k < end implies #[trigger] came_from(
        o0,
        o0,
        start as int,
        end as int,
        k,
    ) by {
        assert(o0[k] < n);
    }
    assert(from_range(o0, o0, start as int, end as int));
    let mut p = start;
    while p < mid
        invariant
            start <= p <= mid <= end <= order@.len(),
            order_ok(order@, n),
            boxes_ok(boxes@),
            n == boxes@.len(),
            forall|k: int|
                0 <= k < order@.len() && !(start <= k < end) ==> order@[k] == old(order)@[k],
            forall|k: int, l: int|
                start <= k < p <= l < end ==> center_key(boxes@[order@[k] as int], a)
                    <= center_key(boxes@[order@[l] as int], a),
            from_range(order@, old(order)@, start as int, end as int),
            from_range(old(order)@, order@, start as int, end as int),
        decreases mid - p,
    {
        let mut best = p;
        let mut best_key = key_of(&boxes[order[p]], a);
        let mut q = p + 1;
        while q < end
            invariant
                start <= p < mid <= end <= order@.len(),
                p <= best < q <= end,
                order_ok(order@, n),
                boxes_ok(boxes@),
                n == boxes@.len(),
                best_key == center_key(boxes@[order@[best as int] as int], a),
                forall|l: int|
                    p <= l < q ==> best_key <= center_key(boxes@[order@[l] as int], a),
            decreases end - q,
        {
            let k = key_of(&boxes[order[q]], a);
            if k < best_key {
                best = q;
                best_key = k;
            }
            q = q + 1;
        }
        let x = order[p];
        let y = order[best];
        let ghost before = order@;
        proof {
            lemma_swap_order_ok(order@, n, p as int, best as int);
        }
        order.set(p, y);
        order.set(best, x);
        proof {
            assert forall|k: int| start <= k < end implies #[trigger] came_from(
                order@,
                old(order)@,
                start as int,
                end as int,
                k,
            ) by {
                let k1 = if k == p {
                    best as int
                } else if k == best {
                    p as int
                } else {
                    k
                };
                assert(order@[k] == before[k1]);
                assert(came_from(before, old(order)@, start as int, end as int, k1));
                let k2 = choose|k2: int| start <= k2 < end && before[k1] == old(order)@[k2];
                assert(order@[k] == old(order)@[k2]);
            }
            assert forall|k: int| start <= k < end implies #[trigger] came_from(
                old(order)@,
                order@,
                start as int,
                end as int,
                k,
            ) by {
                assert(came_from(old(order)@, before, start as int, end as int, k));
                let k1 = choose|k1: int| start <= k1 < end && old(order)@[k] == before[k1];
                let k2 = if k1 == p {
                    best as int
                } else if k1 == best {
                    p as int
                } else {
                    k1
                };
                assert(order@[k2] == before[k1]);
            }
        }
        p = p + 1;
    }
}

/// Some object of `order[s..e]` has its minimum along `a` where `b` has.
pub open spec fn attains_min(order: Seq<usize>, boxes: Seq<Aabb>, s: int, e: int, b: Aabb, a: Axis) -> bool {
    exists|k: int| s <= k < e && boxes[#[trigger] order[k] as int].min.comp(a) == b.min.comp(a)
}

/// Some object of `order[s..e]` has its maximum along `a` where `b` has.
pub open spec fn attains_max(order: Seq<usize>, boxes: Seq<Aabb>, s: int, e: int, b: Aabb, a: Axis) -> bool {
    exists|k: int| s <= k < e && boxes[#[trigger] order[k] as int].max.comp(a) == b.max.comp(a)
}

/// `b` is the tightest box around the objects of `order[s..e]`: it contains
/// each, and each of its faces touches one of them.
pub open spec fn tight(order: Seq<usize>, boxes: Seq<Aabb>, s: int, e: int, b: Aabb) -> bool {
    &&& forall|k: int| s <= k < e ==> b.contains(boxes[#[trigger] order[k] as int])
    &&& forall|a: Axis| #[trigger] attains_min(order, boxes, s, e, b, a)
    &&& forall|a: Axis| #[trigger] attains_max(order, boxes, s, e, b, a)
}

/// `contains` read axis by axis.
proof fn lemma_contains_axes(b: Aabb, c: Aabb)
    ensures
        b.contains(c) <==> forall|a: Axis| b.min.comp(a) <= c.min.comp(a) && #[trigger] c.max.comp(a) <= b.max.comp(a),
{
    if forall|a: Axis| b.min.comp(a) <= c.min.comp(a) && #[trigger] c.max.comp(a) <= b.max.comp(a) {
        assert(c.max.comp(Axis::X) <= b.max.comp(Axis::X));
        assert(c.max.comp(Axis::Y) <= b.max.comp(Axis::Y));
        assert(c.max.comp(Axis::Z) <= b.max.comp(Axis::Z));
    }
    if b.contains(c) {
        assert forall|a: Axis| b.min.comp(a) <= c.min.comp(a) && #[trigger] c.max.comp(a) <= b.max.comp(a) by {
            match a {
                Axis::X => {},
                Axis::Y => {},
                Axis::Z => {},
            }
        }
    }
}

/// Components of a merged box.
proof fn lemma_merged_axes(b: Aabb, c: Aabb, a: Axis)
    ensures
        b.merged(c).min.comp(a) == crate::aabb::min_of(b.min.comp(a), c.min.comp(a)),
        b.merged(c).max.comp(a) == crate::aabb::max_of(b.max.comp(a), c.max.comp(a)),
{
    match a {
        Axis::X => {},
        Axis::Y => {},
        Axis::Z => {},
    }
}

/// A single object's box is tight around it.
proof fn lemma_single_tight(order: Seq<usize>, boxes: Seq<Aabb>, s: int)
    requires
        0 <= s < order.len(),
    ensures
        tight(order, boxes, s, s + 1, boxes[order[s] as int]),
{
    let b = boxes[order[s] as int];
    assert forall|k: int| s <= k < s + 1 implies b.contains(boxes[#[trigger] order[k] as int]) by {
        assert(k == s);
    }
    assert forall|a: Axis| #[trigger] attains_min(order, boxes, s, s + 1, b, a) by {
        assert(boxes[order[s] as int].min.comp(a) == b.min.comp(a));
    }
    assert forall|a: Axis| #[trigger] attains_max(order, boxes, s, s + 1, b, a) by {
        assert(boxes[order[s] as int].max.comp(a) == b.max.comp(a));
    }
}

/// Merging the tight boxes of two adjacent ranges gives the tight box of
/// their union.
proof fn lemma_merge_tight(order: Seq<usize>, boxes: Seq<Aabb>, s: int, m: int, e: int, b1: Aabb, b2: Aabb)
    requires
        s < m < e,
        tight(order, boxes, s, m, b1),
        tight(order, boxes, m, e, b2),
    ensures
        tight(order, boxes, s, e, b1.merged(b2)),
{
    let b = b1.merged(b2);
    assert forall|k: int| s <= k < e implies b.contains(boxes[#[trigger] order[k] as int]) by {
        if k < m {
            assert(b1.contains(boxes[order[k] as int]));
            lemma_contains_trans(b, b1, boxes[order[k] as int]);
        } else {
            assert(b2.contains(boxes[order[k] as int]));
            lemma_contains_trans(b, b2, boxes[order[k] as int]);
        }
    }
    assert forall|a: Axis| #[trigger] attains_min(order, boxes, s, e, b, a) by {
        lemma_merged_axes(b1, b2, a);
        assert(attains_min(order, boxes, s, m, b1, a));
        assert(attains_min(order, boxes, m, e, b2, a));
        if b1.min.comp(a) <= b2.min.comp(a) {
            let k = choose|k: int| s <= k < m && boxes[order[k] as int].min.comp(a) == b1.min.comp(a);
            assert(boxes[order[k] as int].min.comp(a) == b.min.comp(a));
        } else {
            let k = choose|k: int| m <= k < e && boxes[order[k] as int].min.comp(a) == b2.min.comp(a);
            assert(boxes[order[k] as int].min.comp(a) == b.min.comp(a));
        }
    }
    assert forall|a: Axis| #[trigger] attains_max(order, boxes, s, e, b, a) by {
        lemma_merged_axes(b1, b2, a);
        assert(attains_max(order, boxes, s, m, b1, a));
        assert(attains_max(order, boxes, m, e, b2, a));
        if b1.max.comp(a) >= b2.max.comp(a) {
            let k = choose|k: int| s <= k < m && boxes[order[k] as int].max.comp(a) == b1.max.comp(a);
            assert(boxes[order[k] as int].max.comp(a) == b.max.comp(a));
        } else {
            let k = choose|k: int| m <= k < e && boxes[order[k] as int].max.comp(a) == b2.max.comp(a);
            assert(boxes[order[k] as int].max.comp(a) == b.max.comp(a));
        }
    }
}

/// The merged box of a range is tight around it.
proof fn lemma_span_tight(order: Seq<usize>, boxes: Seq<Aabb>, s: int, e: int)
    requires
        0 <= s < e <= order.len(),
    ensures
        tight(order, boxes, s, e, span_box(order, boxes, s, e)),
    decreases e - s,
{
    if e - s <= 1 {
        lemma_single_tight(order, boxes, s);
    } else {
        lemma_span_tight(order, boxes, s, e - 1);
        lemma_single_tight(order, boxes, e - 1);
        lemma_merge_tight(order, boxes, s, e - 1, e, span_box(order, boxes, s, e - 1), boxes[order[e - 1] as int]);
    }
}

/// Every node's box is tight around the objects of its range.
proof fn lemma_node_tight(nodes: Seq<BvhNode>, order: Seq<usize>, boxes: Seq<Aabb>, i: int)
    requires
        nodes_ok(nodes, order, boxes),
        0 <= i < nodes.len(),
    ensures
        tight(order, boxes, nodes[i].start as int, nodes[i].end as int, nodes[i].bbox),
    decreases i,
{
    assert(node_ok(nodes, order, boxes, i));
    let nd = nodes[i];
    if nd.leaf {
        lemma_single_tight(order, boxes, nd.start as int);
        if nd.end - nd.start == 2 {
            lemma_single_tight(order, boxes, nd.start + 1);
            lemma_merge_tight(order, boxes, nd.start as int, nd.start + 1, nd.end as int,
                boxes[order[nd.start as int] as int], boxes[order[nd.start + 1] as int]);
        }
    } else {
        lemma_node_tight(nodes, order, boxes, nd.left as int);
        lemma_node_tight(nodes, order, boxes, nd.right as int);
        assert(node_ok(nodes, order, boxes, nd.left as int));
        assert(node_ok(nodes, order, boxes, nd.right as int));
        lemma_merge_tight(order, boxes, nd.start as int, nodes[nd.left as int].end as int, nd.end as int,
            nodes[nd.left as int].bbox, nodes[nd.right as int].bbox);
    }
}

proof fn lemma_tight_axis(o1: Seq<usize>, o2: Seq<usize>, boxes: Seq<Aabb>, s: int, e: int, b1: Aabb, b2: Aabb, a: Axis)
    requires
        tight(o1, boxes, s, e, b1),
        tight(o2, boxes, s, e, b2),
        from_range(o1, o2, s, e),
        from_range(o2, o1, s, e),
    ensures
        b1.min.comp(a) == b2.min.comp(a),
        b1.max.comp(a) == b2.max.comp(a),
{
    assert(attains_min(o1, boxes, s, e, b1, a));
    assert(attains_min(o2, boxes, s, e, b2, a));
    assert(attains_max(o1, boxes, s, e, b1, a));
    assert(attains_max(o2, boxes, s, e, b2, a));
    let k1 = choose|k: int| s <= k < e && boxes[o1[k] as int].min.comp(a) == b1.min.comp(a);
    let k2 = choose|k: int| s <= k < e && boxes[o2[k] as int].min.comp(a) == b2.min.comp(a);
    let j1 = choose|k: int| s <= k < e && boxes[o1[k] as int].max.comp(a) == b1.max.comp(a);
    let j2 = choose|k: int| s <= k < e && boxes[o2[k] as int].max.comp(a) == b2.max.comp(a);
    assert(came_from(o1, o2, s, e, k1));
    assert(came_from(o2, o1, s, e, k2));
    assert(came_from(o1, o2, s, e, j1));
    assert(came_from(o2, o1, s, e, j2));
    let m1 = choose|m: int| s <= m < e && o1[k1] == o2[m];
    let m2 = choose|m: int| s <= m < e && o2[k2] == o1[m];
    let n1 = choose|m: int| s <= m < e && o1[j1] == o2[m];
    let n2 = choose|m: int| s <= m < e && o2[j2] == o1[m];
    assert(b2.contains(boxes[o2[m1] as int]));
    assert(b1.contains(boxes[o1[m2] as int]));
    assert(b2.contains(boxes[o2[n1] as int]));
    assert(b1.contains(boxes[o1[n2] as int]));
    lemma_contains_axes(b2, boxes[o2[m1] as int]);
    lemma_contains_axes(b1, boxes[o1[m2] as int]);
    lemma_contains_axes(b2, boxes[o2[n1] as int]);
    lemma_contains_axes(b1, boxes[o1[n2] as int]);
    assert(boxes[o2[m1] as int].max.comp(a) <= b2.max.comp(a));
    assert(boxes[o1[m2] as int].max.comp(a) <= b1.max.comp(a));
    assert(boxes[o2[n1] as int].max.comp(a) <= b2.max.comp(a));
    assert(boxes[o1[n2] as int].max.comp(a) <= b1.max.comp(a));
}

/// Two ranges holding the same objects have the same tight box.
proof fn lemma_tight_unique(o1: Seq<usize>, o2: Seq<usize>, boxes: Seq<Aabb>, s: int, e: int, b1: Aabb, b2: Aabb)
    requires
        tight(o1, boxes, s, e, b1),
        tight(o2, boxes, s, e, b2),
        from_range(o1, o2, s, e),
        from_range(o2, o1, s, e),
    ensures
        b1 == b2,
{
    lemma_tight_axis(o1, o2, boxes, s, e, b1, b2, Axis::X);
    lemma_tight_axis(o1, o2, boxes, s, e, b1, b2, Axis::Y);
    lemma_tight_axis(o1, o2, boxes, s, e, b1, b2, Axis::Z);
}

/// Node `nd` stands for no object of `order[start..end]`.
pub open spec fn disjoint(nd: BvhNode, start: int, end: int) -> bool {
    nd.end <= start || end <= nd.start
}

/// Changing `order` only inside `[lo, hi)`, where no node looks, keeps the
/// nodes well formed.
proof fn lemma_nodes_ok_frame(
    nodes: Seq<BvhNode>,
    order1: Seq<usize>,
    order2: Seq<usize>,
    boxes: Seq<Aabb>,
    lo: int,
    hi: int,
)
    requires
        nodes_ok(nodes, order1, boxes),
        order1.len() == order2.len(),
        forall|k: int| 0 <= k < order1.len() && !(lo <= k < hi) ==> order1[k] == order2[k],
        forall|i: int| 0 <= i < nodes.len() ==> disjoint(#[trigger] nodes[i], lo, hi),
    ensures
        nodes_ok(nodes, order2, boxes),
{
    assert forall|i: int| 0 <= i < nodes.len() implies #[trigger] node_ok(nodes, order2, boxes, i) by {
        assert(node_ok(nodes, order1, boxes, i));
        assert(disjoint(nodes[i], lo, hi));
        let nd = nodes[i];
        if nd.leaf {
            assert(order1[nd.start as int] == order2[nd.start as int]);
            if nd.end - nd.start == 2 {
                assert(order1[nd.start + 1] == order2[nd.start + 1]);
            }
        } else {
            let mid = nodes[nd.left as int].end as int;
            assert forall|k: int, l: int| nd.start <= k < mid <= l < nd.end implies center_key(
                boxes[order2[k] as int],
                nd.axis,
            ) <= center_key(boxes[order2[l] as int], nd.axis) by {
                assert(order1[k] == order2[k]);
                assert(order1[l] == order2[l]);
            }
        }
    }
}

/// Appending well-formed nodes keeps the earlier ones well formed.
proof fn lemma_nodes_ok_extend(
    nodes1: Seq<BvhNode>,
    nodes2: Seq<BvhNode>,
    order: Seq<usize>,
    boxes: Seq<Aabb>,
)
    requires
        nodes_ok(nodes1, order, boxes),
        nodes1.len() <= nodes2.len(),
        forall|i: int| 0 <= i < nodes1.len() ==> nodes2[i] == nodes1[i],
        forall|i: int| nodes1.len() <= i < nodes2.len() ==> #[trigger] node_ok(nodes2, order, boxes, i),
    ensures
        nodes_ok(nodes2, order, boxes),
{
    assert forall|i: int| 0 <= i < nodes2.len() implies #[trigger] node_ok(nodes2, order, boxes, i) by {
        if i < nodes1.len() {
            assert(node_ok(nodes1, order, boxes, i));
            let nd = nodes1[i];
            if !nd.leaf {
                assert(nodes2[nd.left as int] == nodes1[nd.left as int]);
                assert(nodes2[nd.right as int] == nodes1[nd.right as int]);
            }
        }
    }
}

/// Builds the subtree over `order[start..end]` and returns its root, the
/// last node appended. Ranges of one or two objects become leaves; larger
/// ones are split at their middle after moving the objects with the
/// smallest centres along the axis of greatest extent to the first half.
fn build_range(
    boxes: &Vec<Aabb>,
    order: &mut Vec<usize>,
    nodes: &mut Vec<BvhNode>,
    start: usize,
    end: usize,
) -> (root: usize)
    requires
        start < end <= old(order)@.len(),
        order_ok(old(order)@, boxes@.len() as int),
        boxes_ok(boxes@),
        nodes_ok(old(nodes)@, old(order)@, boxes@),
        forall|i: int| 0 <= i < old(nodes)@.len() ==> disjoint(#[trigger] old(nodes)@[i], start as int, end as int),
    ensures
        order_ok(final(order)@, boxes@.len() as int),
        forall|k: int|
            0 <= k < final(order)@.len() && !(start <= k < end) ==> final(order)@[k] == old(
                order,
            )@[k],
        old(nodes)@.len() < final(nodes)@.len(),
        forall|i: int| 0 <= i < old(nodes)@.len() ==> final(nodes)@[i] == old(nodes)@[i],
        from_range(final(order)@, old(order)@, start as int, end as int),
        from_range(old(order)@, final(order)@, start as int, end as int),
        root == final(nodes)@.len() - 1,
        final(nodes)@[root as int].start == start,
        final(nodes)@[root as int].end == end,
        nodes_ok(final(nodes)@, final(order)@, boxes@),
        forall|i: int|
            old(nodes)@.len() <= i < final(nodes)@.len() ==> start <= (#[trigger] final(nodes)@[i]).start
                && final(nodes)@[i].end <= end,
    decreases end - start,
{
    let ghost nodes0 = nodes@;
    if end - start <= 2 {
        let bbox = if end - start == 1 {
            boxes[order[start]]
        } else {
            boxes[order[start]].merge(boxes[order[start + 1]])
        };
        let idx = nodes.len();
        nodes.push(BvhNode { bbox, axis: Axis::X, start, end, left: idx, right: idx, leaf: true });
        proof {
            lemma_nodes_ok_extend(nodes0, nodes@, order@, boxes@);
            assert forall|k: int| start <= k < end implies #[trigger] came_from(
                order@,
                order@,
                start as int,
                end as int,
                k,
            ) by {
                assert(order@[k] < boxes@.len());
            }
        }
        return idx;
    }
    let b = range_box(boxes, order, start, end);
    let a = choose_axis(&b);
    let mid = start + (end - start) / 2;
    let ghost order0 = order@;
    partition_halves(boxes, order, start, mid, end, a);
    proof {
        lemma_nodes_ok_frame(nodes@, order0, order@, boxes@, start as int, end as int);
    }
    let ghost order1 = order@;
    let left = build_range(boxes, order, nodes, start, mid);
    let ghost nodes1 = nodes@;
    let ghost order2 = order@;
    assert forall|i: int| 0 <= i < nodes@.len() implies disjoint(#[trigger] nodes@[i], mid as int, end as int) by {
        if i < nodes0.len() {
            assert(nodes@[i] == nodes0[i]);
        }
    }
    let right = build_range(boxes, order, nodes, mid, end);
    let ghost nodes2 = nodes@;
    proof {
        assert(nodes2[left as int] == nodes1[left as int]);
        assert forall|i: int| 0 <= i < nodes1.len() implies disjoint(#[trigger] nodes1[i], mid as int, end as int) by {
            if i < nodes0.len() {
                assert(nodes1[i] == nodes0[i]);
            }
        }
    }
    let bbox = nodes[left].bbox.merge(nodes[right].bbox);
    let idx = nodes.len();
    proof {
        let order3 = order@;
        // Entries of each half still come from that half after partitioning.
        assert forall|k: int| start <= k < mid implies #[trigger] came_from(
            order3,
            order1,
            start as int,
            mid as int,
            k,
        ) by {
            assert(order3[k] == order2[k]);
            assert(came_from(order2, order1, start as int, mid as int, k));
            let k1 = choose|k1: int| start <= k1 < mid && order2[k] == order1[k1];
            assert(order3[k] == order1[k1]);
        }
        assert forall|l: int| mid <= l < end implies #[trigger] came_from(
            order3,
            order1,
            mid as int,
            end as int,
            l,
        ) by {
            assert(came_from(order3, order2, mid as int, end as int, l));
            let l2 = choose|l2: int| mid <= l2 < end && order3[l] == order2[l2];
            assert(order2[l2] == order1[l2]);
        }
        assert forall|k: int, l: int| start <= k < mid <= l < end implies center_key(
            boxes@[order3[k] as int],
            a,
        ) <= center_key(boxes@[order3[l] as int], a) by {
            assert(came_from(order3, order1, start as int, mid as int, k));
            assert(came_from(order3, order1, mid as int, end as int, l));
            let k1 = choose|k1: int| start <= k1 < mid && order3[k] == order1[k1];
            let l1 = choose|l1: int| mid <= l1 < end && order3[l] == order1[l1];
        }
        assert forall|k: int| start <= k < end implies #[trigger] came_from(
            order3,
            order0,
            start as int,
            end as int,
            k,
        ) by {
            let k1 = if k < mid {
                assert(came_from(order3, order1, start as int, mid as int, k));
                choose|k1: int| start <= k1 < mid && order3[k] == order1[k1]
            } else {
                assert(came_from(order3, order1, mid as int, end as int, k));
                choose|k1: int| mid <= k1 < end && order3[k] == order1[k1]
            };
            assert(came_from(order1, order0, start as int, end as int, k1));
            let k2 = choose|k2: int| start <= k2 < end && order1[k1] == order0[k2];
            assert(order3[k] == order0[k2]);
        }
        // And each entry the range had before is still in it.
        assert forall|k: int| start <= k < end implies #[trigger] came_from(
            order0,
            order3,
            start as int,
            end as int,
            k,
        ) by {
            assert(came_from(order0, order1, start as int, end as int, k));
            let k1 = choose|k1: int| start <= k1 < end && order0[k] == order1[k1];
            if k1 < mid {
                assert(came_from(order1, order2, start as int, mid as int, k1));
                let k2 = choose|k2: int| start <= k2 < mid && order1[k1] == order2[k2];
                assert(order3[k2] == order2[k2]);
            } else {
                assert(order2[k1] == order1[k1]);
                assert(came_from(order2, order3, mid as int, end as int, k1));
                let k2 = choose|k2: int| mid <= k2 < end && order2[k1] == order3[k2];
            }
        }
        // The merged box of the children is the box the axis was chosen from.
        lemma_node_tight(nodes2, order3, boxes@, left as int);
        lemma_node_tight(nodes2, order3, boxes@, right as int);
        lemma_merge_tight(order3, boxes@, start as int, mid as int, end as int, nodes2[left as int].bbox, nodes2[right as int].bbox);
        lemma_span_tight(order0, boxes@, start as int, end as int);
        lemma_tight_unique(order3, order0, boxes@, start as int, end as int, bbox, b);
    }
    nodes.push(BvhNode { bbox, axis: a, start, end, left, right, leaf: false });
    proof {
        lemma_nodes_ok_extend(nodes2, nodes@, order@, boxes@);
        assert forall|i: int|
            nodes0.len() <= i < nodes@.len() implies start <= (#[trigger] nodes@[i]).start
                && nodes@[i].end <= end by {
            if i < nodes1.len() {
                assert(nodes@[i] == nodes1[i]);
            } else if i < nodes2.len() {
                assert(nodes@[i] == nodes2[i]);
            }
        }
    }
    idx
}

/// The identity permutation of `0..n`.
fn identity_order(n: usize) -> (r: Vec<usize>)
    ensures
        order_ok(r@, n as int),
{
    let mut r: Vec<usize> = Vec::new();
    let mut k: usize = 0;
    while k < n
        invariant
            k <= n,
            r@.len() == k,
            forall|j: int| 0 <= j < k ==> r@[j] == j,
        decreases n - k,
    {
        r.push(k);
        k = k + 1;
    }
    assert forall|x: int| 0 <= x < n implies #[trigger] listed(r@, x) by {
        assert(r@[x] == x);
    }
    r
}

/// Object `x` sits at a position of node `i`'s range and the ray meets its
/// box within `(lo, hi)`.
pub open spec fn found_in(
    nodes: Seq<BvhNode>,
    order: Seq<usize>,
    boxes: Seq<Aabb>,
    i: int,
    r: Ray,
    lo: Param,
    hi: Param,
    x: usize,
) -> bool {
    &&& exists|k: int| nodes[i].start <= k < nodes[i].end && order[k] == x
    &&& boxes[x as int].hit_spec(r, lo, hi)
}

impl Bvh {
    /// Boxes bounded, `order` a permutation, every node well formed, and, for
    /// a non-empty collection, a root that stands for all objects.
    pub open spec fn wf(&self) -> bool {
        let n = self.boxes@.len();
        let m = self.nodes@.len();
        &&& boxes_ok(self.boxes@)
        &&& order_ok(self.order@, n as int)
        &&& nodes_ok(self.nodes@, self.order@, self.boxes@)
        &&& (m == 0 <==> n == 0)
        &&& m > 0 ==> self.nodes@[m - 1].start == 0 && self.nodes@[m - 1].end == n
    }

    /// Builds the hierarchy over the objects' bounding boxes. An empty
    /// collection gives a hierarchy without nodes, which no ray hits.
    pub fn new(boxes: Vec<Aabb>) -> (r: Bvh)
        requires
            boxes_ok(boxes@),
        ensures
            r.wf(),
            r.boxes@ == boxes@,
    {
        let n = boxes.len();
        let mut order = identity_order(n);
        let mut nodes: Vec<BvhNode> = Vec::new();
        if n > 0 {
            build_range(&boxes, &mut order, &mut nodes, 0, n);
        }
        Bvh { boxes, order, nodes }
    }

    /// A node's box contains the box of every object in its range.
    pub proof fn lemma_node_contains(&self, i: int, k: int)
        requires
            self.wf(),
            0 <= i < self.nodes@.len(),
            self.nodes@[i].start <= k < self.nodes@[i].end,
        ensures
            self.nodes@[i].bbox.contains(self.boxes@[self.order@[k] as int]),
        decreases i,
    {
        assert(node_ok(self.nodes@, self.order@, self.boxes@, i));
        let nd = self.nodes@[i];
        if !nd.leaf {
            let c = if k < self.nodes@[nd.left as int].end {
                nd.left as int
            } else {
                nd.right as int
            };
            self.lemma_node_contains(c, k);
            lemma_contains_trans(nd.bbox, self.nodes@[c].bbox, self.boxes@[self.order@[k] as int]);
        }
    }

    /// Every node's box is bounded, being merged from bounded object boxes.
    pub proof fn lemma_node_bounded(&self, i: int)
        requires
            self.wf(),
            0 <= i < self.nodes@.len(),
        ensures
            self.nodes@[i].bbox.bounded(),
        decreases i,
    {
        assert(node_ok(self.nodes@, self.order@, self.boxes@, i));
        let nd = self.nodes@[i];
        if nd.leaf {
            assert(self.boxes@[self.order@[nd.start as int] as int].bounded());
            if nd.end - nd.start == 2 {
                assert(self.boxes@[self.order@[nd.start + 1] as int].bounded());
            }
        } else {
            self.lemma_node_bounded(nd.left as int);
            self.lemma_node_bounded(nd.right as int);
        }
    }

    /// Appends to `out` the objects of node `i`'s range whose boxes the ray
    /// meets within `(lo, hi)`, pruning subtrees whose box it misses.
    fn collect(&self, i: usize, ray: &Ray, lo: Param, hi: Param, out: &mut Vec<usize>)
        requires
            self.wf(),
            i < self.nodes@.len(),
            ray.bounded(),
            lo.wf(),
            hi.wf(),
        ensures
            forall|x: usize|
                final(out)@.contains(x) <==> (old(out)@.contains(x) || found_in(
                    self.nodes@,
                    self.order@,
                    self.boxes@,
                    i as int,
                    *ray,
                    lo,
                    hi,
                    x,
                )),
        decreases i,
    {
        let ghost (nodes, order, boxes) = (self.nodes@, self.order@, self.boxes@);
        let nd = self.nodes[i];
        assert(node_ok(nodes, order, boxes, i as int));
        proof {
            self.lemma_node_bounded(i as int);
        }
        if !nd.bbox.hit(ray, lo..hi) {
            assert forall|x: usize| !found_in(nodes, order, boxes, i as int, *ray, lo, hi, x) by {
                if found_in(nodes, order, boxes, i as int, *ray, lo, hi, x) {
                    let k = choose|k: int| nd.start <= k < nd.end && order[k] == x;
                    self.lemma_node_contains(i as int, k);
                    lemma_hit_monotone(nd.bbox, boxes[x as int], *ray, lo, hi);
                }
            }
            return;
        }
        if nd.leaf {
            let ghost out0 = out@;
            let o = self.order[nd.start];
            if self.boxes[o].hit(ray, lo..hi) {
                out.push(o);
                assert(out@[out0.len() as int] == o);
            }
            let ghost out1 = out@;
            if nd.end - nd.start == 2 {
                let o2 = self.order[nd.start + 1];
                if self.boxes[o2].hit(ray, lo..hi) {
                    out.push(o2);
                    assert(out@[out1.len() as int] == o2);
                }
            }
            assert(forall|j: int| 0 <= j < out1.len() ==> out@[j] == out1[j]);
            assert(forall|j: int| 0 <= j < out0.len() ==> out1[j] == out0[j]);
            assert forall|x: usize|
                out@.contains(x) <==> (out0.contains(x) || found_in(
                    nodes,
                    order,
                    boxes,
                    i as int,
                    *ray,
                    lo,
                    hi,
                    x,
                )) by {
                if found_in(nodes, order, boxes, i as int, *ray, lo, hi, x) {
                    let k = choose|k: int| nd.start <= k < nd.end && order[k] == x;
                    if k == nd.start {
                        assert(out1[out0.len() as int] == x);
                        assert(out@[out0.len() as int] == x);
                    } else {
                        assert(out@[out1.len() as int] == x);
                    }
                }
                if out0.contains(x) {
                    let j = choose|j: int| 0 <= j < out0.len() && out0[j] == x;
                    assert(out@[j] == x);
                }
                if out@.contains(x) && !out0.contains(x) {
                    let j = choose|j: int| 0 <= j < out@.len() && out@[j] == x;
                    if j < out0.len() {
                        assert(out0[j] == x);
                    }
                    if order[nd.start as int] == x {
                        assert(found_in(nodes, order, boxes, i as int, *ray, lo, hi, x));
                    } else {
                        assert(order[nd.start + 1] == x);
                        assert(found_in(nodes, order, boxes, i as int, *ray, lo, hi, x));
                    }
                }
            }
        } else {
            self.collect(nd.left, ray, lo, hi, out);
            self.collect(nd.right, ray, lo, hi, out);
            let ghost (l, rt) = (nodes[nd.left as int], nodes[nd.right as int]);
            assert(node_ok(nodes, order, boxes, nd.left as int));
            assert(node_ok(nodes, order, boxes, nd.right as int));
            assert(l.start == nd.start && l.end == rt.start && rt.end == nd.end);
            assert(l.start < l.end && rt.start < rt.end);
            assert forall|x: usize|
                found_in(nodes, order, boxes, i as int, *ray, lo, hi, x) <==> (found_in(
                    nodes,
                    order,
                    boxes,
                    nd.left as int,
                    *ray,
                    lo,
                    hi,
                    x,
                ) || found_in(nodes, order, boxes, nd.right as int, *ray, lo, hi, x)) by {
                if found_in(nodes, order, boxes, i as int, *ray, lo, hi, x) {
                    let k = choose|k: int| nd.start <= k < nd.end && order[k] == x;
                    if k < l.end {
                        assert(l.start <= k < l.end && order[k] == x);
                    } else {
                        assert(rt.start <= k < rt.end && order[k] == x);
                    }
                }
                if found_in(nodes, order, boxes, nd.left as int, *ray, lo, hi, x) {
                    let k = choose|k: int| l.start <= k < l.end && order[k] == x;
                    assert(nd.start <= k < nd.end && order[k] == x);
                }
                if found_in(nodes, order, boxes, nd.right as int, *ray, lo, hi, x) {
                    let k = choose|k: int| rt.start <= k < rt.end && order[k] == x;
                    assert(nd.start <= k < nd.end && order[k] == x);
                }
            }
        }
    }

    /// The objects whose bounding boxes the ray meets for a parameter strictly
    /// inside `t_range`: exactly those that testing every box in
    /// turn would report.
    pub fn query(&self, ray: &Ray, t_range: Range<Param>) -> (r: Vec<usize>)
        requires
            self.wf(),
            ray.bounded(),
            t_range.start.wf(),
            t_range.end.wf(),
        ensures
            forall|x: usize|
                r@.contains(x) <==> (x < self.boxes@.len() && self.boxes@[x as int].hit_spec(
                    *ray,
                    t_range.start,
                    t_range.end,
                )),
    {
        let t_min = t_range.start;
        let t_max = t_range.end;
        let mut out: Vec<usize> = Vec::new();
        if self.nodes.len() == 0 {
            return out;
        }
        let root = self.nodes.len() - 1;
        self.collect(root, ray, t_min, t_max, &mut out);
        let ghost (nodes, order, boxes) = (self.nodes@, self.order@, self.boxes@);
        assert forall|x: usize|
            found_in(nodes, order, boxes, root as int, *ray, t_min, t_max, x) <==> (x
                < boxes.len() && boxes[x as int].hit_spec(*ray, t_min, t_max)) by {
            if x < boxes.len() {
                assert(listed(order, x as int));
                let k = choose|k: int| 0 <= k < order.len() && order[k] == x;
                assert(nodes[root as int].start <= k < nodes[root as int].end);
            }
            if found_in(nodes, order, boxes, root as int, *ray, t_min, t_max, x) {
                let k = choose|k: int| nodes[root as int].start <= k < nodes[root as int].end && order[k] == x;
                assert(order[k] < boxes.len());
            }
        }
        out
    }
}

} // verus!
