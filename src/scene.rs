//! Nearest-hit queries over a scene of shapes, by linear scan and through the
//! bounding volume hierarchy.
use vstd::prelude::*;
use crate::aabb::Aabb;
use crate::bvh::{Bvh, boxes_ok};
use crate::ray::{Param, Ray, frac_le, frac_lt, lemma_lt_le};
use crate::rect::RectHit;
use crate::shape::{Shape, before};
use std::ops::Range;

verus! {

/// `res` is a nearest hit of the ray among the shapes `ids` for parameters
/// in `[lo, hi)`: the first hit of one of them, with no first hit of any of
/// them earlier; or `None` when none of them is hit in the range.
pub open spec fn is_nearest<O: Shape>(
    objs: Seq<O>,
    ids: Seq<usize>,
    r: Ray,
    lo: Param,
    hi: Param,
    res: Option<(usize, RectHit)>,
) -> bool {
    match res {
        None => forall|j: int|
            0 <= j < ids.len() ==> (#[trigger] objs[ids[j] as int]).first_hit(r, lo, hi) is None,
        Some((i, h)) => {
            &&& ids.contains(i)
            &&& objs[i as int].first_hit(r, lo, hi) == Some(h)
            &&& forall|j: int|
                0 <= j < ids.len() && (#[trigger] objs[ids[j] as int]).first_hit(r, lo, hi) is Some
                    ==> frac_le(h.t.frac(), objs[ids[j] as int].first_hit(r, lo, hi)->0.t.frac())
        },
    }
}

/// The indices `0..n`.
pub open spec fn all_ids(n: int) -> Seq<usize> {
    Seq::new(n as nat, |i: int| i as usize)
}

pub open spec fn shapes_ok<O: Shape>(objs: Seq<O>) -> bool {
    forall|i: int| 0 <= i < objs.len() ==> (#[trigger] objs[i]).ok()
}

/// Every shape can be intersected with `r`.
pub open spec fn shapes_accept<O: Shape>(objs: Seq<O>, r: Ray) -> bool {
    forall|i: int| 0 <= i < objs.len() ==> (#[trigger] objs[i]).accepts(r)
}

/// Tests the shapes `ids` in turn, narrowing the end of the range to each
/// hit found, and returns the last hit: the nearest one, the earliest listed
/// among equals.
pub fn nearest_among<O: Shape>(
    objs: &Vec<O>,
    ids: &Vec<usize>,
    ray: &Ray,
    t_range: Range<Param>,
) -> (res: Option<(usize, RectHit)>)
    requires
        shapes_ok(objs@),
        shapes_accept(objs@, *ray),
        forall|j: int| 0 <= j < ids@.len() ==> ids@[j] < objs@.len(),
        t_range.start.wf(),
        t_range.end.wf(),
    ensures
        is_nearest(objs@, ids@, *ray, t_range.start, t_range.end, res),
{
    let lo = t_range.start;
    let hi = t_range.end;
    let mut best: Option<(usize, RectHit)> = None;
    let mut end = hi;
    let mut k: usize = 0;
    while k < ids.len()
        invariant
            k <= ids@.len(),
            shapes_ok(objs@),
            shapes_accept(objs@, *ray),
            forall|j: int| 0 <= j < ids@.len() ==> ids@[j] < objs@.len(),
            lo.wf(),
            hi.wf(),
            end.wf(),
            frac_le(end.frac(), hi.frac()),
            best is None ==> end == hi,
            best matches Some((i, h)) ==> end == h.t,
            is_nearest(objs@, ids@.take(k as int), *ray, lo, hi, best),
        decreases ids@.len() - k,
    {
        let id = ids[k];
        let ghost prev = ids@.take(k as int);
        let ghost next = ids@.take(k + 1);
        assert(next =~= prev.push(id));
        let ghost o = objs@[id as int];
        assert(o.ok() && o.accepts(*ray));
        proof {
            o.lemma_first_hit(*ray, lo, hi, end);
            o.lemma_first_hit(*ray, lo, hi, hi);
        }
        let h = objs[id].hit(ray, lo..end);
        match h {
            Some(x) => {
                proof {
                    assert(o.first_hit(*ray, lo, hi) == Some(x));
                    assert(frac_lt(x.t.frac(), end.frac()));
                    lemma_lt_le(x.t.frac(), end.frac(), hi.frac());
                    assert forall|j: int|
                        0 <= j < next.len() && (#[trigger] objs@[next[j] as int]).first_hit(*ray, lo, hi) is Some
                            implies frac_le(x.t.frac(), objs@[next[j] as int].first_hit(*ray, lo, hi)->0.t.frac()) by {
                        if j < prev.len() {
                            assert(prev[j] == next[j]);
                            let oj = objs@[next[j] as int];
                            oj.lemma_first_hit(*ray, lo, hi, hi);
                            if let Some((i, hb)) = best {
                                lemma_lt_le(x.t.frac(), hb.t.frac(), oj.first_hit(*ray, lo, hi)->0.t.frac());
                            }
                        }
                    }
                    assert(next[k as int] == id);
                }
                best = Some((id, x));
                end = x.t;
            },
            None => {
                proof {
                    match best {
                        None => {
                            assert forall|j: int| 0 <= j < next.len() implies (
                            #[trigger] objs@[next[j] as int]).first_hit(*ray, lo, hi) is None by {
                                if j < prev.len() {
                                    assert(prev[j] == next[j]);
                                }
                            }
                        },
                        Some((i, hb)) => {
                            assert(prev.contains(i));
                            let p = choose|p: int| 0 <= p < prev.len() && prev[p] == i;
                            assert(next[p] == i);
                            assert forall|j: int|
                                0 <= j < next.len() && (#[trigger] objs@[next[j] as int]).first_hit(*ray, lo, hi) is Some
                                    implies frac_le(hb.t.frac(), objs@[next[j] as int].first_hit(*ray, lo, hi)->0.t.frac()) by {
                                if j < prev.len() {
                                    assert(prev[j] == next[j]);
                                }
                            }
                        },
                    }
                }
            },
        }
        k = k + 1;
    }
    assert(ids@.take(ids@.len() as int) =~= ids@);
    best
}

/// Shapes with a bounding volume hierarchy over their boxes for an exposure
/// interval of times.
pub struct Scene<O> {
    pub objects: Vec<O>,
    pub exposure: Range<i64>,
    pub bvh: Bvh,
}

impl<O: Shape> Scene<O> {
    pub open spec fn wf(&self) -> bool {
        &&& shapes_ok(self.objects@)
        &&& self.bvh.wf()
        &&& self.bvh.boxes@.len() == self.objects@.len()
        &&& forall|i: int|
            0 <= i < self.objects@.len() ==> (#[trigger] self.objects@[i]).box_fits(self.exposure)
                && self.bvh.boxes@[i] == self.objects@[i].box_of(self.exposure)
    }

    /// The conditions on a query ray: every shape accepts it, and it is cast
    /// at a time within the exposure.
    pub open spec fn ray_ok(&self, r: Ray) -> bool {
        &&& r.bounded()
        &&& shapes_accept(self.objects@, r)
        &&& self.exposure.start <= r.time <= self.exposure.end
    }

    /// Builds the hierarchy over the shapes' boxes for the exposure.
    pub fn new(objects: Vec<O>, exposure: Range<i64>) -> (r: Scene<O>)
        requires
            shapes_ok(objects@),
            forall|i: int| 0 <= i < objects@.len() ==> (#[trigger] objects@[i]).box_fits(exposure),
        ensures
            r.wf(),
            r.objects@ == objects@,
            r.exposure == exposure,
    {
        let mut boxes: Vec<Aabb> = Vec::new();
        let mut i: usize = 0;
        while i < objects.len()
            invariant
                i <= objects@.len(),
                forall|j: int| 0 <= j < objects@.len() ==> (#[trigger] objects@[j]).box_fits(exposure),
                boxes@.len() == i,
                forall|j: int| 0 <= j < i ==> boxes@[j] == (#[trigger] objects@[j]).box_of(exposure),
                boxes_ok(boxes@),
            decreases objects@.len() - i,
        {
            let b = objects[i].bounding_box(&exposure);
            boxes.push(b);
            i = i + 1;
        }
        let bvh = Bvh::new(boxes);
        Scene { objects, exposure, bvh }
    }

    /// The nearest hit in `t_range.start <= t < t_range.end`, found by
    /// testing every shape in turn.
    pub fn hit_top_linear(&self, ray: &Ray, t_range: Range<Param>) -> (res: Option<(usize, RectHit)>)
        requires
            self.wf(),
            self.ray_ok(*ray),
            t_range.start.wf(),
            t_range.end.wf(),
        ensures
            is_nearest(
                self.objects@,
                all_ids(self.objects@.len() as int),
                *ray,
                t_range.start,
                t_range.end,
                res,
            ),
    {
        let n = self.objects.len();
        let mut ids: Vec<usize> = Vec::new();
        let mut k: usize = 0;
        while k < n
            invariant
                k <= n,
                n == self.objects@.len(),
                ids@ =~= all_ids(k as int),
            decreases n - k,
        {
            ids.push(k);
            k = k + 1;
        }
        nearest_among(&self.objects, &ids, ray, t_range)
    }

    /// The shapes that node `i` stands for, in hierarchy order.
    pub open spec fn node_ids(&self, i: int) -> Seq<usize> {
        self.bvh.order@.subrange(self.bvh.nodes@[i].start as int, self.bvh.nodes@[i].end as int)
    }

    /// Nearest hit among the shapes of node `i`: nothing if the ray misses
    /// the node's box within the range; otherwise the left child is searched,
    /// the end of the range is narrowed to its hit, and the right child is
    /// searched in the narrowed range.
    fn hit_node(&self, i: usize, ray: &Ray, lo: Param, hi: Param) -> (res: Option<(usize, RectHit)>)
        requires
            self.wf(),
            i < self.bvh.nodes@.len(),
            self.ray_ok(*ray),
            lo.wf(),
            hi.wf(),
        ensures
            is_nearest(self.objects@, self.node_ids(i as int), *ray, lo, hi, res),
        decreases i,
    {
        let ghost (nodes, order, objs) = (self.bvh.nodes@, self.bvh.order@, self.objects@);
        let nd = self.bvh.nodes[i];
        let ghost ids = self.node_ids(i as int);
        assert(crate::bvh::node_ok(nodes, order, self.bvh.boxes@, i as int));
        proof {
            self.bvh.lemma_node_bounded(i as int);
        }
        if !nd.bbox.hit(ray, lo..hi) {
            assert forall|j: int| 0 <= j < ids.len() implies (#[trigger] objs[ids[j] as int]).first_hit(
                *ray,
                lo,
                hi,
            ) is None by {
                let k = nd.start + j;
                assert(ids[j] == order[k]);
                if objs[ids[j] as int].first_hit(*ray, lo, hi) is Some {
                    assert(order[k] < objs.len());
                    let o = objs[order[k] as int];
                    assert(o.ok() && o.accepts(*ray) && o.box_fits(self.exposure));
                    o.lemma_hit_in_box(*ray, lo, hi, self.exposure);
                    self.bvh.lemma_node_contains(i as int, k);
                    crate::bvh::lemma_hit_monotone(nd.bbox, self.bvh.boxes@[order[k] as int], *ray, lo, hi);
                }
            }
            return None;
        }
        if nd.leaf {
            let mut leaf_ids: Vec<usize> = Vec::new();
            leaf_ids.push(self.bvh.order[nd.start]);
            if nd.end - nd.start == 2 {
                leaf_ids.push(self.bvh.order[nd.start + 1]);
            }
            assert(leaf_ids@ =~= ids);
            assert forall|j: int| 0 <= j < leaf_ids@.len() implies leaf_ids@[j] < self.objects@.len() by {
                assert(leaf_ids@[j] == order[nd.start + j]);
            }
            return nearest_among(&self.objects, &leaf_ids, ray, lo..hi);
        }
        let ghost (l, rt) = (nodes[nd.left as int], nodes[nd.right as int]);
        assert(crate::bvh::node_ok(nodes, order, self.bvh.boxes@, nd.left as int));
        assert(crate::bvh::node_ok(nodes, order, self.bvh.boxes@, nd.right as int));
        let ghost (lids, rids) = (self.node_ids(nd.left as int), self.node_ids(nd.right as int));
        let ghost nl = lids.len() as int;
        assert forall|j: int| 0 <= j < ids.len() implies (j < nl ==> ids[j] == lids[j]) && (j >= nl
            ==> ids[j] == rids[j - nl]) by {}
        let left = self.hit_node(nd.left, ray, lo, hi);
        let end = match left {
            Some((_, h)) => h.t,
            None => hi,
        };
        proof {
            if let Some((il, hl)) = left {
                let p = choose|p: int| 0 <= p < lids.len() && lids[p] == il;
                assert(il < objs.len());
                objs[il as int].lemma_first_hit(*ray, lo, hi, hi);
                assert(frac_lt(hl.t.frac(), hi.frac()));
            }
            assert(end.wf());
            assert(frac_le(end.frac(), hi.frac()));
        }
        let right = self.hit_node(nd.right, ray, lo, end);
        proof {
            // On the right, hits in [lo, end) are the hits in [lo, hi) before `end`.
            assert forall|j: int| 0 <= j < rids.len() implies #[trigger] objs[rids[j] as int].first_hit(
                *ray,
                lo,
                end,
            ) == before(objs[rids[j] as int].first_hit(*ray, lo, hi), end) by {
                assert(rids[j] == ids[nl + j]);
                assert(ids[nl + j] == order[nd.start + nl + j]);
                let o = objs[rids[j] as int];
                o.lemma_first_hit(*ray, lo, hi, end);
            }
            match right {
                Some((ir, hr)) => {
                    let p = choose|p: int| 0 <= p < rids.len() && rids[p] == ir;
                    assert(ids[nl + p] == ir);
                    let o = objs[ir as int];
                    assert(o.first_hit(*ray, lo, end) == before(o.first_hit(*ray, lo, hi), end));
                    assert(o.first_hit(*ray, lo, hi) == Some(hr));
                    assert(frac_lt(hr.t.frac(), end.frac()));
                    o.lemma_first_hit(*ray, lo, hi, hi);
                    assert forall|j: int|
                        0 <= j < ids.len() && (#[trigger] objs[ids[j] as int]).first_hit(*ray, lo, hi) is Some
                            implies frac_le(hr.t.frac(), objs[ids[j] as int].first_hit(*ray, lo, hi)->0.t.frac()) by {
                        let oj = objs[ids[j] as int];
                        oj.lemma_first_hit(*ray, lo, hi, hi);
                        let tj = oj.first_hit(*ray, lo, hi)->0.t.frac();
                        if j < nl {
                            assert(lids[j] == ids[j]);
                            let (il, hl) = left->0;
                            lemma_lt_le(hr.t.frac(), hl.t.frac(), tj);
                        } else {
                            assert(rids[j - nl] == ids[j]);
                            if oj.first_hit(*ray, lo, end) is None {
                                lemma_lt_le(hr.t.frac(), end.frac(), tj);
                            }
                        }
                    }
                },
                None => {
                    match left {
                        Some((il, hl)) => {
                            let p = choose|p: int| 0 <= p < lids.len() && lids[p] == il;
                            assert(ids[p] == il);
                            assert forall|j: int|
                                0 <= j < ids.len() && (#[trigger] objs[ids[j] as int]).first_hit(*ray, lo, hi) is Some
                                    implies frac_le(hl.t.frac(), objs[ids[j] as int].first_hit(*ray, lo, hi)->0.t.frac()) by {
                                if j < nl {
                                    assert(lids[j] == ids[j]);
                                } else {
                                    assert(rids[j - nl] == ids[j]);
                                }
                            }
                        },
                        None => {
                            assert forall|j: int| 0 <= j < ids.len() implies (
                            #[trigger] objs[ids[j] as int]).first_hit(*ray, lo, hi) is None by {
                                if j < nl {
                                    assert(lids[j] == ids[j]);
                                } else {
                                    assert(rids[j - nl] == ids[j]);
                                    let oj = objs[ids[j] as int];
                                    oj.lemma_first_hit(*ray, lo, hi, hi);
                                }
                            }
                        },
                    }
                },
            }
        }
        match right {
            Some(h) => Some(h),
            None => left,
        }
    }

    /// The nearest hit in `t_range.start <= t < t_range.end`, found by
    /// descending the hierarchy and narrowing the range to each hit.
    pub fn hit_top(&self, ray: &Ray, t_range: Range<Param>) -> (res: Option<(usize, RectHit)>)
        requires
            self.wf(),
            self.ray_ok(*ray),
            t_range.start.wf(),
            t_range.end.wf(),
        ensures
            is_nearest(
                self.objects@,
                all_ids(self.objects@.len() as int),
                *ray,
                t_range.start,
                t_range.end,
                res,
            ),
    {
        let lo = t_range.start;
        let hi = t_range.end;
        let ghost n = self.objects@.len() as int;
        let ghost (objs, order) = (self.objects@, self.bvh.order@);
        let ghost all = all_ids(n);
        if self.bvh.nodes.len() == 0 {
            assert(all.len() == 0);
            return None;
        }
        let root = self.bvh.nodes.len() - 1;
        let res = self.hit_node(root, ray, lo, hi);
        proof {
            let ids = self.node_ids(root as int);
            assert(ids =~= order);
            match res {
                None => {
                    assert forall|j: int| 0 <= j < all.len() implies (
                    #[trigger] objs[all[j] as int]).first_hit(*ray, lo, hi) is None by {
                        assert(crate::bvh::listed(order, j));
                        let p = choose|p: int| 0 <= p < order.len() && order[p] == j;
                        assert(ids[p] == j);
                    }
                },
                Some((i, h)) => {
                    let p = choose|p: int| 0 <= p < ids.len() && ids[p] == i;
                    assert(i < n);
                    assert(all[i as int] == i);
                    assert forall|j: int|
                        0 <= j < all.len() && (#[trigger] objs[all[j] as int]).first_hit(*ray, lo, hi) is Some
                            implies frac_le(h.t.frac(), objs[all[j] as int].first_hit(*ray, lo, hi)->0.t.frac()) by {
                        assert(crate::bvh::listed(order, j));
                        let q = choose|q: int| 0 <= q < order.len() && order[q] == j;
                        assert(ids[q] == j);
                    }
                },
            }
        }
        res
    }
}

/// Two nearest hits over the same shapes, ray and range agree: either both
/// report no hit, or both report the same parameter. So the hierarchy's
/// answer (`hit_top`) and the linear scan's (`hit_top_linear`) agree.
pub proof fn lemma_nearest_unique<O: Shape>(
    objs: Seq<O>,
    ids: Seq<usize>,
    r: Ray,
    lo: Param,
    hi: Param,
    a: Option<(usize, RectHit)>,
    b: Option<(usize, RectHit)>,
)
    requires
        is_nearest(objs, ids, r, lo, hi, a),
        is_nearest(objs, ids, r, lo, hi, b),
    ensures
        a is None <==> b is None,
        a matches Some((_, ha)) ==> (b matches Some((_, hb)) ==> ha.t.num * hb.t.den == hb.t.num
            * ha.t.den),
{
    match (a, b) {
        (Some((ia, ha)), Some((ib, hb))) => {
            let pa = choose|p: int| 0 <= p < ids.len() && ids[p] == ia;
            let pb = choose|p: int| 0 <= p < ids.len() && ids[p] == ib;
            assert(objs[ids[pb] as int].first_hit(r, lo, hi) is Some);
            assert(objs[ids[pa] as int].first_hit(r, lo, hi) is Some);
        },
        (Some((ia, ha)), None) => {
            let pa = choose|p: int| 0 <= p < ids.len() && ids[p] == ia;
            assert(objs[ids[pa] as int].first_hit(r, lo, hi) is Some);
        },
        (None, Some((ib, hb))) => {
            let pb = choose|p: int| 0 <= p < ids.len() && ids[p] == ib;
            assert(objs[ids[pb] as int].first_hit(r, lo, hi) is Some);
        },
        (None, None) => {},
    }
}

} // verus!
