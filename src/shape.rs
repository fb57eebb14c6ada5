//! Exact shapes and the decorators that compose them: flipped normals,
//! translation, linear motion and union.
use vstd::prelude::*;
use crate::aabb::Aabb;
use crate::ray::{Param, Ray, frac_le, frac_lt, lemma_le_lt, lemma_lt_le};
use crate::rect::{LatticeRect, RectHit, ScaledPoint, in_range, lemma_coord_product};
use crate::vec3::{Axis, Vec3, unit_vec};
use std::ops::Range;

verus! {

/// The ray with its origin moved by `-v`.
pub open spec fn shifted(r: Ray, v: Vec3) -> Ray {
    Ray { origin: Vec3((r.origin.0 - v.0) as i64, (r.origin.1 - v.1) as i64, (r.origin.2 - v.2) as i64), ..r }
}

/// The vector `s * v`.
pub open spec fn scaled(s: int, v: Vec3) -> Vec3 {
    Vec3((s * v.0) as i64, (s * v.1) as i64, (s * v.2) as i64)
}

/// `s * v` fits the coordinate bounds.
pub open spec fn scaled_ok(s: int, v: Vec3) -> bool {
    crate::vec3::coord_ok(s * v.0) && crate::vec3::coord_ok(s * v.1) && crate::vec3::coord_ok(s * v.2)
}

/// Largest magnitude of a hit point's numerators that shapes report.
pub const POINT_LIMIT: i128 = 0x10_0000_0000_0000_0000_0000_0000;

pub open spec fn point_ok(p: ScaledPoint) -> bool {
    -POINT_LIMIT <= p.0 <= POINT_LIMIT && -POINT_LIMIT <= p.1 <= POINT_LIMIT && -POINT_LIMIT <= p.2
        <= POINT_LIMIT
}

/// `p` moved by `v`, for numerators over `den`: `p + den · v`.
pub open spec fn moved(p: ScaledPoint, v: Vec3, den: int) -> ScaledPoint {
    ScaledPoint((p.0 + den * v.0) as i128, (p.1 + den * v.1) as i128, (p.2 + den * v.2) as i128)
}

/// `p + den · v` stays within `POINT_LIMIT`.
pub open spec fn moved_ok(p: ScaledPoint, v: Vec3, den: int) -> bool {
    -POINT_LIMIT <= p.0 + den * v.0 <= POINT_LIMIT && -POINT_LIMIT <= p.1 + den * v.1 <= POINT_LIMIT
        && -POINT_LIMIT <= p.2 + den * v.2 <= POINT_LIMIT
}

/// `h` keeps only if it lies before `end`.
pub open spec fn before(h: Option<RectHit>, end: Param) -> Option<RectHit> {
    match h {
        Some(x) => if frac_lt(x.t.frac(), end.frac()) {
            Some(x)
        } else {
            None
        },
        None => None,
    }
}

/// The nearer of two hits; the first on a tie.
pub open spec fn nearer(a: Option<RectHit>, b: Option<RectHit>) -> Option<RectHit> {
    match (a, b) {
        (Some(x), Some(y)) => if frac_lt(y.t.frac(), x.t.frac()) {
            b
        } else {
            a
        },
        (Some(_), None) => a,
        (None, _) => b,
    }
}

/// Geometry that a ray can be intersected with exactly.
pub trait Shape {
    /// The shape's own parameters are within bounds.
    spec fn ok(&self) -> bool;

    /// The shape can be intersected with `r` without leaving the coordinate
    /// bounds.
    spec fn accepts(&self, r: Ray) -> bool;

    /// The first hit of `r` with parameter in `[lo, hi)`.
    spec fn first_hit(&self, r: Ray, lo: Param, hi: Param) -> Option<RectHit>;

    /// The box over the exposure interval `[start, end]` of times.
    spec fn box_of(&self, exposure: Range<i64>) -> Aabb;

    /// `box_of` can be computed within the coordinate bounds.
    spec fn box_fits(&self, exposure: Range<i64>) -> bool;

    fn hit(&self, ray: &Ray, t_range: Range<Param>) -> (res: Option<RectHit>)
        requires
            self.ok(),
            self.accepts(*ray),
            t_range.start.wf(),
            t_range.end.wf(),
        ensures
            res == self.first_hit(*ray, t_range.start, t_range.end),
    ;

    fn bounding_box(&self, exposure: &Range<i64>) -> (r: Aabb)
        requires
            self.box_fits(*exposure),
        ensures
            r == self.box_of(*exposure),
            r.bounded(),
    ;

    /// A first hit lies in its range, with a well-formed parameter and a
    /// bounded normal; and narrowing the end of the range keeps exactly the
    /// first hit that lies before the new end.
    proof fn lemma_first_hit(&self, r: Ray, lo: Param, hi: Param, end: Param)
        requires
            self.ok(),
            self.accepts(r),
            lo.wf(),
            hi.wf(),
            end.wf(),
            frac_le(end.frac(), hi.frac()),
        ensures
            self.first_hit(r, lo, hi) matches Some(h) ==> h.t.wf() && in_range(h.t.frac(), lo, hi)
                && h.normal.bounded() && point_ok(h.p),
            self.first_hit(r, lo, end) == before(self.first_hit(r, lo, hi), end),
    ;

    /// The box over an exposure within the coordinate bounds.
    proof fn lemma_box_bounded(&self, exposure: Range<i64>)
        requires
            self.box_fits(exposure),
        ensures
            self.box_of(exposure).bounded(),
    ;

    /// A hit lies in the shape's box: a ray cast at a time within the
    /// exposure that hits the shape in `[lo, hi)` passes the slab test of the
    /// box on `(lo, hi)`.
    proof fn lemma_hit_in_box(&self, r: Ray, lo: Param, hi: Param, exposure: Range<i64>)
        requires
            self.ok(),
            self.accepts(r),
            self.box_fits(exposure),
            lo.wf(),
            hi.wf(),
            exposure.start <= r.time <= exposure.end,
            self.first_hit(r, lo, hi) is Some,
        ensures
            self.box_of(exposure).hit_spec(r, lo, hi),
    ;
}

impl Shape for LatticeRect {
    open spec fn ok(&self) -> bool {
        self.bounded()
    }

    open spec fn accepts(&self, r: Ray) -> bool {
        r.bounded()
    }

    open spec fn first_hit(&self, r: Ray, lo: Param, hi: Param) -> Option<RectHit> {
        if self.hits_within(r, lo, hi) {
            Some(self.record_at(r, self.meets_at(r)->0))
        } else {
            None
        }
    }

    open spec fn box_of(&self, exposure: Range<i64>) -> Aabb {
        self.box_spec()
    }

    open spec fn box_fits(&self, exposure: Range<i64>) -> bool {
        self.bounded()
    }

    fn hit(&self, ray: &Ray, t_range: Range<Param>) -> (res: Option<RectHit>) {
        LatticeRect::hit(self, ray, t_range)
    }

    fn bounding_box(&self, exposure: &Range<i64>) -> (r: Aabb) {
        LatticeRect::bounding_box(self)
    }

    proof fn lemma_first_hit(&self, r: Ray, lo: Param, hi: Param, end: Param) {
        if self.meets_at(r) is Some {
            let t = self.meets_at(r)->0;
            assert(t.1 > 0);
            assert(-2 * crate::vec3::COORD_LIMIT <= t.0 <= 2 * crate::vec3::COORD_LIMIT);
            lemma_coord_product(r.origin.0 as int, t.1);
            lemma_coord_product(r.origin.1 as int, t.1);
            lemma_coord_product(r.origin.2 as int, t.1);
            lemma_coord_product(t.0, r.direction.0 as int);
            lemma_coord_product(t.0, r.direction.1 as int);
            lemma_coord_product(t.0, r.direction.2 as int);
            if self.hits_within(r, lo, end) {
                lemma_lt_le(t, end.frac(), hi.frac());
            }
        }
    }

    proof fn lemma_box_bounded(&self, exposure: Range<i64>) {
        match self.axis {
            Axis::X => {},
            Axis::Y => {},
            Axis::Z => {},
        }
    }

    proof fn lemma_hit_in_box(&self, r: Ray, lo: Param, hi: Param, exposure: Range<i64>) {
        crate::rect::lemma_rect_hit_in_box(*self, r, lo, hi);
    }
}

/// The same geometry with the normal reversed.
#[derive(Debug)]
pub struct FlipNormals<O>(pub O);

impl<O: Shape> Shape for FlipNormals<O> {
    open spec fn ok(&self) -> bool {
        self.0.ok()
    }

    open spec fn accepts(&self, r: Ray) -> bool {
        self.0.accepts(r)
    }

    open spec fn first_hit(&self, r: Ray, lo: Param, hi: Param) -> Option<RectHit> {
        match self.0.first_hit(r, lo, hi) {
            Some(h) => Some(
                RectHit {
                    normal: Vec3((-h.normal.0) as i64, (-h.normal.1) as i64, (-h.normal.2) as i64),
                    ..h
                },
            ),
            None => None,
        }
    }

    open spec fn box_of(&self, exposure: Range<i64>) -> Aabb {
        self.0.box_of(exposure)
    }

    open spec fn box_fits(&self, exposure: Range<i64>) -> bool {
        self.0.box_fits(exposure)
    }

    fn hit(&self, ray: &Ray, t_range: Range<Param>) -> (res: Option<RectHit>) {
        let lo = t_range.start;
        let hi = t_range.end;
        proof {
            self.0.lemma_first_hit(*ray, lo, hi, hi);
        }
        match self.0.hit(ray, lo..hi) {
            Some(h) => Some(RectHit { normal: h.normal.neg(), ..h }),
            None => None,
        }
    }

    fn bounding_box(&self, exposure: &Range<i64>) -> (r: Aabb) {
        self.0.bounding_box(exposure)
    }

    proof fn lemma_first_hit(&self, r: Ray, lo: Param, hi: Param, end: Param) {
        self.0.lemma_first_hit(r, lo, hi, end);
    }

    proof fn lemma_box_bounded(&self, exposure: Range<i64>) {
        self.0.lemma_box_bounded(exposure);
    }

    proof fn lemma_hit_in_box(&self, r: Ray, lo: Param, hi: Param, exposure: Range<i64>) {
        self.0.lemma_hit_in_box(r, lo, hi, exposure);
    }
}

/// The same geometry moved by `offset`.
#[derive(Debug)]
pub struct Translate<O> {
    pub offset: Vec3,
    pub object: O,
}

/// The hit `h` with its point moved by `v`.
pub open spec fn hit_moved(h: Option<RectHit>, v: Vec3) -> Option<RectHit> {
    match h {
        Some(x) => Some(RectHit { p: moved(x.p, v, x.t.den as int), ..x }),
        None => None,
    }
}

impl<O: Shape> Shape for Translate<O> {
    open spec fn ok(&self) -> bool {
        self.offset.bounded() && self.object.ok()
    }

    /// Beyond the inner object's own condition on the moved-back ray, the
    /// hit point moved by the offset stays within `POINT_LIMIT`.
    open spec fn accepts(&self, r: Ray) -> bool {
        let s = shifted(r, self.offset);
        &&& r.bounded()
        &&& s.bounded()
        &&& self.object.accepts(s)
        &&& forall|lo: Param, hi: Param|
            (#[trigger] self.object.first_hit(s, lo, hi)) matches Some(h) ==> moved_ok(
                h.p,
                self.offset,
                h.t.den as int,
            )
    }

    /// The inner object's hit of the ray moved back by the offset, with its
    /// point moved forward by the offset.
    open spec fn first_hit(&self, r: Ray, lo: Param, hi: Param) -> Option<RectHit> {
        hit_moved(self.object.first_hit(shifted(r, self.offset), lo, hi), self.offset)
    }

    open spec fn box_of(&self, exposure: Range<i64>) -> Aabb {
        self.object.box_of(exposure).translated(self.offset)
    }

    open spec fn box_fits(&self, exposure: Range<i64>) -> bool {
        &&& self.offset.bounded()
        &&& self.object.box_fits(exposure)
        &&& self.object.box_of(exposure).translated(self.offset).bounded()
    }

    fn hit(&self, ray: &Ray, t_range: Range<Param>) -> (res: Option<RectHit>) {
        let lo = t_range.start;
        let hi = t_range.end;
        let moved_ray = Ray { origin: ray.origin.sub(&self.offset), ..*ray };
        assert(moved_ray == shifted(*ray, self.offset));
        proof {
            self.object.lemma_first_hit(moved_ray, lo, hi, hi);
        }
        match self.object.hit(&moved_ray, lo..hi) {
            Some(h) => {
                assert(moved_ok(h.p, self.offset, h.t.den as int));
                let d = h.t.den as i128;
                proof {
                    lemma_den_offset(d as int, self.offset.0 as int);
                    lemma_den_offset(d as int, self.offset.1 as int);
                    lemma_den_offset(d as int, self.offset.2 as int);
                }
                let p = ScaledPoint(
                    h.p.0 + d * (self.offset.0 as i128),
                    h.p.1 + d * (self.offset.1 as i128),
                    h.p.2 + d * (self.offset.2 as i128),
                );
                Some(RectHit { p, ..h })
            },
            None => None,
        }
    }

    fn bounding_box(&self, exposure: &Range<i64>) -> (r: Aabb) {
        let b = self.object.bounding_box(exposure);
        let r = Aabb { min: b.min.add(&self.offset), max: b.max.add(&self.offset) };
        r
    }

    proof fn lemma_first_hit(&self, r: Ray, lo: Param, hi: Param, end: Param) {
        let s = shifted(r, self.offset);
        self.object.lemma_first_hit(s, lo, hi, end);
        if let Some(h) = self.object.first_hit(s, lo, hi) {
            assert(moved_ok(h.p, self.offset, h.t.den as int));
        }
    }

    proof fn lemma_box_bounded(&self, exposure: Range<i64>) {
    }

    proof fn lemma_hit_in_box(&self, r: Ray, lo: Param, hi: Param, exposure: Range<i64>) {
        let s = shifted(r, self.offset);
        let b = self.object.box_of(exposure);
        self.object.lemma_hit_in_box(s, lo, hi, exposure);
        self.object.lemma_box_bounded(exposure);
        assert(s.origin.plus(self.offset) == r.origin);
        crate::aabb::lemma_hit_translation_invariant(b, s, self.offset, lo, hi);
        assert(Ray { origin: s.origin.plus(self.offset), ..s } == r);
    }
}

/// A positive `i64` denominator times a bounded coordinate stays below `2^94`.
proof fn lemma_den_offset(d: int, c: int)
    requires
        0 < d <= i64::MAX,
        crate::vec3::coord_ok(c),
    ensures
        -0x4000_0000_0000_0000_0000_0000 <= d * c <= 0x4000_0000_0000_0000_0000_0000,
{
    assert(-0x8000_0000_0000_0000 * 0x4000_0000 <= d * c <= 0x8000_0000_0000_0000 * 0x4000_0000)
        by (nonlinear_arith)
        requires
            0 < d <= 0x8000_0000_0000_0000,
            -0x4000_0000 <= c <= 0x4000_0000,
    ;
}

/// The same geometry moving by `motion` per unit of time: at time `s` it
/// stands moved by `s * motion`.
#[derive(Debug)]
pub struct LinearMove<O> {
    pub object: O,
    pub motion: Vec3,
}

impl<O: Shape> Shape for LinearMove<O> {
    open spec fn ok(&self) -> bool {
        self.motion.bounded() && self.object.ok()
    }

    open spec fn accepts(&self, r: Ray) -> bool {
        let m = scaled(r.time as int, self.motion);
        &&& r.bounded()
        &&& scaled_ok(r.time as int, self.motion)
        &&& shifted(r, m).bounded()
        &&& self.object.accepts(shifted(r, m))
    }

    /// The inner object's hit of the ray moved back by the motion up to the
    /// ray's time.
    open spec fn first_hit(&self, r: Ray, lo: Param, hi: Param) -> Option<RectHit> {
        self.object.first_hit(shifted(r, scaled(r.time as int, self.motion)), lo, hi)
    }

    /// The inner box moved to where it stands at the start and at the end of
    /// the exposure, merged.
    open spec fn box_of(&self, exposure: Range<i64>) -> Aabb {
        let b = self.object.box_of(exposure);
        b.translated(scaled(exposure.start as int, self.motion)).merged(
            b.translated(scaled(exposure.end as int, self.motion)),
        )
    }

    open spec fn box_fits(&self, exposure: Range<i64>) -> bool {
        let b = self.object.box_of(exposure);
        &&& self.motion.bounded()
        &&& self.object.box_fits(exposure)
        &&& scaled_ok(exposure.start as int, self.motion)
        &&& scaled_ok(exposure.end as int, self.motion)
        &&& b.translated(scaled(exposure.start as int, self.motion)).bounded()
        &&& b.translated(scaled(exposure.end as int, self.motion)).bounded()
    }

    fn hit(&self, ray: &Ray, t_range: Range<Param>) -> (res: Option<RectHit>) {
        let m = scale_vec(ray.time, &self.motion);
        let moved = Ray { origin: ray.origin.sub(&m), ..*ray };
        assert(moved == shifted(*ray, scaled(ray.time as int, self.motion)));
        self.object.hit(&moved, t_range)
    }

    fn bounding_box(&self, exposure: &Range<i64>) -> (r: Aabb) {
        let b = self.object.bounding_box(exposure);
        let m0 = scale_vec(exposure.start, &self.motion);
        let m1 = scale_vec(exposure.end, &self.motion);
        let b0 = Aabb { min: b.min.add(&m0), max: b.max.add(&m0) };
        let b1 = Aabb { min: b.min.add(&m1), max: b.max.add(&m1) };
        b0.merge(b1)
    }

    proof fn lemma_first_hit(&self, r: Ray, lo: Param, hi: Param, end: Param) {
        self.object.lemma_first_hit(shifted(r, scaled(r.time as int, self.motion)), lo, hi, end);
    }

    proof fn lemma_box_bounded(&self, exposure: Range<i64>) {
    }

    proof fn lemma_hit_in_box(&self, r: Ray, lo: Param, hi: Param, exposure: Range<i64>) {
        let m = scaled(r.time as int, self.motion);
        let s = shifted(r, m);
        let b = self.object.box_of(exposure);
        let b0 = b.translated(scaled(exposure.start as int, self.motion));
        let b1 = b.translated(scaled(exposure.end as int, self.motion));
        self.object.lemma_hit_in_box(s, lo, hi, exposure);
        self.object.lemma_box_bounded(exposure);
        lemma_between(b, self.motion, exposure.start as int, r.time as int, exposure.end as int);
        assert(s.origin.plus(m) == r.origin);
        crate::aabb::lemma_hit_translation_invariant(b, s, m, lo, hi);
        assert(Ray { origin: s.origin.plus(m), ..s } == r);
        crate::bvh::lemma_hit_monotone(b0.merged(b1), b.translated(m), r, lo, hi);
    }
}

/// For `s <= t <= e`, the box moved by `t * m` lies inside the merge of the
/// box moved by `s * m` and by `e * m`, and is bounded when those are.
proof fn lemma_between(b: Aabb, m: Vec3, s: int, t: int, e: int)
    requires
        s <= t <= e,
        scaled_ok(s, m),
        scaled_ok(t, m),
        scaled_ok(e, m),
        b.bounded(),
        b.translated(scaled(s, m)).bounded(),
        b.translated(scaled(e, m)).bounded(),
    ensures
        b.translated(scaled(s, m)).merged(b.translated(scaled(e, m))).contains(
            b.translated(scaled(t, m)),
        ),
        b.translated(scaled(t, m)).bounded(),
{
    lemma_between_coord(m.0 as int, s, t, e);
    lemma_between_coord(m.1 as int, s, t, e);
    lemma_between_coord(m.2 as int, s, t, e);
    let (ms, mt, me) = (scaled(s, m), scaled(t, m), scaled(e, m));
    assert(ms.0 == s * m.0 && ms.1 == s * m.1 && ms.2 == s * m.2);
    assert(mt.0 == t * m.0 && mt.1 == t * m.1 && mt.2 == t * m.2);
    assert(me.0 == e * m.0 && me.1 == e * m.1 && me.2 == e * m.2);
    let (bs, bt, be) = (b.translated(ms), b.translated(mt), b.translated(me));
    assert(bs.min.0 == b.min.0 + ms.0 && bs.min.1 == b.min.1 + ms.1 && bs.min.2 == b.min.2 + ms.2);
    assert(bs.max.0 == b.max.0 + ms.0 && bs.max.1 == b.max.1 + ms.1 && bs.max.2 == b.max.2 + ms.2);
    assert(be.min.0 == b.min.0 + me.0 && be.min.1 == b.min.1 + me.1 && be.min.2 == b.min.2 + me.2);
    assert(be.max.0 == b.max.0 + me.0 && be.max.1 == b.max.1 + me.1 && be.max.2 == b.max.2 + me.2);
    assert(bt.min.0 == b.min.0 + mt.0 && bt.min.1 == b.min.1 + mt.1 && bt.min.2 == b.min.2 + mt.2);
    assert(bt.max.0 == b.max.0 + mt.0 && bt.max.1 == b.max.1 + mt.1 && bt.max.2 == b.max.2 + mt.2);
}

/// `t * c` lies between `s * c` and `e * c` for `s <= t <= e`.
proof fn lemma_between_coord(c: int, s: int, t: int, e: int)
    requires
        s <= t <= e,
    ensures
        (s * c <= t * c <= e * c) || (e * c <= t * c <= s * c),
{
    if c >= 0 {
        assert(s * c <= t * c <= e * c) by (nonlinear_arith)
            requires
                s <= t <= e,
                c >= 0,
        ;
    } else {
        assert(e * c <= t * c <= s * c) by (nonlinear_arith)
            requires
                s <= t <= e,
                c < 0,
        ;
    }
}

/// `s * v`, which must fit the coordinate bounds.
fn scale_vec(s: i64, v: &Vec3) -> (r: Vec3)
    requires
        scaled_ok(s as int, *v),
    ensures
        r == scaled(s as int, *v),
        r.bounded(),
{
    Vec3(
        ((s as i128) * (v.0 as i128)) as i64,
        ((s as i128) * (v.1 as i128)) as i64,
        ((s as i128) * (v.2 as i128)) as i64,
    )
}

/// The union of two shapes: the nearer hit of the two.
#[derive(Debug)]
pub struct And<T, S>(pub T, pub S);

impl<T: Shape, S: Shape> Shape for And<T, S> {
    open spec fn ok(&self) -> bool {
        self.0.ok() && self.1.ok()
    }

    open spec fn accepts(&self, r: Ray) -> bool {
        self.0.accepts(r) && self.1.accepts(r)
    }

    /// The nearer of the two first hits; the first shape's on a tie.
    open spec fn first_hit(&self, r: Ray, lo: Param, hi: Param) -> Option<RectHit> {
        nearer(self.0.first_hit(r, lo, hi), self.1.first_hit(r, lo, hi))
    }

    open spec fn box_of(&self, exposure: Range<i64>) -> Aabb {
        self.0.box_of(exposure).merged(self.1.box_of(exposure))
    }

    open spec fn box_fits(&self, exposure: Range<i64>) -> bool {
        self.0.box_fits(exposure) && self.1.box_fits(exposure)
    }

    /// Tests the first shape, narrows the end of the range to its hit, tests
    /// the second in the narrowed range, and returns the second's hit if
    /// there is one, else the first's.
    fn hit(&self, ray: &Ray, t_range: Range<Param>) -> (res: Option<RectHit>) {
        let lo = t_range.start;
        let hi = t_range.end;
        let h0 = self.0.hit(ray, lo..hi);
        proof {
            self.0.lemma_first_hit(*ray, lo, hi, hi);
        }
        let end = match h0 {
            Some(h) => h.t,
            None => hi,
        };
        proof {
            self.1.lemma_first_hit(*ray, lo, hi, end);
        }
        let h1 = self.1.hit(ray, lo..end);
        match h1 {
            Some(h) => Some(h),
            None => h0,
        }
    }

    fn bounding_box(&self, exposure: &Range<i64>) -> (r: Aabb) {
        let b0 = self.0.bounding_box(exposure);
        let b1 = self.1.bounding_box(exposure);
        b0.merge(b1)
    }

    proof fn lemma_first_hit(&self, r: Ray, lo: Param, hi: Param, end: Param) {
        self.0.lemma_first_hit(r, lo, hi, end);
        self.1.lemma_first_hit(r, lo, hi, end);
        let (a, b) = (self.0.first_hit(r, lo, hi), self.1.first_hit(r, lo, hi));
        if let (Some(x), Some(y)) = (a, b) {
            let (tx, ty, te) = (x.t.frac(), y.t.frac(), end.frac());
            if frac_lt(ty, tx) {
                if !frac_lt(ty, te) {
                    // y at or after the end, x after y: both dropped.
                    lemma_le_lt(te, ty, tx);
                    assert(!frac_lt(tx, te));
                }
            } else {
                if !frac_lt(tx, te) && frac_lt(ty, te) {
                    // x at or after the end, y not before x: contradiction.
                    lemma_lt_le(ty, te, tx);
                }
            }
        }
    }

    proof fn lemma_box_bounded(&self, exposure: Range<i64>) {
        self.0.lemma_box_bounded(exposure);
        self.1.lemma_box_bounded(exposure);
    }

    proof fn lemma_hit_in_box(&self, r: Ray, lo: Param, hi: Param, exposure: Range<i64>) {
        let (b0, b1) = (self.0.box_of(exposure), self.1.box_of(exposure));
        if self.0.first_hit(r, lo, hi) is Some {
            self.0.lemma_hit_in_box(r, lo, hi, exposure);
            crate::bvh::lemma_hit_monotone(b0.merged(b1), b0, r, lo, hi);
        } else {
            self.1.lemma_hit_in_box(r, lo, hi, exposure);
            crate::bvh::lemma_hit_monotone(b0.merged(b1), b1, r, lo, hi);
        }
    }
}

/// The six faces of an axis-aligned box, as built by `rect_prism`.
pub type Prism = And<
    And<LatticeRect, And<LatticeRect, LatticeRect>>,
    And<FlipNormals<LatticeRect>, And<FlipNormals<LatticeRect>, FlipNormals<LatticeRect>>>,
>;

/// The face orthogonal to `axis` at `k`, spanning `lo..hi` on the other two
/// axes (in alphabetical order).
pub open spec fn face(axis: Axis, lo0: i64, hi0: i64, lo1: i64, hi1: i64, k: i64) -> LatticeRect {
    LatticeRect { axis, range0: lo0..hi0, range1: lo1..hi1, k }
}

/// A rectangular prism with min and max corners `p0` and `p1`: the three faces
/// at `p1` with outward normals, the three at `p0` with flipped normals.
pub fn rect_prism(p0: Vec3, p1: Vec3) -> (r: Prism)
    ensures
        r.0.0 == face(Axis::Z, p0.0, p1.0, p0.1, p1.1, p1.2),
        r.0.1.0 == face(Axis::Y, p0.0, p1.0, p0.2, p1.2, p1.1),
        r.0.1.1 == face(Axis::X, p0.1, p1.1, p0.2, p1.2, p1.0),
        r.1.0.0 == face(Axis::Z, p0.0, p1.0, p0.1, p1.1, p0.2),
        r.1.1.0.0 == face(Axis::Y, p0.0, p1.0, p0.2, p1.2, p0.1),
        r.1.1.1.0 == face(Axis::X, p0.1, p1.1, p0.2, p1.2, p0.0),
{
    And(
        And(
            LatticeRect { axis: Axis::Z, range0: p0.0..p1.0, range1: p0.1..p1.1, k: p1.2 },
            And(
                LatticeRect { axis: Axis::Y, range0: p0.0..p1.0, range1: p0.2..p1.2, k: p1.1 },
                LatticeRect { axis: Axis::X, range0: p0.1..p1.1, range1: p0.2..p1.2, k: p1.0 },
            ),
        ),
        And(
            FlipNormals(LatticeRect { axis: Axis::Z, range0: p0.0..p1.0, range1: p0.1..p1.1, k: p0.2 }),
            And(
                FlipNormals(
                    LatticeRect { axis: Axis::Y, range0: p0.0..p1.0, range1: p0.2..p1.2, k: p0.1 },
                ),
                FlipNormals(
                    LatticeRect { axis: Axis::X, range0: p0.1..p1.1, range1: p0.2..p1.2, k: p0.0 },
                ),
            ),
        ),
    )
}

} // verus!
