//! Axis-orthogonal rectangles on the integer lattice, intersected exactly.
use vstd::prelude::*;
use crate::aabb::{Aabb, inside_at, lemma_interior_hit};
use crate::axis::{first_other, others, second_other};
use crate::ray::{Param, Ray, frac_le, frac_lt};
use crate::vec3::{Axis, COORD_LIMIT, Vec3, coord_ok, unit_vec};
use std::ops::Range;

verus! {

/// A rectangle orthogonal to `axis` at offset `k`. It spans the half-open
/// ranges `range0` and `range1` along the other two axes, taken in
/// alphabetical order (for `axis` Z: X, then Y).
#[derive(Debug)]
pub struct LatticeRect {
    pub axis: Axis,
    pub range0: Range<i64>,
    pub range1: Range<i64>,
    pub k: i64,
}

/// A point whose coordinates are numerators over a denominator kept
/// elsewhere.
#[derive(Clone, Copy, Debug, PartialEq, Eq, Structural)]
pub struct ScaledPoint(pub i128, pub i128, pub i128);

/// The fraction `num / den`; `den` may be zero or negative.
#[derive(Clone, Copy, Debug, PartialEq, Eq, Structural)]
pub struct Fraction {
    pub num: i128,
    pub den: i128,
}

/// Where a ray meets a surface.
#[derive(Clone, Copy, Debug, PartialEq, Eq, Structural)]
pub struct RectHit {
    /// The ray parameter.
    pub t: Param,
    /// The hit point, as numerators over `t.den`.
    pub p: ScaledPoint,
    /// The texture coordinate `u`.
    pub u: Fraction,
    /// The texture coordinate `v`, likewise.
    pub v: Fraction,
    /// The surface normal.
    pub normal: Vec3,
}

/// A coordinate strictly inside the accepted range, so that it can be moved
/// by one lattice unit.
pub open spec fn inner_coord(c: int) -> bool {
    -COORD_LIMIT < c < COORD_LIMIT
}

/// The coordinate of the ray along `a` at parameter `t`, scaled by `t.1`.
pub open spec fn coord_at(r: Ray, a: Axis, t: (int, int)) -> int {
    r.origin.comp(a) * t.1 + t.0 * r.direction.comp(a)
}

/// `t` lies in the half-open parameter range `[lo, hi)`.
pub open spec fn in_range(t: (int, int), lo: Param, hi: Param) -> bool {
    frac_le(lo.frac(), t) && frac_lt(t, hi.frac())
}

/// The vector with `va` on axis `a` and `vb`, `vc` on the two other axes in
/// alphabetical order.
pub open spec fn place(a: Axis, va: int, vb: int, vc: int) -> Vec3 {
    match a {
        Axis::X => Vec3(va as i64, vb as i64, vc as i64),
        Axis::Y => Vec3(vb as i64, va as i64, vc as i64),
        Axis::Z => Vec3(vb as i64, vc as i64, va as i64),
    }
}

fn place_exec(a: Axis, va: i64, vb: i64, vc: i64) -> (r: Vec3)
    ensures
        r == place(a, va as int, vb as int, vc as int),
{
    match a {
        Axis::X => Vec3(va, vb, vc),
        Axis::Y => Vec3(vb, va, vc),
        Axis::Z => Vec3(vb, vc, va),
    }
}

impl LatticeRect {
    pub open spec fn bounded(&self) -> bool {
        &&& inner_coord(self.k as int)
        &&& inner_coord(self.range0.start as int)
        &&& inner_coord(self.range0.end as int)
        &&& inner_coord(self.range1.start as int)
        &&& inner_coord(self.range1.end as int)
    }

    /// The parameter at which the ray crosses the rectangle's plane, as a
    /// fraction with a positive denominator; `None` for a ray parallel to
    /// the plane.
    pub open spec fn plane_param(&self, r: Ray) -> Option<(int, int)> {
        let d = r.direction.comp(self.axis) as int;
        let o = r.origin.comp(self.axis) as int;
        if d > 0 {
            Some((self.k - o, d))
        } else if d < 0 {
            Some((o - self.k, -d))
        } else {
            None
        }
    }

    /// The parameter at which the ray meets the rectangle, whatever the
    /// parameter range: its plane crossing, when the crossing point lies in
    /// both half-open ranges.
    pub open spec fn meets_at(&self, r: Ray) -> Option<(int, int)> {
        match self.plane_param(r) {
            None => None,
            Some(t) => {
                let x = coord_at(r, first_other(self.axis), t);
                let y = coord_at(r, second_other(self.axis), t);
                if self.range0.start * t.1 <= x < self.range0.end * t.1 && self.range1.start * t.1
                    <= y < self.range1.end * t.1 {
                    Some(t)
                } else {
                    None
                }
            },
        }
    }

    /// The ray meets the rectangle at a parameter in `[lo, hi)`.
    pub open spec fn hits_within(&self, r: Ray, lo: Param, hi: Param) -> bool {
        &&& self.meets_at(r) is Some
        &&& in_range(self.meets_at(r)->0, lo, hi)
    }

    /// The rectangle's box, widened by one lattice unit on every side so that
    /// the rectangle lies in its interior.
    pub open spec fn box_spec(&self) -> Aabb {
        Aabb {
            min: place(self.axis, self.k - 1, self.range0.start - 1, self.range1.start - 1),
            max: place(self.axis, self.k + 1, self.range0.end + 1, self.range1.end + 1),
        }
    }

    /// The record of a hit at parameter `t`: the ray point at `t`; the texture
    /// coordinates `u = (x − range0.start) / range0.end` and
    /// `v = (y − range1.start) / range1.end`, where `x` and `y` are the point's
    /// coordinates along the two other axes (the divisor is the range's upper
    /// end, not its span); and the unit normal along the rectangle's axis.
    pub open spec fn record_at(&self, r: Ray, t: (int, int)) -> RectHit {
        let x = coord_at(r, first_other(self.axis), t);
        let y = coord_at(r, second_other(self.axis), t);
        RectHit {
            t: Param { num: t.0 as i64, den: t.1 as i64 },
            p: ScaledPoint(
                coord_at(r, Axis::X, t) as i128,
                coord_at(r, Axis::Y, t) as i128,
                coord_at(r, Axis::Z, t) as i128,
            ),
            u: Fraction {
                num: (x - self.range0.start * t.1) as i128,
                den: (self.range0.end * t.1) as i128,
            },
            v: Fraction {
                num: (y - self.range1.start * t.1) as i128,
                den: (self.range1.end * t.1) as i128,
            },
            normal: unit_vec(self.axis),
        }
    }

    /// Intersects the ray with the rectangle for parameters in
    /// `t_range.start <= t < t_range.end`.
    pub fn hit(&self, ray: &Ray, t_range: Range<Param>) -> (r: Option<RectHit>)
        requires
            self.bounded(),
            ray.bounded(),
            t_range.start.wf(),
            t_range.end.wf(),
        ensures
            r is Some <==> self.hits_within(*ray, t_range.start, t_range.end),
            r matches Some(h) ==> {
                let t = self.meets_at(*ray)->0;
                &&& h == self.record_at(*ray, t)
                &&& h.t.frac() == t
                &&& h.t.wf()
                &&& h.p.0 == coord_at(*ray, Axis::X, t)
                &&& h.p.1 == coord_at(*ray, Axis::Y, t)
                &&& h.p.2 == coord_at(*ray, Axis::Z, t)
                &&& h.normal == unit_vec(self.axis)
            },
    {
        let lo = t_range.start;
        let hi = t_range.end;
        let a = self.axis;
        let (b, c) = others(a);
        let d = ray.direction.get(a) as i128;
        let o = ray.origin.get(a) as i128;
        let k = self.k as i128;
        if d == 0 {
            return None;
        }
        let (tn, td) = if d > 0 {
            (k - o, d)
        } else {
            (o - k, -d)
        };
        proof {
            lemma_small_products(tn as int, td as int, lo.frac(), hi.frac());
        }
        if !(lo.num as i128 * td <= tn * lo.den as i128) {
            return None;
        }
        if !(tn * (hi.den as i128) < (hi.num as i128) * td) {
            return None;
        }
        let ob = ray.origin.get(b) as i128;
        let db = ray.direction.get(b) as i128;
        let oc = ray.origin.get(c) as i128;
        let dc = ray.direction.get(c) as i128;
        proof {
            lemma_coord_product(ob as int, td as int);
            lemma_coord_product(oc as int, td as int);
            lemma_coord_product(tn as int, db as int);
            lemma_coord_product(tn as int, dc as int);
            lemma_coord_product(self.range0.start as int, td as int);
            lemma_coord_product(self.range0.end as int, td as int);
            lemma_coord_product(self.range1.start as int, td as int);
            lemma_coord_product(self.range1.end as int, td as int);
        }
        let x = ob * td + tn * db;
        let y = oc * td + tn * dc;
        if !((self.range0.start as i128) * td <= x && x < (self.range0.end as i128) * td) {
            return None;
        }
        if !((self.range1.start as i128) * td <= y && y < (self.range1.end as i128) * td) {
            return None;
        }
        let (o0, o1, o2) = (ray.origin.0 as i128, ray.origin.1 as i128, ray.origin.2 as i128);
        let (d0, d1, d2) = (ray.direction.0 as i128, ray.direction.1 as i128, ray.direction.2 as i128);
        proof {
            lemma_coord_product(o0 as int, td as int);
            lemma_coord_product(o1 as int, td as int);
            lemma_coord_product(o2 as int, td as int);
            lemma_coord_product(tn as int, d0 as int);
            lemma_coord_product(tn as int, d1 as int);
            lemma_coord_product(tn as int, d2 as int);
        }
        let p = ScaledPoint(o0 * td + tn * d0, o1 * td + tn * d1, o2 * td + tn * d2);
        let u = Fraction { num: x - (self.range0.start as i128) * td, den: (self.range0.end as i128) * td };
        let v = Fraction { num: y - (self.range1.start as i128) * td, den: (self.range1.end as i128) * td };
        Some(RectHit { t: Param { num: tn as i64, den: td as i64 }, p, u, v, normal: Vec3::unit(a) })
    }

    /// The rectangle's bounding box, widened by one lattice unit on every
    /// side.
    pub fn bounding_box(&self) -> (r: Aabb)
        requires
            self.bounded(),
        ensures
            r == self.box_spec(),
            r.bounded(),
    {
        let a = self.axis;
        let min = place_exec(a, self.k - 1, self.range0.start - 1, self.range1.start - 1);
        let max = place_exec(a, self.k + 1, self.range0.end + 1, self.range1.end + 1);
        Aabb { min, max }
    }
}

/// Bounds on the products formed when testing a plane crossing against the
/// range.
proof fn lemma_small_products(tn: int, td: int, lo: (int, int), hi: (int, int))
    requires
        -2 * COORD_LIMIT <= tn <= 2 * COORD_LIMIT,
        0 < td <= COORD_LIMIT,
        crate::ray::frac_ok(lo),
        crate::ray::frac_ok(hi),
    ensures
        i128::MIN < lo.0 * td < i128::MAX,
        i128::MIN < tn * lo.1 < i128::MAX,
        i128::MIN < hi.0 * td < i128::MAX,
        i128::MIN < tn * hi.1 < i128::MAX,
{
    crate::ray::lemma_frac_products_fit(lo, (tn, td));
    crate::ray::lemma_frac_products_fit(hi, (tn, td));
}

/// A coordinate-sized factor times a crossing-sized factor stays below `2^62`.
pub proof fn lemma_coord_product(c: int, t: int)
    requires
        -2 * COORD_LIMIT <= c <= 2 * COORD_LIMIT,
        -2 * COORD_LIMIT <= t <= 2 * COORD_LIMIT,
    ensures
        -0x4000_0000_0000_0000 <= c * t <= 0x4000_0000_0000_0000,
{
    assert(-0x8000_0000 * 0x8000_0000 <= c * t <= 0x8000_0000 * 0x8000_0000) by (nonlinear_arith)
        requires
            -0x8000_0000 <= c <= 0x8000_0000,
            -0x8000_0000 <= t <= 0x8000_0000,
    ;
}

/// Components of `place`: `va` on `a`, `vb` and `vc` on the other two axes.
proof fn lemma_place(a: Axis, va: int, vb: int, vc: int)
    requires
        coord_ok(va),
        coord_ok(vb),
        coord_ok(vc),
    ensures
        place(a, va, vb, vc).comp(a) == va,
        place(a, va, vb, vc).comp(first_other(a)) == vb,
        place(a, va, vb, vc).comp(second_other(a)) == vc,
{
}

/// Every axis is the rectangle's axis or one of the two others.
proof fn lemma_axis_cases(a: Axis, b: Axis)
    ensures
        b == a || b == first_other(a) || b == second_other(a),
{
}

/// A ray that meets a rectangle at a parameter in `[lo, hi)` passes the slab
/// test of the rectangle's box on `(lo, hi)`: pruning by boxes never loses a
/// rectangle hit.
pub proof fn lemma_rect_hit_in_box(rect: LatticeRect, r: Ray, lo: Param, hi: Param)
    requires
        rect.bounded(),
        lo.wf(),
        hi.wf(),
        rect.hits_within(r, lo, hi),
    ensures
        rect.box_spec().hit_spec(r, lo, hi),
{
    let t = rect.meets_at(r)->0;
    let bx = rect.box_spec();
    let a = rect.axis;
    let (t0, t1) = t;
    let (k, s0, e0, s1, e1) = (
        rect.k as int,
        rect.range0.start as int,
        rect.range0.end as int,
        rect.range1.start as int,
        rect.range1.end as int,
    );
    lemma_place(a, k - 1, s0 - 1, s1 - 1);
    lemma_place(a, k + 1, e0 + 1, e1 + 1);
    assert(t1 > 0);
    let d = r.direction.comp(a) as int;
    let o = r.origin.comp(a) as int;
    assert((k - 1) * t1 < o * t1 + t0 * d < (k + 1) * t1) by (nonlinear_arith)
        requires
            t1 > 0,
            (d > 0 && t0 == k - o && t1 == d) || (d < 0 && t0 == o - k && t1 == -d),
    ;
    assert(inside_at(bx, r, t, a));
    let b = first_other(a);
    let x = r.origin.comp(b) * t1 + t0 * r.direction.comp(b);
    assert((s0 - 1) * t1 < x < (e0 + 1) * t1) by (nonlinear_arith)
        requires
            t1 > 0,
            s0 * t1 <= x < e0 * t1,
    ;
    assert(inside_at(bx, r, t, b));
    let c = second_other(a);
    let y = r.origin.comp(c) * t1 + t0 * r.direction.comp(c);
    assert((s1 - 1) * t1 < y < (e1 + 1) * t1) by (nonlinear_arith)
        requires
            t1 > 0,
            s1 * t1 <= y < e1 * t1,
    ;
    assert(inside_at(bx, r, t, c));
    assert forall|a2: Axis| #[trigger] inside_at(bx, r, t, a2) by {
        lemma_axis_cases(a, a2);
    }
    lemma_interior_hit(bx, r, lo, hi, t);
}

} // verus!
