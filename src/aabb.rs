//! Axis-aligned bounding boxes.
use vstd::prelude::*;
use crate::ray::{
    Param, Ray, frac_le, frac_lt, frac_ok, lemma_frac_products_fit, lemma_le_le, lemma_le_lt,
    lemma_lt_le,
};
use crate::vec3::{Axis, Vec3};
use std::ops::Range;

verus! {

/// An axis-aligned box given by its two extreme corners.
#[derive(Clone, Copy, Debug, PartialEq, Eq, Structural)]
pub struct Aabb {
    pub min: Vec3,
    pub max: Vec3,
}

pub open spec fn min_of(a: i64, b: i64) -> i64 {
    if a <= b {
        a
    } else {
        b
    }
}

pub open spec fn max_of(a: i64, b: i64) -> i64 {
    if a >= b {
        a
    } else {
        b
    }
}

/// An exact fraction carried by executable code.
pub type Frac = (i128, i128);

pub open spec fn frac_of(f: Frac) -> (int, int) {
    (f.0 as int, f.1 as int)
}

impl Aabb {
    pub open spec fn bounded(self) -> bool {
        self.min.bounded() && self.max.bounded()
    }

    /// The corners are ordered: `min` lies below `max` on every axis.
    pub open spec fn wf(self) -> bool {
        self.min.0 <= self.max.0 && self.min.1 <= self.max.1 && self.min.2 <= self.max.2
    }

    /// `o` lies inside `self`, faces included.
    pub open spec fn contains(self, o: Aabb) -> bool {
        self.min.0 <= o.min.0 && self.min.1 <= o.min.1 && self.min.2 <= o.min.2 && o.max.0
            <= self.max.0 && o.max.1 <= self.max.1 && o.max.2 <= self.max.2
    }

    /// The smallest box holding both boxes: componentwise minimum of the
    /// minima and maximum of the maxima.
    pub open spec fn merged(self, o: Aabb) -> Aabb {
        Aabb {
            min: Vec3(
                min_of(self.min.0, o.min.0),
                min_of(self.min.1, o.min.1),
                min_of(self.min.2, o.min.2),
            ),
            max: Vec3(
                max_of(self.max.0, o.max.0),
                max_of(self.max.1, o.max.1),
                max_of(self.max.2, o.max.2),
            ),
        }
    }

    /// The box moved by `v`.
    pub open spec fn translated(self, v: Vec3) -> Aabb {
        Aabb { min: self.min.plus(v), max: self.max.plus(v) }
    }

    /// The eight corners, with the X choice varying slowest and the Z choice
    /// fastest, `min` before `max`.
    pub open spec fn corner_seq(self) -> Seq<Vec3> {
        let (a, b) = (self.min, self.max);
        seq![
            Vec3(a.0, a.1, a.2),
            Vec3(a.0, a.1, b.2),
            Vec3(a.0, b.1, a.2),
            Vec3(a.0, b.1, b.2),
            Vec3(b.0, a.1, a.2),
            Vec3(b.0, a.1, b.2),
            Vec3(b.0, b.1, a.2),
            Vec3(b.0, b.1, b.2),
        ]
    }

    /// Where the ray enters the slab of axis `a`, as a fraction over the
    /// magnitude of the direction's component; `lo` where that component is
    /// zero, as the slab then places no bound on the parameter.
    pub open spec fn entry(self, r: Ray, lo: Param, a: Axis) -> (int, int) {
        let d = r.direction.comp(a) as int;
        let o = r.origin.comp(a) as int;
        if d > 0 {
            (self.min.comp(a) - o, d)
        } else if d < 0 {
            (o - self.max.comp(a), -d)
        } else {
            lo.frac()
        }
    }

    /// Where the ray leaves the slab of axis `a`; `hi` where the direction
    /// has no component along `a`.
    pub open spec fn exit(self, r: Ray, hi: Param, a: Axis) -> (int, int) {
        let d = r.direction.comp(a) as int;
        let o = r.origin.comp(a) as int;
        if d > 0 {
            (self.max.comp(a) - o, d)
        } else if d < 0 {
            (o - self.min.comp(a), -d)
        } else {
            hi.frac()
        }
    }

    /// A ray parallel to the slab of axis `a` starts within it.
    pub open spec fn admits(self, r: Ray, a: Axis) -> bool {
        r.direction.comp(a) == 0 ==> self.min.comp(a) <= r.origin.comp(a) <= self.max.comp(a)
    }

    /// The ray meets the box for parameters inside `(lo, hi)`: the open
    /// intervals of the three slabs and of the range have a common point,
    /// that is, every lower end lies strictly below every upper end.
    pub open spec fn hit_spec(self, r: Ray, lo: Param, hi: Param) -> bool {
        &&& forall|a: Axis| #[trigger] self.admits(r, a)
        &&& frac_lt(lo.frac(), hi.frac())
        &&& forall|a: Axis| frac_lt(lo.frac(), #[trigger] self.exit(r, hi, a))
        &&& forall|a: Axis| frac_lt(#[trigger] self.entry(r, lo, a), hi.frac())
        &&& forall|a: Axis, b: Axis|
            frac_lt(#[trigger] self.entry(r, lo, a), #[trigger] self.exit(r, hi, b))
    }

    /// Narrows the interval `(start, end)` by the slab of axis `a`, or
    /// reports that a ray parallel to the slab lies outside it.
    fn tighten(&self, ray: &Ray, lo: Param, hi: Param, a: Axis, start: Frac, end: Frac) -> (r:
        Option<(Frac, Frac)>)
        requires
            self.bounded(),
            ray.bounded(),
            lo.wf(),
            hi.wf(),
            frac_ok(frac_of(start)),
            frac_ok(frac_of(end)),
            frac_le(lo.frac(), frac_of(start)),
            frac_le(frac_of(end), hi.frac()),
        ensures
            r is None <==> !self.admits(*ray, a),
            r matches Some((s, e)) ==> {
                &&& frac_ok(frac_of(s))
                &&& frac_ok(frac_of(e))
                &&& frac_le(frac_of(start), frac_of(s))
                &&& frac_le(self.entry(*ray, lo, a), frac_of(s))
                &&& (frac_of(s) == frac_of(start) || frac_of(s) == self.entry(*ray, lo, a))
                &&& frac_le(frac_of(e), frac_of(end))
                &&& frac_le(frac_of(e), self.exit(*ray, hi, a))
                &&& (frac_of(e) == frac_of(end) || frac_of(e) == self.exit(*ray, hi, a))
            },
    {
        let d = ray.direction.get(a) as i128;
        let o = ray.origin.get(a) as i128;
        let bmin = self.min.get(a) as i128;
        let bmax = self.max.get(a) as i128;
        if d == 0 {
            if o < bmin || o > bmax {
                return None;
            }
            return Some((start, end));
        }
        let (en, ex, dd) = if d > 0 {
            (bmin - o, bmax - o, d)
        } else {
            (o - bmax, o - bmin, -d)
        };
        assert(frac_ok((en as int, dd as int)) && frac_ok((ex as int, dd as int)));
        proof {
            lemma_frac_products_fit((en as int, dd as int), frac_of(start));
            lemma_frac_products_fit((ex as int, dd as int), frac_of(end));
        }
        let s = if start.0 * dd < en * start.1 {
            (en, dd)
        } else {
            start
        };
        let e = if ex * end.1 < end.0 * dd {
            (ex, dd)
        } else {
            end
        };
        Some((s, e))
    }

    /// Slab test: whether the ray meets the box for a parameter strictly
    /// inside `t_range`. A ray parallel to an axis counts as
    /// inside that axis's slab when its origin lies within the slab, faces
    /// included.
    pub fn hit(&self, ray: &Ray, t_range: Range<Param>) -> (r: bool)
        requires
            self.bounded(),
            ray.bounded(),
            t_range.start.wf(),
            t_range.end.wf(),
        ensures
            r == self.hit_spec(*ray, t_range.start, t_range.end),
    {
        let t_min = t_range.start;
        let t_max = t_range.end;
        let start0: Frac = (t_min.num as i128, t_min.den as i128);
        let end0: Frac = (t_max.num as i128, t_max.den as i128);
        let (s1, e1) = match self.tighten(ray, t_min, t_max, Axis::X, start0, end0) {
            None => return false,
            Some(p) => p,
        };
        proof {
            lemma_le_le(t_min.frac(), frac_of(start0), frac_of(s1));
            lemma_le_le(frac_of(e1), frac_of(end0), t_max.frac());
        }
        let (s2, e2) = match self.tighten(ray, t_min, t_max, Axis::Y, s1, e1) {
            None => {
                assert(!self.admits(*ray, Axis::Y));
                return false;
            },
            Some(p) => p,
        };
        proof {
            lemma_le_le(t_min.frac(), frac_of(s1), frac_of(s2));
            lemma_le_le(frac_of(e2), frac_of(e1), t_max.frac());
        }
        let (s3, e3) = match self.tighten(ray, t_min, t_max, Axis::Z, s2, e2) {
            None => {
                assert(!self.admits(*ray, Axis::Z));
                return false;
            },
            Some(p) => p,
        };
        proof {
            lemma_frac_products_fit(frac_of(s3), frac_of(e3));
            let (lo, hi) = (t_min.frac(), t_max.frac());
            let (s, e) = (frac_of(s3), frac_of(e3));
            // Every lower end lies at or below `s`, every upper end at or above `e`.
            lemma_le_le(lo, frac_of(s2), s);
            lemma_le_le(frac_of(s1), frac_of(s2), s);
            lemma_le_le(e, frac_of(e2), hi);
            lemma_le_le(e, frac_of(e2), frac_of(e1));
            let ex = self.entry(*ray, t_min, Axis::X);
            let ey = self.entry(*ray, t_min, Axis::Y);
            let ez = self.entry(*ray, t_min, Axis::Z);
            let xx = self.exit(*ray, t_max, Axis::X);
            let xy = self.exit(*ray, t_max, Axis::Y);
            let xz = self.exit(*ray, t_max, Axis::Z);
            lemma_le_le(ex, frac_of(s1), s);
            lemma_le_le(ey, frac_of(s2), s);
            lemma_le_le(e, frac_of(e1), xx);
            lemma_le_le(e, frac_of(e2), xy);
            assert(forall|a: Axis| self.admits(*ray, a));
            if frac_lt(s, e) {
                assert forall|l: (int, int), u: (int, int)|
                    l.1 > 0 && u.1 > 0 && frac_le(l, s) && frac_le(e, u) implies frac_lt(l, u) by {
                    lemma_le_lt(l, s, e);
                    lemma_lt_le(l, e, u);
                }
                assert(forall|a: Axis| frac_le(#[trigger] self.entry(*ray, t_min, a), s));
                assert(forall|a: Axis| frac_le(e, #[trigger] self.exit(*ray, t_max, a)));
            }
        }
        s3.0 * e3.1 < e3.0 * s3.1
    }

    /// Componentwise min-of-mins and max-of-maxes.
    pub fn merge(self, other: Aabb) -> (r: Aabb)
        ensures
            r == self.merged(other),
            self.wf() && other.wf() ==> r.wf(),
            r.contains(self),
            r.contains(other),
            self.bounded() && other.bounded() ==> r.bounded(),
    {
        Aabb {
            min: Vec3(
                if self.min.0 <= other.min.0 { self.min.0 } else { other.min.0 },
                if self.min.1 <= other.min.1 { self.min.1 } else { other.min.1 },
                if self.min.2 <= other.min.2 { self.min.2 } else { other.min.2 },
            ),
            max: Vec3(
                if self.max.0 >= other.max.0 { self.max.0 } else { other.max.0 },
                if self.max.1 >= other.max.1 { self.max.1 } else { other.max.1 },
                if self.max.2 >= other.max.2 { self.max.2 } else { other.max.2 },
            ),
        }
    }

    /// The eight combinations of `min` and `max` per axis.
    pub fn corners(&self) -> (r: Vec<Vec3>)
        ensures
            r@ == self.corner_seq(),
    {
        let mut r: Vec<Vec3> = Vec::new();
        let mut x: usize = 0;
        while x < 2
            invariant
                x <= 2,
                r@ == self.corner_seq().take(4 * x as int),
            decreases 2 - x,
        {
            let mut y: usize = 0;
            while y < 2
                invariant
                    x < 2,
                    y <= 2,
                    r@ == self.corner_seq().take(4 * x + 2 * y),
                decreases 2 - y,
            {
                let mut z: usize = 0;
                while z < 2
                    invariant
                        x < 2,
                        y < 2,
                        z <= 2,
                        r@ == self.corner_seq().take(4 * x + 2 * y + z),
                    decreases 2 - z,
                {
                    let c = Vec3(
                        if x == 0 { self.min.0 } else { self.max.0 },
                        if y == 0 { self.min.1 } else { self.max.1 },
                        if z == 0 { self.min.2 } else { self.max.2 },
                    );
                    proof {
                        assert(self.corner_seq()[4 * x + 2 * y + z] == c);
                    }
                    r.push(c);
                    assert(r@ =~= self.corner_seq().take(4 * x + 2 * y + z + 1));
                    z = z + 1;
                }
                y = y + 1;
            }
            x = x + 1;
        }
        assert(r@ =~= self.corner_seq());
        r
    }
}

/// Merging is commutative: `merge(a, b) == merge(b, a)`.
pub proof fn lemma_merge_commutative(a: Aabb, b: Aabb)
    ensures
        a.merged(b) == b.merged(a),
{
}

/// Merging is associative: `merge(merge(a, b), c) == merge(a, merge(b, c))`.
pub proof fn lemma_merge_associative(a: Aabb, b: Aabb, c: Aabb)
    ensures
        a.merged(b).merged(c) == a.merged(b.merged(c)),
{
}

/// Merging is idempotent: `merge(a, a) == a`.
pub proof fn lemma_merge_idempotent(a: Aabb)
    ensures
        a.merged(a) == a,
{
}

/// The box is thick on every axis: `min < max` componentwise.
pub open spec fn solid(b: Aabb) -> bool {
    b.min.0 < b.max.0 && b.min.1 < b.max.1 && b.min.2 < b.max.2
}

/// The ray is at the centre of `b` at parameter `tc`, written without
/// division: `2 * (origin + tc * direction) == min + max` on every axis.
pub open spec fn through_center(b: Aabb, r: Ray, tc: Param) -> bool {
    forall|a: Axis|
        2 * (#[trigger] r.origin.comp(a) * tc.den + tc.num * r.direction.comp(a)) == (
        b.min.comp(a) + b.max.comp(a)) * tc.den
}

proof fn lemma_center_axis(b: Aabb, r: Ray, lo: Param, hi: Param, tc: Param, a: Axis)
    requires
        solid(b),
        lo.wf(),
        hi.wf(),
        tc.wf(),
        frac_lt(lo.frac(), tc.frac()),
        frac_lt(tc.frac(), hi.frac()),
        through_center(b, r, tc),
    ensures
        b.admits(r, a),
        frac_lt(b.entry(r, lo, a), tc.frac()),
        frac_lt(tc.frac(), b.exit(r, hi, a)),
{
    let o = r.origin.comp(a) as int;
    let d = r.direction.comp(a) as int;
    let mn = b.min.comp(a) as int;
    let mx = b.max.comp(a) as int;
    let (tn, td) = (tc.num as int, tc.den as int);
    assert(2 * (o * td + tn * d) == (mn + mx) * td);
    assert(mn < mx) by {
        match a {
            Axis::X => {},
            Axis::Y => {},
            Axis::Z => {},
        }
    }
    if d > 0 {
        assert((mn - o) * td < tn * d && tn * d < (mx - o) * td) by (nonlinear_arith)
            requires
                2 * (o * td + tn * d) == (mn + mx) * td,
                mn < mx,
                td > 0,
        ;
    } else if d < 0 {
        assert((o - mx) * td < tn * (-d) && tn * (-d) < (o - mn) * td) by (nonlinear_arith)
            requires
                2 * (o * td + tn * d) == (mn + mx) * td,
                mn < mx,
                td > 0,
        ;
    } else {
        assert(2 * o == mn + mx) by (nonlinear_arith)
            requires
                2 * (o * td + tn * d) == (mn + mx) * td,
                d == 0,
                td > 0,
        ;
    }
}

/// A ray that passes through the centre of a box at a parameter strictly
/// inside `(lo, hi)` hits the box. The box must have some thickness on every
/// axis; a flat box is met on a set of parameters without interior, which the
/// open slab test does not count.
pub proof fn lemma_hit_through_center(b: Aabb, r: Ray, lo: Param, hi: Param, tc: Param)
    requires
        solid(b),
        lo.wf(),
        hi.wf(),
        tc.wf(),
        frac_lt(lo.frac(), tc.frac()),
        frac_lt(tc.frac(), hi.frac()),
        through_center(b, r, tc),
    ensures
        b.hit_spec(r, lo, hi),
{
    let t = tc.frac();
    assert forall|a: Axis| #[trigger] b.admits(r, a) by {
        lemma_center_axis(b, r, lo, hi, tc, a);
    }
    assert forall|a: Axis| frac_lt(lo.frac(), #[trigger] b.exit(r, hi, a)) by {
        lemma_center_axis(b, r, lo, hi, tc, a);
        lemma_lt_le(lo.frac(), t, b.exit(r, hi, a));
    }
    assert forall|a: Axis| frac_lt(#[trigger] b.entry(r, lo, a), hi.frac()) by {
        lemma_center_axis(b, r, lo, hi, tc, a);
        lemma_lt_le(b.entry(r, lo, a), t, hi.frac());
    }
    assert forall|a: Axis, c: Axis|
        frac_lt(#[trigger] b.entry(r, lo, a), #[trigger] b.exit(r, hi, c)) by {
        lemma_center_axis(b, r, lo, hi, tc, a);
        lemma_center_axis(b, r, lo, hi, tc, c);
        lemma_lt_le(b.entry(r, lo, a), t, b.exit(r, hi, c));
    }
    lemma_lt_le(lo.frac(), t, hi.frac());
}

/// Moving a box and a ray's origin by the same vector leaves the outcome of
/// the slab test unchanged.
pub proof fn lemma_hit_translation_invariant(b: Aabb, r: Ray, v: Vec3, lo: Param, hi: Param)
    requires
        b.bounded(),
        r.bounded(),
        v.bounded(),
        b.translated(v).bounded(),
        r.origin.plus(v).bounded(),
    ensures
        b.translated(v).hit_spec(Ray { origin: r.origin.plus(v), ..r }, lo, hi) == b.hit_spec(
            r,
            lo,
            hi,
        ),
{
    let bt = b.translated(v);
    let rt = Ray { origin: r.origin.plus(v), ..r };
    assert forall|a: Axis|
        bt.entry(rt, lo, a) == b.entry(r, lo, a) && bt.exit(rt, hi, a) == b.exit(r, hi, a)
            && bt.admits(rt, a) == b.admits(r, a) by {
        match a {
            Axis::X => {},
            Axis::Y => {},
            Axis::Z => {},
        }
    }
    assert(forall|a: Axis| #[trigger] bt.entry(rt, lo, a) == b.entry(r, lo, a));
    assert(forall|a: Axis| #[trigger] bt.exit(rt, hi, a) == b.exit(r, hi, a));
    assert(forall|a: Axis| #[trigger] bt.admits(rt, a) == b.admits(r, a));
    if b.hit_spec(r, lo, hi) {
        assert(forall|a: Axis| #[trigger] bt.admits(rt, a));
        assert(forall|a: Axis| frac_lt(lo.frac(), #[trigger] bt.exit(rt, hi, a)));
        assert(forall|a: Axis| frac_lt(#[trigger] bt.entry(rt, lo, a), hi.frac()));
        assert forall|a: Axis, c: Axis|
            frac_lt(#[trigger] bt.entry(rt, lo, a), #[trigger] bt.exit(rt, hi, c)) by {
            assert(frac_lt(b.entry(r, lo, a), b.exit(r, hi, c)));
        }
    }
    if bt.hit_spec(rt, lo, hi) {
        assert(forall|a: Axis| #[trigger] b.admits(r, a));
        assert forall|a: Axis| frac_lt(lo.frac(), #[trigger] b.exit(r, hi, a)) by {
            assert(frac_lt(lo.frac(), bt.exit(rt, hi, a)));
        }
        assert forall|a: Axis| frac_lt(#[trigger] b.entry(r, lo, a), hi.frac()) by {
            assert(frac_lt(bt.entry(rt, lo, a), hi.frac()));
        }
        assert forall|a: Axis, c: Axis|
            frac_lt(#[trigger] b.entry(r, lo, a), #[trigger] b.exit(r, hi, c)) by {
            assert(frac_lt(bt.entry(rt, lo, a), bt.exit(rt, hi, c)));
        }
    }
}

/// At parameter `t` the ray is strictly inside `b` along axis `a`
/// (coordinates scaled by the denominator `t.1`).
pub open spec fn inside_at(b: Aabb, r: Ray, t: (int, int), a: Axis) -> bool {
    b.min.comp(a) * t.1 < r.origin.comp(a) * t.1 + t.0 * r.direction.comp(a) < b.max.comp(a) * t.1
}

proof fn lemma_inside_axis(b: Aabb, r: Ray, lo: Param, hi: Param, t: (int, int), a: Axis)
    requires
        t.1 > 0,
        lo.wf(),
        hi.wf(),
        frac_le(lo.frac(), t),
        frac_lt(t, hi.frac()),
        inside_at(b, r, t, a),
    ensures
        b.admits(r, a),
        frac_le(b.entry(r, lo, a), t),
        frac_lt(t, b.exit(r, hi, a)),
        b.entry(r, lo, a).1 > 0,
        b.exit(r, hi, a).1 > 0,
{
    let d = r.direction.comp(a) as int;
    let o = r.origin.comp(a) as int;
    let (mn, mx) = (b.min.comp(a) as int, b.max.comp(a) as int);
    let (t0, t1) = t;
    if d > 0 {
        assert((mn - o) * t1 <= t0 * d && t0 * d < (mx - o) * t1) by (nonlinear_arith)
            requires
                mn * t1 < o * t1 + t0 * d < mx * t1,
        ;
    } else if d < 0 {
        assert((o - mx) * t1 <= t0 * (-d) && t0 * (-d) < (o - mn) * t1) by (nonlinear_arith)
            requires
                mn * t1 < o * t1 + t0 * d < mx * t1,
        ;
    } else {
        assert(mn < o < mx) by (nonlinear_arith)
            requires
                mn * t1 < o * t1 + t0 * d < mx * t1,
                d == 0,
                t1 > 0,
        ;
    }
}

/// A ray that is strictly inside `b` at a parameter `t` with
/// `lo <= t < hi` passes the slab test on `(lo, hi)`.
pub proof fn lemma_interior_hit(b: Aabb, r: Ray, lo: Param, hi: Param, t: (int, int))
    requires
        t.1 > 0,
        lo.wf(),
        hi.wf(),
        frac_le(lo.frac(), t),
        frac_lt(t, hi.frac()),
        forall|a: Axis| #[trigger] inside_at(b, r, t, a),
    ensures
        b.hit_spec(r, lo, hi),
{
    assert forall|a: Axis| #[trigger] b.admits(r, a) by {
        lemma_inside_axis(b, r, lo, hi, t, a);
    }
    assert forall|a: Axis| frac_lt(lo.frac(), #[trigger] b.exit(r, hi, a)) by {
        lemma_inside_axis(b, r, lo, hi, t, a);
        lemma_le_lt(lo.frac(), t, b.exit(r, hi, a));
    }
    assert forall|a: Axis| frac_lt(#[trigger] b.entry(r, lo, a), hi.frac()) by {
        lemma_inside_axis(b, r, lo, hi, t, a);
        lemma_le_lt(b.entry(r, lo, a), t, hi.frac());
    }
    assert forall|a: Axis, c: Axis|
        frac_lt(#[trigger] b.entry(r, lo, a), #[trigger] b.exit(r, hi, c)) by {
        lemma_inside_axis(b, r, lo, hi, t, a);
        lemma_inside_axis(b, r, lo, hi, t, c);
        lemma_le_lt(b.entry(r, lo, a), t, b.exit(r, hi, c));
    }
    lemma_le_lt(lo.frac(), t, hi.frac());
}

} // verus!
