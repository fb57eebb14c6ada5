//! Orthogonal frames built around a surface normal.
use vstd::prelude::*;
use crate::vec3::{Vec3, cross_spec, dot_spec, lemma_bounded_product};

verus! {

/// An orthogonal basis `(u, v, w)`: each axis is perpendicular to the other
/// two. The axes keep the lengths that exact construction gives them; they
/// are not scaled to unit length.
#[derive(Clone, Copy, Debug, PartialEq, Eq, Structural)]
pub struct Onb(pub Vec3, pub Vec3, pub Vec3);

/// Names of the basis axes, used as indices.
#[derive(Clone, Copy, Debug, PartialEq, Eq, Structural)]
pub enum AxisBasis {
    U,
    V,
    W,
}

pub open spec fn as_triple(v: Vec3) -> (int, int, int) {
    (v.0 as int, v.1 as int, v.2 as int)
}

/// `w` is nearly parallel to the X axis, in either direction: the magnitude
/// of its X component exceeds nine tenths of its length.
pub open spec fn near_x(w: Vec3) -> bool {
    100 * (w.0 * w.0) > 81 * dot_spec(w, w)
}

/// The world axis crossed with `w` to start the frame: Y when `w` is nearly
/// parallel to X, X otherwise.
pub open spec fn helper_axis(w: Vec3) -> Vec3 {
    if near_x(w) {
        Vec3(0, 1, 0)
    } else {
        Vec3(1, 0, 0)
    }
}

/// The world vector whose coordinates in `b` are `a`:
/// `a.0 * u + a.1 * v + a.2 * w`.
pub open spec fn local_spec(b: Onb, a: Vec3) -> (int, int, int) {
    (
        a.0 * b.0.0 + a.1 * b.1.0 + a.2 * b.2.0,
        a.0 * b.0.1 + a.1 * b.1.1 + a.2 * b.2.1,
        a.0 * b.0.2 + a.1 * b.1.2 + a.2 * b.2.2,
    )
}

pub open spec fn fits_i64(t: (int, int, int)) -> bool {
    i64::MIN <= t.0 <= i64::MAX && i64::MIN <= t.1 <= i64::MAX && i64::MIN <= t.2 <= i64::MAX
}

/// `a` is perpendicular to `a × b`, and so is `b`.
pub proof fn lemma_cross_perpendicular(a: Vec3, b: Vec3)
    ensures
        ({
            let c = cross_spec(a, b);
            &&& a.0 * c.0 + a.1 * c.1 + a.2 * c.2 == 0
            &&& b.0 * c.0 + b.1 * c.1 + b.2 * c.2 == 0
        }),
{
    let (a0, a1, a2, b0, b1, b2) = (a.0 as int, a.1 as int, a.2 as int, b.0 as int, b.1 as int, b.2 as int);
    assert(a0 * (a1 * b2 - a2 * b1) + a1 * (a2 * b0 - a0 * b2) + a2 * (a0 * b1 - a1 * b0) == 0)
        by (nonlinear_arith);
    assert(b0 * (a1 * b2 - a2 * b1) + b1 * (a2 * b0 - a0 * b2) + b2 * (a0 * b1 - a1 * b0) == 0)
        by (nonlinear_arith);
}

impl Onb {
    /// Builds a frame whose `w` axis is `normal`: `v = w × helper` and
    /// `u = w × v`, where the helper is world X, or world Y when `w` is
    /// nearly parallel to X. For a nonzero normal no axis is zero.
    pub fn build_from_w(normal: Vec3) -> (r: Onb)
        requires
            normal.bounded(),
        ensures
            r.2 == normal,
            as_triple(r.1) == cross_spec(normal, helper_axis(normal)),
            as_triple(r.0) == cross_spec(normal, r.1),
            dot_spec(r.0, r.1) == 0,
            dot_spec(r.0, r.2) == 0,
            dot_spec(r.1, r.2) == 0,
            dot_spec(normal, normal) > 0 ==> dot_spec(r.0, r.0) > 0 && dot_spec(r.1, r.1) > 0,
    {
        let w = normal;
        proof {
            lemma_bounded_product(w.0 as int, w.0 as int);
            lemma_bounded_product(w.1 as int, w.1 as int);
            lemma_bounded_product(w.2 as int, w.2 as int);
        }
        let x2 = (w.0 as i128) * (w.0 as i128);
        let len2 = x2 + (w.1 as i128) * (w.1 as i128) + (w.2 as i128) * (w.2 as i128);
        let a = if 100 * x2 > 81 * len2 {
            Vec3(0, 1, 0)
        } else {
            Vec3(1, 0, 0)
        };
        let v = w.cross(&a);
        assert(v.bounded()) by {
            let (w0, w1, w2) = (w.0 as int, w.1 as int, w.2 as int);
            let (a0, a1, a2) = (a.0 as int, a.1 as int, a.2 as int);
            let (v0, v1, v2) = (v.0 as int, v.1 as int, v.2 as int);
            if near_x(w) {
                assert(v0 == -w2 && v1 == 0 && v2 == w0) by (nonlinear_arith)
                    requires
                        v0 == w1 * a2 - w2 * a1,
                        v1 == w2 * a0 - w0 * a2,
                        v2 == w0 * a1 - w1 * a0,
                        a0 == 0,
                        a1 == 1,
                        a2 == 0,
                ;
            } else {
                assert(v0 == 0 && v1 == w2 && v2 == -w1) by (nonlinear_arith)
                    requires
                        v0 == w1 * a2 - w2 * a1,
                        v1 == w2 * a0 - w0 * a2,
                        v2 == w0 * a1 - w1 * a0,
                        a0 == 1,
                        a1 == 0,
                        a2 == 0,
                ;
            }
        }
        let u = w.cross(&v);
        proof {
            lemma_cross_perpendicular(w, a);
            lemma_cross_perpendicular(w, v);
            let (u0, u1, u2, v0, v1, v2) = (u.0 as int, u.1 as int, u.2 as int, v.0 as int, v.1 as int, v.2 as int);
            assert(u0 * v0 + u1 * v1 + u2 * v2 == v0 * u0 + v1 * u1 + v2 * u2) by (nonlinear_arith);
            let (w0, w1, w2) = (w.0 as int, w.1 as int, w.2 as int);
            assert(u0 * w0 + u1 * w1 + u2 * w2 == w0 * u0 + w1 * u1 + w2 * u2) by (nonlinear_arith);
            assert(v0 * w0 + v1 * w1 + v2 * w2 == w0 * v0 + w1 * v1 + w2 * v2) by (nonlinear_arith);
            if dot_spec(w, w) > 0 {
                lemma_frame_nonzero(w, v, u);
            }
        }
        Onb(u, v, w)
    }

    /// The axis named by `idx`.
    pub fn index(&self, idx: AxisBasis) -> (r: Vec3)
        ensures
            r == match idx {
                AxisBasis::U => self.0,
                AxisBasis::V => self.1,
                AxisBasis::W => self.2,
            },
    {
        match idx {
            AxisBasis::U => self.0,
            AxisBasis::V => self.1,
            AxisBasis::W => self.2,
        }
    }

    /// Maps coordinates `a` in this basis to world space. The result must
    /// fit the coordinate type.
    pub fn local(&self, a: Vec3) -> (r: Vec3)
        requires
            a.bounded(),
            fits_i64(local_spec(*self, a)),
        ensures
            as_triple(r) == local_spec(*self, a),
    {
        proof {
            lemma_mul_fits(a.0 as int, self.0.0 as int);
            lemma_mul_fits(a.1 as int, self.1.0 as int);
            lemma_mul_fits(a.2 as int, self.2.0 as int);
            lemma_mul_fits(a.0 as int, self.0.1 as int);
            lemma_mul_fits(a.1 as int, self.1.1 as int);
            lemma_mul_fits(a.2 as int, self.2.1 as int);
            lemma_mul_fits(a.0 as int, self.0.2 as int);
            lemma_mul_fits(a.1 as int, self.1.2 as int);
            lemma_mul_fits(a.2 as int, self.2.2 as int);
        }
        let x = (a.0 as i128) * (self.0.0 as i128) + (a.1 as i128) * (self.1.0 as i128) + (
        a.2 as i128) * (self.2.0 as i128);
        let y = (a.0 as i128) * (self.0.1 as i128) + (a.1 as i128) * (self.1.1 as i128) + (
        a.2 as i128) * (self.2.1 as i128);
        let z = (a.0 as i128) * (self.0.2 as i128) + (a.1 as i128) * (self.1.2 as i128) + (
        a.2 as i128) * (self.2.2 as i128);
        Vec3(x as i64, y as i64, z as i64)
    }
}

/// A nonzero normal gives nonzero `v` and `u`: with helper Y, `v` has the
/// normal's X component, which is then nonzero; with helper X, `v` vanishes
/// only for a normal along X, which takes helper Y.
proof fn lemma_frame_nonzero(w: Vec3, v: Vec3, u: Vec3)
    requires
        dot_spec(w, w) > 0,
        as_triple(v) == cross_spec(w, helper_axis(w)),
        as_triple(u) == cross_spec(w, v),
    ensures
        dot_spec(v, v) > 0,
        dot_spec(u, u) > 0,
{
    let (w0, w1, w2) = (w.0 as int, w.1 as int, w.2 as int);
    let (v0, v1, v2) = (v.0 as int, v.1 as int, v.2 as int);
    let (u0, u1, u2) = (u.0 as int, u.1 as int, u.2 as int);
    assert(w0 * w0 + w1 * w1 + w2 * w2 > 0);
    if near_x(w) {
        assert(v0 == w1 * 0 - w2 * 1 && v1 == w2 * 0 - w0 * 0 && v2 == w0 * 1 - w1 * 0);
        assert(w0 != 0) by (nonlinear_arith)
            requires
                100 * (w0 * w0) > 81 * (w0 * w0 + w1 * w1 + w2 * w2),
                w0 * w0 + w1 * w1 + w2 * w2 > 0,
        ;
        assert(v0 * v0 + v1 * v1 + v2 * v2 > 0 && u0 * u0 + u1 * u1 + u2 * u2 > 0)
            by (nonlinear_arith)
            requires
                w0 != 0,
                v0 == -w2,
                v1 == 0,
                v2 == w0,
                u0 == w1 * v2 - w2 * v1,
                u1 == w2 * v0 - w0 * v2,
                u2 == w0 * v1 - w1 * v0,
        ;
    } else {
        assert(v0 == w1 * 0 - w2 * 0 && v1 == w2 * 1 - w0 * 0 && v2 == w0 * 0 - w1 * 1);
        assert(w1 != 0 || w2 != 0) by (nonlinear_arith)
            requires
                !(100 * (w0 * w0) > 81 * (w0 * w0 + w1 * w1 + w2 * w2)),
                w0 * w0 + w1 * w1 + w2 * w2 > 0,
        ;
        assert(v0 * v0 + v1 * v1 + v2 * v2 > 0 && u0 * u0 + u1 * u1 + u2 * u2 > 0)
            by (nonlinear_arith)
            requires
                w1 != 0 || w2 != 0,
                v0 == 0,
                v1 == w2,
                v2 == -w1,
                u0 == w1 * v2 - w2 * v1,
                u1 == w2 * v0 - w0 * v2,
                u2 == w0 * v1 - w1 * v0,
        ;
    }
}

pub open spec fn dot3(p: (int, int, int), q: Vec3) -> int {
    p.0 * q.0 + p.1 * q.1 + p.2 * q.2
}

proof fn lemma_combine(a0: int, a1: int, a2: int, x: int, y: int, z: int, s: int)
    ensures
        (a0 * x + a1 * y + a2 * z) * s == a0 * (x * s) + a1 * (y * s) + a2 * (z * s),
{
    let (p, q, r) = (a0 * x, a1 * y, a2 * z);
    assert((p + q + r) * s == p * s + q * s + r * s) by (nonlinear_arith);
    assert((a0 * x) * s == a0 * (x * s)) by (nonlinear_arith);
    assert((a1 * y) * s == a1 * (y * s)) by (nonlinear_arith);
    assert((a2 * z) * s == a2 * (z * s)) by (nonlinear_arith);
}

proof fn lemma_factor(a: int, p: int, q: int, r: int)
    ensures
        a * p + a * q + a * r == a * (p + q + r),
{
    assert(a * p + a * q + a * r == a * (p + q + r)) by (nonlinear_arith);
}

/// Projecting `local(a)` back onto an axis of an orthogonal frame recovers
/// the coordinate of `a` on that axis, scaled by the axis's squared length
/// (the axes are not unit vectors): `local(a)·u = a.0 |u|²`, and likewise
/// for `v` and `w`.
pub proof fn lemma_local_projects(b: Onb, a: Vec3)
    requires
        dot_spec(b.0, b.1) == 0,
        dot_spec(b.0, b.2) == 0,
        dot_spec(b.1, b.2) == 0,
    ensures
        dot3(local_spec(b, a), b.0) == a.0 * dot_spec(b.0, b.0),
        dot3(local_spec(b, a), b.1) == a.1 * dot_spec(b.1, b.1),
        dot3(local_spec(b, a), b.2) == a.2 * dot_spec(b.2, b.2),
{
    let (a0, a1, a2) = (a.0 as int, a.1 as int, a.2 as int);
    let (u, v, w) = (b.0, b.1, b.2);
    let uv = u.0 * v.0 + u.1 * v.1 + u.2 * v.2;
    let uw = u.0 * w.0 + u.1 * w.1 + u.2 * w.2;
    let vw = v.0 * w.0 + v.1 * w.1 + v.2 * w.2;
    assert(v.0 * u.0 + v.1 * u.1 + v.2 * u.2 == uv && w.0 * u.0 + w.1 * u.1 + w.2 * u.2 == uw
        && w.0 * v.0 + w.1 * v.1 + w.2 * v.2 == vw) by (nonlinear_arith)
        requires
            uv == u.0 * v.0 + u.1 * v.1 + u.2 * v.2,
            uw == u.0 * w.0 + u.1 * w.1 + u.2 * w.2,
            vw == v.0 * w.0 + v.1 * w.1 + v.2 * w.2,
    ;
    let q = b;
    // Each projection, component by component.
    let axes = seq![u, v, w];
    assert forall|i: int| 0 <= i < 3 implies {
        let c = #[trigger] axes[i];
        dot3(local_spec(q, a), c) == a0 * (u.0 * c.0 + u.1 * c.1 + u.2 * c.2) + a1 * (v.0 * c.0
            + v.1 * c.1 + v.2 * c.2) + a2 * (w.0 * c.0 + w.1 * c.1 + w.2 * c.2)
    } by {
        let c = axes[i];
        lemma_combine(a0, a1, a2, u.0 as int, v.0 as int, w.0 as int, c.0 as int);
        lemma_combine(a0, a1, a2, u.1 as int, v.1 as int, w.1 as int, c.1 as int);
        lemma_combine(a0, a1, a2, u.2 as int, v.2 as int, w.2 as int, c.2 as int);
        lemma_factor(a0, u.0 * c.0, u.1 * c.1, u.2 * c.2);
        lemma_factor(a1, v.0 * c.0, v.1 * c.1, v.2 * c.2);
        lemma_factor(a2, w.0 * c.0, w.1 * c.1, w.2 * c.2);
    }
    assert(axes[0] == u && axes[1] == v && axes[2] == w);
}

/// A coordinate within `COORD_LIMIT` times an `i64` stays within `2^94`.
proof fn lemma_mul_fits(c: int, x: int)
    requires
        -0x4000_0000 <= c <= 0x4000_0000,
        i64::MIN <= x <= i64::MAX,
    ensures
        -0x4000_0000_0000_0000_0000_0000 <= c * x <= 0x4000_0000_0000_0000_0000_0000,
{
    assert(-0x4000_0000 * 0x8000_0000_0000_0000 <= c * x <= 0x4000_0000 * 0x8000_0000_0000_0000)
        by (nonlinear_arith)
        requires
            -0x4000_0000 <= c <= 0x4000_0000,
            -0x8000_0000_0000_0000 <= x <= 0x8000_0000_0000_0000,
    ;
}

} // verus!
