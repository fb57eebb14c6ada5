//! Rays and exact ray parameters.
use vstd::prelude::*;
use crate::vec3::Vec3;

verus! {

/// A ray, beginning at `origin` and extending along `direction`, cast at
/// `time` (for motion blur).
#[derive(Clone, Copy, Debug, PartialEq, Eq, Structural)]
pub struct Ray {
    pub origin: Vec3,
    pub direction: Vec3,
    pub time: i64,
}

/// A position along a ray, the fraction `num / den`.
#[derive(Clone, Copy, Debug, PartialEq, Eq, Structural)]
pub struct Param {
    pub num: i64,
    pub den: i64,
}

/// Whether the fraction `an / ad` lies strictly below `bn / bd`, for
/// positive denominators.
pub open spec fn frac_lt(a: (int, int), b: (int, int)) -> bool {
    a.0 * b.1 < b.0 * a.1
}

pub open spec fn frac_le(a: (int, int), b: (int, int)) -> bool {
    a.0 * b.1 <= b.0 * a.1
}

/// A fraction with a positive denominator, both parts within the range of `i64`.
pub open spec fn frac_ok(a: (int, int)) -> bool {
    i64::MIN <= a.0 <= i64::MAX && 0 < a.1 <= i64::MAX
}

impl Ray {
    pub open spec fn bounded(self) -> bool {
        self.origin.bounded() && self.direction.bounded()
    }

    pub fn new(origin: Vec3, direction: Vec3, time: i64) -> (r: Ray)
        ensures
            r.origin == origin,
            r.direction == direction,
            r.time == time,
    {
        Ray { origin, direction, time }
    }
}

impl Param {
    pub open spec fn wf(self) -> bool {
        self.den > 0
    }

    pub open spec fn frac(self) -> (int, int) {
        (self.num as int, self.den as int)
    }

    /// The whole number `n` as a ray parameter.
    pub fn whole(n: i64) -> (r: Param)
        ensures
            r.wf(),
            r.num == n,
            r.den == 1,
    {
        Param { num: n, den: 1 }
    }

    /// Whether `self` lies strictly before `o` along the ray.
    pub fn lt(&self, o: &Param) -> (r: bool)
        requires
            self.wf(),
            o.wf(),
        ensures
            r == frac_lt(self.frac(), o.frac()),
    {
        proof {
            lemma_frac_products_fit(self.frac(), o.frac());
        }
        (self.num as i128) * (o.den as i128) < (o.num as i128) * (self.den as i128)
    }
}

/// Cross products of two fractions of `i64` parts fit in an `i128`.
pub proof fn lemma_frac_products_fit(a: (int, int), b: (int, int))
    requires
        frac_ok(a),
        frac_ok(b),
    ensures
        i128::MIN < a.0 * b.1 < i128::MAX,
        i128::MIN < b.0 * a.1 < i128::MAX,
{
    assert(-0x8000_0000_0000_0000 * 0x7fff_ffff_ffff_ffff <= a.0 * b.1 <= 0x7fff_ffff_ffff_ffff
        * 0x7fff_ffff_ffff_ffff) by (nonlinear_arith)
        requires
            -0x8000_0000_0000_0000 <= a.0 <= 0x7fff_ffff_ffff_ffff,
            0 < b.1 <= 0x7fff_ffff_ffff_ffff,
    ;
    assert(-0x8000_0000_0000_0000 * 0x7fff_ffff_ffff_ffff <= b.0 * a.1 <= 0x7fff_ffff_ffff_ffff
        * 0x7fff_ffff_ffff_ffff) by (nonlinear_arith)
        requires
            -0x8000_0000_0000_0000 <= b.0 <= 0x7fff_ffff_ffff_ffff,
            0 < a.1 <= 0x7fff_ffff_ffff_ffff,
    ;
}

/// `a ≤ b < c` gives `a < c`.
pub proof fn lemma_le_lt(a: (int, int), b: (int, int), c: (int, int))
    requires
        a.1 > 0,
        b.1 > 0,
        c.1 > 0,
        frac_le(a, b),
        frac_lt(b, c),
    ensures
        frac_lt(a, c),
{
    let (an, ad, bn, bd, cn, cd) = (a.0, a.1, b.0, b.1, c.0, c.1);
    assert(an * cd < cn * ad) by (nonlinear_arith)
        requires
            ad > 0,
            bd > 0,
            cd > 0,
            an * bd <= bn * ad,
            bn * cd < cn * bd,
    {
        assert(an * bd * cd <= bn * ad * cd) by (nonlinear_arith)
            requires an * bd <= bn * ad, cd > 0;
        assert(bn * cd * ad < cn * bd * ad) by (nonlinear_arith)
            requires bn * cd < cn * bd, ad > 0;
        assert(an * cd * bd < cn * ad * bd) by (nonlinear_arith)
            requires an * bd * cd <= bn * ad * cd, bn * cd * ad < cn * bd * ad;
    }
}

/// `a < b ≤ c` gives `a < c`.
pub proof fn lemma_lt_le(a: (int, int), b: (int, int), c: (int, int))
    requires
        a.1 > 0,
        b.1 > 0,
        c.1 > 0,
        frac_lt(a, b),
        frac_le(b, c),
    ensures
        frac_lt(a, c),
{
    let (an, ad, bn, bd, cn, cd) = (a.0, a.1, b.0, b.1, c.0, c.1);
    assert(an * cd < cn * ad) by (nonlinear_arith)
        requires
            ad > 0,
            bd > 0,
            cd > 0,
            an * bd < bn * ad,
            bn * cd <= cn * bd,
    {
        assert(an * bd * cd < bn * ad * cd) by (nonlinear_arith)
            requires an * bd < bn * ad, cd > 0;
        assert(bn * cd * ad <= cn * bd * ad) by (nonlinear_arith)
            requires bn * cd <= cn * bd, ad > 0;
        assert(an * cd * bd < cn * ad * bd) by (nonlinear_arith)
            requires an * bd * cd < bn * ad * cd, bn * cd * ad <= cn * bd * ad;
    }
}

/// `a ≤ b ≤ c` gives `a ≤ c`.
pub proof fn lemma_le_le(a: (int, int), b: (int, int), c: (int, int))
    requires
        a.1 > 0,
        b.1 > 0,
        c.1 > 0,
        frac_le(a, b),
        frac_le(b, c),
    ensures
        frac_le(a, c),
{
    let (an, ad, bn, bd, cn, cd) = (a.0, a.1, b.0, b.1, c.0, c.1);
    assert(an * cd <= cn * ad) by (nonlinear_arith)
        requires
            ad > 0,
            bd > 0,
            cd > 0,
            an * bd <= bn * ad,
            bn * cd <= cn * bd,
    {
        assert(an * bd * cd <= bn * ad * cd) by (nonlinear_arith)
            requires an * bd <= bn * ad, cd > 0;
        assert(bn * cd * ad <= cn * bd * ad) by (nonlinear_arith)
            requires bn * cd <= cn * bd, ad > 0;
        assert(an * cd * bd <= cn * ad * bd) by (nonlinear_arith)
            requires an * bd * cd <= bn * ad * cd, bn * cd * ad <= cn * bd * ad;
    }
}

} // verus!
