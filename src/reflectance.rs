//! Schlick's approximation of the reflectance of a dielectric surface, in
//! exact fractions.
use vstd::prelude::*;
use crate::ray::frac_le;

verus! {

/// Largest denominator accepted for the cosine of the incidence angle: a
/// representation limit, so that the fifth power of the denominator times
/// the squared index sum fits the 128-bit result.
pub const COS_DEN_LIMIT: u64 = 0x1_0000;

/// Largest numerator or denominator accepted for the refractive index; a
/// representation limit, like `COS_DEN_LIMIT`.
pub const INDEX_LIMIT: u64 = 0x40_0000;

pub open spec fn pow5(x: int) -> int {
    x * x * x * x * x
}

/// Schlick's reflectance `r0 + (1 − r0)(1 − cosθ)⁵`, with
/// `r0 = ((1 − n) / (1 + n))²`, for `cosθ = c / d` and `n = a / b`, as the
/// fraction `((b − a)² d⁵ + 4ab (d − c)⁵) / ((a + b)² d⁵)`.
pub open spec fn schlick_spec(c: int, d: int, a: int, b: int) -> (int, int) {
    (
        (b - a) * (b - a) * pow5(d) + 4 * a * b * pow5(d - c),
        (a + b) * (a + b) * pow5(d),
    )
}

/// `r0 = ((b − a) / (b + a))²`, the reflectance at normal incidence.
pub open spec fn r0_spec(a: int, b: int) -> (int, int) {
    ((b - a) * (b - a), (a + b) * (a + b))
}

/// The reflectance for `cosθ = cos_num / cos_den` and refractive index
/// `idx_num / idx_den`, as a fraction `(numerator, denominator)`.
pub fn schlick(cos_num: u64, cos_den: u64, idx_num: u64, idx_den: u64) -> (r: (u128, u128))
    requires
        cos_num <= cos_den,
        0 < cos_den <= COS_DEN_LIMIT,
        0 < idx_num <= INDEX_LIMIT,
        0 < idx_den <= INDEX_LIMIT,
    ensures
        (r.0 as int, r.1 as int) == schlick_spec(
            cos_num as int,
            cos_den as int,
            idx_num as int,
            idx_den as int,
        ),
        r.1 > 0,
{
    let (c, d, a, b) = (cos_num as u128, cos_den as u128, idx_num as u128, idx_den as u128);
    let e = d - c;
    proof {
        lemma_pow5_bound(d as int);
        lemma_pow5_bound(e as int);
        assert(0 <= (a + b) * (a + b) <= 0x4000_0000_0000) by (nonlinear_arith)
            requires
                0 < a <= 0x40_0000,
                0 < b <= 0x40_0000,
        ;
        assert(0 <= 4 * a * b <= 0x4000_0000_0000) by (nonlinear_arith)
            requires
                0 < a <= 0x40_0000,
                0 < b <= 0x40_0000,
        ;
        assert(0 < d * d * d * d * d) by (nonlinear_arith)
            requires
                d > 0,
        ;
        assert((a + b) * (a + b) > 0) by (nonlinear_arith)
            requires
                a > 0,
                b > 0,
        ;
        lemma_mul_bound((a + b) * (a + b), d * d * d * d * d);
        lemma_mul_bound(4 * a * b, e * e * e * e * e);
    }
    let d5 = d * d * d * d * d;
    let e5 = e * e * e * e * e;
    let diff = if a >= b {
        a - b
    } else {
        b - a
    };
    proof {
        assert(diff * diff == (b - a) * (b - a)) by (nonlinear_arith)
            requires
                diff == a - b || diff == b - a,
        ;
        assert(diff * diff <= (a + b) * (a + b)) by (nonlinear_arith)
            requires
                diff == a - b || diff == b - a,
                a > 0,
                b > 0,
        ;
        lemma_mul_bound(diff * diff, d * d * d * d * d);
        assert(diff * diff * d5 <= (a + b) * (a + b) * d5) by (nonlinear_arith)
            requires
                diff * diff <= (a + b) * (a + b),
                d5 >= 0,
        ;
    }
    let num = diff * diff * d5 + 4 * a * b * e5;
    let den = (a + b) * (a + b) * d5;
    assert(den > 0) by (nonlinear_arith)
        requires
            den == (a + b) * (a + b) * d5,
            (a + b) * (a + b) > 0,
            d5 > 0,
    ;
    (num, den)
}

proof fn lemma_pow5_bound(x: int)
    requires
        0 <= x <= 0x1_0000,
    ensures
        0 <= x * x <= 0x1_0000_0000,
        0 <= x * x * x <= 0x1_0000_0000_0000,
        0 <= x * x * x * x <= 0x1_0000_0000_0000_0000,
        0 <= x * x * x * x * x <= 0x1_0000_0000_0000_0000_0000,
{
    assert(0 <= x * x <= 0x1_0000 * 0x1_0000) by (nonlinear_arith)
        requires
            0 <= x <= 0x1_0000,
    ;
    assert(0 <= x * x * x <= 0x1_0000_0000 * 0x1_0000) by (nonlinear_arith)
        requires
            0 <= x <= 0x1_0000,
            0 <= x * x <= 0x1_0000_0000,
    ;
    assert(0 <= x * x * x * x <= 0x1_0000_0000_0000 * 0x1_0000) by (nonlinear_arith)
        requires
            0 <= x <= 0x1_0000,
            0 <= x * x * x <= 0x1_0000_0000_0000,
    ;
    assert(0 <= x * x * x * x * x <= 0x1_0000_0000_0000_0000 * 0x1_0000) by (nonlinear_arith)
        requires
            0 <= x <= 0x1_0000,
            0 <= x * x * x * x <= 0x1_0000_0000_0000_0000,
    ;
}

proof fn lemma_distribute(a: int, b: int, c: int)
    ensures
        (a + b) * c == a * c + b * c,
{
    assert((a + b) * c == a * c + b * c) by (nonlinear_arith);
}

proof fn lemma_regroup(a: int, b: int, c: int, d: int)
    ensures
        (a * b) * (c * d) == (a * c) * (b * d),
{
    assert((a * b) * (c * d) == (a * c) * (b * d)) by (nonlinear_arith);
}

proof fn lemma_scale_le(m: int, s: int, t: int)
    requires
        m >= 0,
        s <= t,
    ensures
        m * s <= m * t,
{
    assert(m * s <= m * t) by (nonlinear_arith)
        requires
            m >= 0,
            s <= t,
    ;
}

proof fn lemma_mul_bound(x: int, y: int)
    requires
        0 <= x <= 0x4000_0000_0000,
        0 <= y <= 0x1_0000_0000_0000_0000_0000,
    ensures
        0 <= x * y <= 0x4000_0000_0000_0000_0000_0000_0000_0000,
{
    assert(0 <= x * y <= 0x4000_0000_0000 * 0x1_0000_0000_0000_0000_0000) by (nonlinear_arith)
        requires
            0 <= x <= 0x4000_0000_0000,
            0 <= y <= 0x1_0000_0000_0000_0000_0000,
    ;
}

/// At normal incidence (`cosθ = 1`) the reflectance is `r0`.
pub proof fn lemma_schlick_normal_incidence(d: int, a: int, b: int)
    requires
        d > 0,
        a > 0,
        b > 0,
    ensures
        ({
            let s = schlick_spec(d, d, a, b);
            let r = r0_spec(a, b);
            s.0 * r.1 == r.0 * s.1
        }),
{
    let (x, y, p) = ((b - a) * (b - a), (a + b) * (a + b), pow5(d));
    assert(pow5(d - d) == 0) by (nonlinear_arith);
    assert((x * p) * y == x * (y * p)) by (nonlinear_arith);
}

/// `u ≤ v` gives `u⁵ ≤ v⁵` for non-negative `u`.
proof fn lemma_pow5_monotone(u: int, v: int)
    requires
        0 <= u <= v,
    ensures
        pow5(u) <= pow5(v),
{
    assert(u * u <= v * v) by (nonlinear_arith)
        requires
            0 <= u <= v,
    ;
    assert(u * u * u <= v * v * v) by (nonlinear_arith)
        requires
            0 <= u <= v,
            u * u <= v * v,
    ;
    assert(u * u * u * u <= v * v * v * v) by (nonlinear_arith)
        requires
            0 <= u <= v,
            u * u * u <= v * v * v,
    ;
    assert(u * u * u * u * u <= v * v * v * v * v) by (nonlinear_arith)
        requires
            0 <= u <= v,
            u * u * u * u <= v * v * v * v,
    ;
}

/// The reflectance does not decrease as the angle grows towards grazing:
/// a smaller cosine `c2 / d2 ≤ c1 / d1` gives a reflectance at least as large.
pub proof fn lemma_schlick_monotone(c1: int, d1: int, c2: int, d2: int, a: int, b: int)
    requires
        0 <= c1 <= d1,
        0 <= c2 <= d2,
        d1 > 0,
        d2 > 0,
        a > 0,
        b > 0,
        frac_le((c2, d2), (c1, d1)),
    ensures
        frac_le(schlick_spec(c1, d1, a, b), schlick_spec(c2, d2, a, b)),
{
    // With u_i = d_i − c_i, the claim reduces to u1 / d1 ≤ u2 / d2.
    let (u1, u2) = (d1 - c1, d2 - c2);
    assert(u1 * d2 <= u2 * d1) by (nonlinear_arith)
        requires
            c2 * d1 <= c1 * d2,
            u1 == d1 - c1,
            u2 == d2 - c2,
    ;
    assert(0 <= u1 * d2) by (nonlinear_arith)
        requires
            u1 >= 0,
            d2 > 0,
    ;
    lemma_pow5_monotone(u1 * d2, u2 * d1);
    let (p1, p2, q1, q2) = (pow5(d1), pow5(d2), pow5(u1), pow5(u2));
    assert(pow5(u1 * d2) == q1 * p2 && pow5(u2 * d1) == q2 * p1) by (nonlinear_arith)
        requires
            p1 == pow5(d1),
            p2 == pow5(d2),
            q1 == pow5(u1),
            q2 == pow5(u2),
    ;
    let (x, y, k) = ((b - a) * (b - a), (a + b) * (a + b), 4 * a * b);
    assert(k * y >= 0) by (nonlinear_arith)
        requires
            a > 0,
            b > 0,
            k == 4 * a * b,
            y == (a + b) * (a + b),
    ;
    lemma_distribute(x * p1, k * q1, y * p2);
    lemma_distribute(x * p2, k * q2, y * p1);
    lemma_regroup(x, p1, y, p2);
    lemma_regroup(k, q1, y, p2);
    lemma_regroup(x, p2, y, p1);
    lemma_regroup(k, q2, y, p1);
    lemma_scale_le(k * y, q1 * p2, q2 * p1);
    assert(p1 * p2 == p2 * p1) by (nonlinear_arith);
}

} // verus!
