//! Spheres on the integer lattice: the exact quadratic of the ray–sphere test.
use vstd::prelude::*;
use crate::ray::Ray;
use crate::vec3::{COORD_LIMIT, Vec3, coord_ok};

verus! {

/// A sphere with integer centre and radius.
#[derive(Clone, Copy, Debug, PartialEq, Eq, Structural)]
pub struct LatticeSphere {
    pub center: Vec3,
    pub radius: i64,
}

/// The coefficients `(a, b, c)` of `a t² + 2 b t + c = 0`, whose roots are
/// the parameters where the ray `o + t d` is at distance `radius` from the
/// centre: `a = d·d`, `b = (o − centre)·d`, `c = |o − centre|² − radius²`.
pub open spec fn quadratic(s: LatticeSphere, r: Ray) -> (int, int, int) {
    let (o, d, ce) = (r.origin, r.direction, s.center);
    let (x, y, z) = (o.0 - ce.0, o.1 - ce.1, o.2 - ce.2);
    (
        d.0 * d.0 + d.1 * d.1 + d.2 * d.2,
        x * d.0 + y * d.1 + z * d.2,
        x * x + y * y + z * z - s.radius * s.radius,
    )
}

/// The (quarter) discriminant `b² − a c` of the quadratic.
pub open spec fn discriminant_spec(s: LatticeSphere, r: Ray) -> int {
    let (a, b, c) = quadratic(s, r);
    b * b - a * c
}

/// `|(o − centre) × d|²`: the squared distance from the centre to the ray's
/// line, times `|d|²`.
pub open spec fn offset_cross_sq(s: LatticeSphere, r: Ray) -> int {
    let (o, d, ce) = (r.origin, r.direction, s.center);
    let (x, y, z) = (o.0 - ce.0, o.1 - ce.1, o.2 - ce.2);
    let (u, v, w) = (y * d.2 - z * d.1, z * d.0 - x * d.2, x * d.1 - y * d.0);
    u * u + v * v + w * w
}

impl LatticeSphere {
    pub open spec fn bounded(&self) -> bool {
        self.center.bounded() && 0 <= self.radius <= COORD_LIMIT
    }

    /// The discriminant of the ray–sphere quadratic.
    pub fn discriminant(&self, ray: &Ray) -> (r: i128)
        requires
            self.bounded(),
            ray.bounded(),
        ensures
            r == discriminant_spec(*self, *ray),
    {
        let (o, d, ce) = (ray.origin, ray.direction, self.center);
        let x = o.0 as i128 - ce.0 as i128;
        let y = o.1 as i128 - ce.1 as i128;
        let z = o.2 as i128 - ce.2 as i128;
        let (d0, d1, d2) = (d.0 as i128, d.1 as i128, d.2 as i128);
        let rad = self.radius as i128;
        proof {
            lemma_quadratic_bounds(x as int, y as int, z as int, d0 as int, d1 as int, d2 as int, rad as int);
        }
        let a = d0 * d0 + d1 * d1 + d2 * d2;
        let b = x * d0 + y * d1 + z * d2;
        let c = x * x + y * y + z * z - rad * rad;
        b * b - a * c
    }

    /// Whether the ray's line passes through the sphere's interior: the test
    /// `discriminant > 0` that precedes solving for the roots.
    pub fn meets_line(&self, ray: &Ray) -> (r: bool)
        requires
            self.bounded(),
            ray.bounded(),
        ensures
            r == (discriminant_spec(*self, *ray) > 0),
    {
        self.discriminant(ray) > 0
    }
}

proof fn lemma_quadratic_bounds(x: int, y: int, z: int, d0: int, d1: int, d2: int, rad: int)
    requires
        -2 * COORD_LIMIT <= x <= 2 * COORD_LIMIT,
        -2 * COORD_LIMIT <= y <= 2 * COORD_LIMIT,
        -2 * COORD_LIMIT <= z <= 2 * COORD_LIMIT,
        coord_ok(d0),
        coord_ok(d1),
        coord_ok(d2),
        0 <= rad <= COORD_LIMIT,
    ensures
        ({
            let a = d0 * d0 + d1 * d1 + d2 * d2;
            let b = x * d0 + y * d1 + z * d2;
            let c = x * x + y * y + z * z - rad * rad;
            &&& 0 <= d0 * d0 <= 0x1000_0000_0000_0000
            &&& 0 <= d1 * d1 <= 0x1000_0000_0000_0000
            &&& 0 <= d2 * d2 <= 0x1000_0000_0000_0000
            &&& -0x2000_0000_0000_0000 <= x * d0 <= 0x2000_0000_0000_0000
            &&& -0x2000_0000_0000_0000 <= y * d1 <= 0x2000_0000_0000_0000
            &&& -0x2000_0000_0000_0000 <= z * d2 <= 0x2000_0000_0000_0000
            &&& 0 <= x * x <= 0x4000_0000_0000_0000
            &&& 0 <= y * y <= 0x4000_0000_0000_0000
            &&& 0 <= z * z <= 0x4000_0000_0000_0000
            &&& 0 <= rad * rad <= 0x1000_0000_0000_0000
            &&& 0 <= a <= 0x3000_0000_0000_0000
            &&& -0x6000_0000_0000_0000 <= b <= 0x6000_0000_0000_0000
            &&& -0x1000_0000_0000_0000 <= c <= 0xC000_0000_0000_0000
            &&& 0 <= b * b <= 0x2400_0000_0000_0000_0000_0000_0000_0000
            &&& -0x0300_0000_0000_0000_0000_0000_0000_0000 <= a * c
                <= 0x2400_0000_0000_0000_0000_0000_0000_0000
        }),
{
    let l: int = 0x4000_0000;
    assert(0 <= d0 * d0 <= l * l && 0 <= d1 * d1 <= l * l && 0 <= d2 * d2 <= l * l)
        by (nonlinear_arith)
        requires
            -l <= d0 <= l,
            -l <= d1 <= l,
            -l <= d2 <= l,
    ;
    assert(-2 * l * l <= x * d0 <= 2 * l * l && -2 * l * l <= y * d1 <= 2 * l * l && -2 * l * l
        <= z * d2 <= 2 * l * l) by (nonlinear_arith)
        requires
            -2 * l <= x <= 2 * l,
            -2 * l <= y <= 2 * l,
            -2 * l <= z <= 2 * l,
            -l <= d0 <= l,
            -l <= d1 <= l,
            -l <= d2 <= l,
            l > 0,
    ;
    assert(0 <= x * x <= 4 * l * l && 0 <= y * y <= 4 * l * l && 0 <= z * z <= 4 * l * l
        && 0 <= rad * rad <= l * l) by (nonlinear_arith)
        requires
            -2 * l <= x <= 2 * l,
            -2 * l <= y <= 2 * l,
            -2 * l <= z <= 2 * l,
            0 <= rad <= l,
    ;
    let a = d0 * d0 + d1 * d1 + d2 * d2;
    let b = x * d0 + y * d1 + z * d2;
    let c = x * x + y * y + z * z - rad * rad;
    assert(0 <= b * b <= 0x2400_0000_0000_0000_0000_0000_0000_0000) by (nonlinear_arith)
        requires
            -0x6000_0000_0000_0000 <= b <= 0x6000_0000_0000_0000,
    ;
    assert(-0x0300_0000_0000_0000_0000_0000_0000_0000 <= a * c
        <= 0x2400_0000_0000_0000_0000_0000_0000_0000) by (nonlinear_arith)
        requires
            0 <= a <= 0x3000_0000_0000_0000,
            -0x1000_0000_0000_0000 <= c <= 0xC000_0000_0000_0000,
    ;
}

/// The discriminant is `radius² |d|² − |(o − centre) × d|²`: the line meets
/// the sphere's interior exactly when its distance from the centre is below
/// the radius. In particular a ray whose closest approach to the centre
/// exceeds the radius never hits.
pub proof fn lemma_discriminant_is_distance(s: LatticeSphere, r: Ray)
    ensures
        discriminant_spec(s, r) == s.radius * s.radius * quadratic(s, r).0 - offset_cross_sq(s, r),
        offset_cross_sq(s, r) > s.radius * s.radius * quadratic(s, r).0 ==> discriminant_spec(s, r) < 0,
{
    let (o, d, ce) = (r.origin, r.direction, s.center);
    let (x, y, z) = ((o.0 - ce.0) as int, (o.1 - ce.1) as int, (o.2 - ce.2) as int);
    let (p, q, w) = (d.0 as int, d.1 as int, d.2 as int);
    let rr = s.radius as int;
    let (xp, xq, xw, yp, yq, yw, zp, zq, zw) = (
        x * p,
        x * q,
        x * w,
        y * p,
        y * q,
        y * w,
        z * p,
        z * q,
        z * w,
    );
    let b = xp + yq + zw;
    let a = p * p + q * q + w * w;
    let c = x * x + y * y + z * z;
    lemma_square3(xp, yq, zw);
    lemma_square_diff(yw, zq);
    lemma_square_diff(zp, xw);
    lemma_square_diff(xq, yp);
    lemma_product3(p * p, q * q, w * w, x * x, y * y, z * z);
    lemma_square_product(x, p);
    lemma_square_product(x, q);
    lemma_square_product(x, w);
    lemma_square_product(y, p);
    lemma_square_product(y, q);
    lemma_square_product(y, w);
    lemma_square_product(z, p);
    lemma_square_product(z, q);
    lemma_square_product(z, w);
    lemma_swap_pairs(x, p, y, q);
    lemma_swap_pairs(x, p, z, w);
    lemma_swap_pairs(y, q, z, w);
    let ac = a * c;
    assert(ac == p * p * (x * x) + p * p * (y * y) + p * p * (z * z) + q * q * (x * x) + q * q * (y
        * y) + q * q * (z * z) + w * w * (x * x) + w * w * (y * y) + w * w * (z * z));
    lemma_distribute(a, c, rr * rr);
    assert(b * b - a * (c - rr * rr) == rr * rr * a - ((yw - zq) * (yw - zq) + (zp - xw) * (zp
        - xw) + (xq - yp) * (xq - yp)));
}

proof fn lemma_square3(a: int, b: int, c: int)
    ensures
        (a + b + c) * (a + b + c) == a * a + b * b + c * c + 2 * (a * b) + 2 * (a * c) + 2 * (b * c),
{
    assert((a + b + c) * (a + b + c) == a * a + b * b + c * c + 2 * (a * b) + 2 * (a * c) + 2 * (b
        * c)) by (nonlinear_arith);
}

proof fn lemma_square_diff(a: int, b: int)
    ensures
        (a - b) * (a - b) == a * a - 2 * (a * b) + b * b,
{
    assert((a - b) * (a - b) == a * a - 2 * (a * b) + b * b) by (nonlinear_arith);
}

proof fn lemma_product3(a1: int, a2: int, a3: int, b1: int, b2: int, b3: int)
    ensures
        (a1 + a2 + a3) * (b1 + b2 + b3) == a1 * b1 + a1 * b2 + a1 * b3 + a2 * b1 + a2 * b2 + a2 * b3
            + a3 * b1 + a3 * b2 + a3 * b3,
{
    assert((a1 + a2 + a3) * (b1 + b2 + b3) == a1 * b1 + a1 * b2 + a1 * b3 + a2 * b1 + a2 * b2 + a2
        * b3 + a3 * b1 + a3 * b2 + a3 * b3) by (nonlinear_arith);
}

proof fn lemma_square_product(u: int, v: int)
    ensures
        (u * u) * (v * v) == (u * v) * (u * v),
        (v * v) * (u * u) == (u * v) * (u * v),
{
    assert((u * u) * (v * v) == (u * v) * (u * v)) by (nonlinear_arith);
    assert((v * v) * (u * u) == (u * v) * (u * v)) by (nonlinear_arith);
}

proof fn lemma_swap_pairs(a: int, b: int, c: int, d: int)
    ensures
        (a * b) * (c * d) == (a * d) * (c * b),
        (a * b) * (c * d) == (c * b) * (a * d),
{
    assert((a * b) * (c * d) == (a * d) * (c * b)) by (nonlinear_arith);
    assert((a * b) * (c * d) == (c * b) * (a * d)) by (nonlinear_arith);
}

proof fn lemma_distribute(a: int, c: int, s: int)
    ensures
        a * (c - s) == a * c - a * s,
        s * a == a * s,
{
    assert(a * (c - s) == a * c - a * s) by (nonlinear_arith);
    assert(s * a == a * s) by (nonlinear_arith);
}

/// A ray along a coordinate axis, from a point at distance `dist` from the
/// centre and aimed at it, has discriminant `radius²`; its nearer root,
/// `(−b − radius) / a`, is `dist − radius`.
pub proof fn lemma_aimed_ray_root(s: LatticeSphere, r: Ray, dist: int)
    requires
        dist > 0,
        r.direction == Vec3(1, 0, 0),
        r.origin.0 == s.center.0 - dist,
        r.origin.1 == s.center.1,
        r.origin.2 == s.center.2,
    ensures
        quadratic(s, r).0 == 1,
        discriminant_spec(s, r) == s.radius * s.radius,
        -quadratic(s, r).1 - s.radius == dist - s.radius,
{
    let rr = s.radius as int;
    assert(dist * dist - (dist * dist - rr * rr) == rr * rr) by (nonlinear_arith);
    assert((-dist) * (-dist) == dist * dist) by (nonlinear_arith);
}

} // verus!
