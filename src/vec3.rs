//! Three-component integer vectors and axis names.
use vstd::prelude::*;

verus! {

/// Largest magnitude of a coordinate that the geometric routines accept.
/// Differences of two coordinates and products of two differences then stay
/// far inside the machine integers used for exact comparisons.
pub const COORD_LIMIT: i64 = 0x4000_0000;

/// One of the three world axes.
#[derive(Clone, Copy, Debug, PartialEq, Eq, Structural)]
pub enum Axis {
    X,
    Y,
    Z,
}

/// A point or a direction with integer coordinates.
#[derive(Clone, Copy, Debug, PartialEq, Eq, Structural)]
pub struct Vec3(pub i64, pub i64, pub i64);

/// A coordinate whose magnitude is within `COORD_LIMIT`.
pub open spec fn coord_ok(c: int) -> bool {
    -COORD_LIMIT <= c <= COORD_LIMIT
}

pub open spec fn dot_spec(a: Vec3, b: Vec3) -> int {
    a.0 * b.0 + a.1 * b.1 + a.2 * b.2
}

/// The components of the cross product `a × b`.
pub open spec fn cross_spec(a: Vec3, b: Vec3) -> (int, int, int) {
    (a.1 * b.2 - a.2 * b.1, a.2 * b.0 - a.0 * b.2, a.0 * b.1 - a.1 * b.0)
}

/// The unit vector along `a`.
pub open spec fn unit_vec(a: Axis) -> Vec3 {
    match a {
        Axis::X => Vec3(1, 0, 0),
        Axis::Y => Vec3(0, 1, 0),
        Axis::Z => Vec3(0, 0, 1),
    }
}

impl Vec3 {
    /// Every coordinate is within `COORD_LIMIT`.
    pub open spec fn bounded(self) -> bool {
        coord_ok(self.0 as int) && coord_ok(self.1 as int) && coord_ok(self.2 as int)
    }

    pub open spec fn comp(self, a: Axis) -> i64 {
        match a {
            Axis::X => self.0,
            Axis::Y => self.1,
            Axis::Z => self.2,
        }
    }

    pub open spec fn plus(self, o: Vec3) -> Vec3 {
        Vec3((self.0 + o.0) as i64, (self.1 + o.1) as i64, (self.2 + o.2) as i64)
    }

    /// The component along axis `a`.
    pub fn get(&self, a: Axis) -> (r: i64)
        ensures
            r == self.comp(a),
    {
        match a {
            Axis::X => self.0,
            Axis::Y => self.1,
            Axis::Z => self.2,
        }
    }

    /// The vector with the unit value along `a` and zero elsewhere.
    pub fn unit(a: Axis) -> (r: Vec3)
        ensures
            r == unit_vec(a),
            forall|b: Axis| #[trigger] r.comp(b) == (if b == a { 1i64 } else { 0i64 }),
    {
        match a {
            Axis::X => Vec3(1, 0, 0),
            Axis::Y => Vec3(0, 1, 0),
            Axis::Z => Vec3(0, 0, 1),
        }
    }

    /// Componentwise sum.
    pub fn add(&self, o: &Vec3) -> (r: Vec3)
        requires
            self.bounded(),
            o.bounded(),
        ensures
            r.0 == self.0 + o.0,
            r.1 == self.1 + o.1,
            r.2 == self.2 + o.2,
            r == self.plus(*o),
    {
        Vec3(self.0 + o.0, self.1 + o.1, self.2 + o.2)
    }

    /// Componentwise difference.
    pub fn sub(&self, o: &Vec3) -> (r: Vec3)
        requires
            self.bounded(),
            o.bounded(),
        ensures
            r.0 == self.0 - o.0,
            r.1 == self.1 - o.1,
            r.2 == self.2 - o.2,
    {
        Vec3(self.0 - o.0, self.1 - o.1, self.2 - o.2)
    }

    /// The opposite vector.
    pub fn neg(&self) -> (r: Vec3)
        requires
            self.bounded(),
        ensures
            r.0 == -self.0,
            r.1 == -self.1,
            r.2 == -self.2,
            r.bounded(),
    {
        Vec3(-self.0, -self.1, -self.2)
    }

    /// Dot product.
    pub fn dot(&self, o: &Vec3) -> (r: i64)
        requires
            self.bounded(),
            o.bounded(),
        ensures
            r == dot_spec(*self, *o),
    {
        proof {
            lemma_bounded_product(self.0 as int, o.0 as int);
            lemma_bounded_product(self.1 as int, o.1 as int);
            lemma_bounded_product(self.2 as int, o.2 as int);
        }
        self.0 * o.0 + self.1 * o.1 + self.2 * o.2
    }

    /// Cross product.
    pub fn cross(&self, o: &Vec3) -> (r: Vec3)
        requires
            self.bounded(),
            o.bounded(),
        ensures
            (r.0 as int, r.1 as int, r.2 as int) == cross_spec(*self, *o),
    {
        proof {
            lemma_bounded_product(self.1 as int, o.2 as int);
            lemma_bounded_product(self.2 as int, o.1 as int);
            lemma_bounded_product(self.2 as int, o.0 as int);
            lemma_bounded_product(self.0 as int, o.2 as int);
            lemma_bounded_product(self.0 as int, o.1 as int);
            lemma_bounded_product(self.1 as int, o.0 as int);
        }
        Vec3(self.1 * o.2 - self.2 * o.1, self.2 * o.0 - self.0 * o.2, self.0 * o.1 - self.1 * o.0)
    }
}

/// The product of two coordinates within `COORD_LIMIT` is within its square.
pub proof fn lemma_bounded_product(a: int, b: int)
    requires
        coord_ok(a),
        coord_ok(b),
    ensures
        -COORD_LIMIT * COORD_LIMIT <= a * b <= COORD_LIMIT * COORD_LIMIT,
{
    assert(-0x4000_0000 * 0x4000_0000 <= a * b <= 0x4000_0000 * 0x4000_0000) by (nonlinear_arith)
        requires
            -0x4000_0000 <= a <= 0x4000_0000,
            -0x4000_0000 <= b <= 0x4000_0000,
    ;
}

} // verus!
