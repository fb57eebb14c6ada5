use raytrace::aabb::Aabb;
use raytrace::axis::{StaticAxis, StaticX, StaticY, StaticZ};
use raytrace::onb::{AxisBasis, Onb};
use raytrace::ray::{Param, Ray};
use raytrace::vec3::{Axis, Vec3};

fn bx(a: (i64, i64, i64), b: (i64, i64, i64)) -> Aabb {
    Aabb { min: Vec3(a.0, a.1, a.2), max: Vec3(b.0, b.1, b.2) }
}

fn ray(o: (i64, i64, i64), d: (i64, i64, i64)) -> Ray {
    Ray::new(Vec3(o.0, o.1, o.2), Vec3(d.0, d.1, d.2), 0)
}

fn near() -> Param {
    Param { num: 1, den: 1000 }
}

fn far() -> Param {
    Param::whole(1_000_000_000)
}

#[test]
fn merge_takes_min_of_mins_and_max_of_maxes() {
    let a = bx((0, 5, -3), (2, 6, 1));
    let b = bx((1, -2, -4), (7, 3, 0));
    assert_eq!(a.merge(b), bx((0, -2, -4), (7, 6, 1)));
}

#[test]
fn merge_is_commutative_associative_idempotent() {
    let a = bx((0, 5, -3), (2, 6, 1));
    let b = bx((1, -2, -4), (7, 3, 0));
    let c = bx((-9, 4, 2), (-1, 10, 3));
    assert_eq!(a.merge(b), b.merge(a));
    assert_eq!(a.merge(b).merge(c), a.merge(b.merge(c)));
    assert_eq!(a.merge(a), a);
}

#[test]
fn corners_enumerate_min_max_combinations() {
    let b = bx((0, 1, 2), (10, 11, 12));
    let c = b.corners();
    assert_eq!(c.len(), 8);
    assert_eq!(c[0], Vec3(0, 1, 2));
    assert_eq!(c[1], Vec3(0, 1, 12));
    assert_eq!(c[2], Vec3(0, 11, 2));
    assert_eq!(c[3], Vec3(0, 11, 12));
    assert_eq!(c[4], Vec3(10, 1, 2));
    assert_eq!(c[7], Vec3(10, 11, 12));
}

#[test]
fn ray_through_center_hits() {
    let b = bx((10, 10, 10), (20, 30, 40));
    // Origin far away, aimed at the centre (15, 20, 25).
    let r = ray((-5, -10, -35), (20, 30, 60));
    assert!(b.hit(&r, near()..far()));
    // From inside the box.
    let r = ray((15, 20, 25), (1, -2, 3));
    assert!(b.hit(&r, near()..far()));
}

#[test]
fn ray_beside_box_misses() {
    let b = bx((10, 10, 10), (20, 20, 20));
    assert!(!b.hit(&ray((0, 0, 0), (1, 0, 0)), near()..far()));
    assert!(!b.hit(&ray((0, 15, 15), (-1, 0, 0)), near()..far()));
    assert!(!b.hit(&ray((0, 21, 15), (1, 0, 0)), near()..far()));
}

#[test]
fn hit_respects_parameter_range() {
    let b = bx((10, -1, -1), (20, 1, 1));
    let r = ray((0, 0, 0), (1, 0, 0));
    assert!(b.hit(&r, Param::whole(0)..Param::whole(100)));
    // The box lies between t = 10 and t = 20.
    assert!(!b.hit(&r, Param::whole(0)..Param::whole(10)));
    assert!(!b.hit(&r, Param::whole(20)..Param::whole(30)));
    assert!(b.hit(&r, Param { num: 39, den: 2 }..Param::whole(30)));
}

#[test]
fn axis_parallel_ray_uses_origin_inside_slab() {
    let b = bx((0, 0, 0), (10, 10, 10));
    assert!(b.hit(&ray((5, 5, -5), (0, 0, 1)), near()..far()));
    assert!(!b.hit(&ray((11, 5, -5), (0, 0, 1)), near()..far()));
    // On a face: the slab still admits the ray.
    assert!(b.hit(&ray((10, 5, -5), (0, 0, 1)), near()..far()));
}

#[test]
fn flat_box_is_not_hit() {
    let b = bx((0, 0, 5), (10, 10, 5));
    assert!(!b.hit(&ray((5, 5, 0), (0, 0, 1)), near()..far()));
}

#[test]
fn translating_box_and_ray_keeps_outcome() {
    let v = (7, -3, 100);
    let cases = [
        (bx((10, 10, 10), (20, 30, 40)), ray((-5, -10, -35), (20, 30, 60))),
        (bx((10, 10, 10), (20, 20, 20)), ray((0, 0, 0), (1, 0, 0))),
        (bx((0, 0, 0), (10, 10, 10)), ray((10, 5, -5), (0, 0, 1))),
    ];
    for (b, r) in cases.iter() {
        let bt = bx(
            (b.min.0 + v.0, b.min.1 + v.1, b.min.2 + v.2),
            (b.max.0 + v.0, b.max.1 + v.1, b.max.2 + v.2),
        );
        let rt = Ray::new(
            Vec3(r.origin.0 + v.0, r.origin.1 + v.1, r.origin.2 + v.2),
            r.direction,
            r.time,
        );
        assert_eq!(b.hit(r, near()..far()), bt.hit(&rt, near()..far()));
    }
}

#[test]
fn vector_operations() {
    let a = Vec3(1, 2, 3);
    let b = Vec3(-4, 5, 6);
    assert_eq!(a.add(&b), Vec3(-3, 7, 9));
    assert_eq!(a.sub(&b), Vec3(5, -3, -3));
    assert_eq!(a.neg(), Vec3(-1, -2, -3));
    assert_eq!(a.dot(&b), 24);
    assert_eq!(a.cross(&b), Vec3(-3, -18, 13));
    assert_eq!(b.get(Axis::Y), 5);
    assert_eq!(Vec3::unit(Axis::Z), Vec3(0, 0, 1));
}

#[test]
fn onb_axes_are_orthogonal() {
    for n in [Vec3(0, 0, 5), Vec3(3, 1, 0), Vec3(-2, 7, 4), Vec3(9, 0, 0), Vec3(0, -1, 0)] {
        let b = Onb::build_from_w(n);
        assert_eq!(b.index(AxisBasis::W), n);
        assert_eq!(b.0.dot(&b.1), 0);
        assert_eq!(b.0.dot(&b.2), 0);
        assert_eq!(b.1.dot(&b.2), 0);
    }
}

#[test]
fn onb_helper_axis_switches_near_x() {
    // Far from X: v = w × X.
    let b = Onb::build_from_w(Vec3(0, 0, 1));
    assert_eq!(b.1, Vec3(0, 1, 0));
    assert_eq!(b.0, Vec3(-1, 0, 0));
    // Almost along +X: v = w × Y.
    let b = Onb::build_from_w(Vec3(10, 1, 0));
    assert_eq!(b.1, Vec3(0, 0, 10));
}

#[test]
fn onb_local_combines_axes() {
    let b = Onb::build_from_w(Vec3(0, 0, 1));
    assert_eq!(b.local(Vec3(0, 0, 1)), Vec3(0, 0, 1));
    assert_eq!(b.local(Vec3(2, 3, 4)), Vec3(-2, 3, 4));
}

#[test]
fn static_axes_name_the_other_two() {
    assert_eq!(StaticX::axis(), Axis::X);
    assert_eq!((StaticX::other1(), StaticX::other2()), (Axis::Y, Axis::Z));
    assert_eq!(StaticY::axis(), Axis::Y);
    assert_eq!((StaticY::other1(), StaticY::other2()), (Axis::X, Axis::Z));
    assert_eq!(StaticZ::axis(), Axis::Z);
    assert_eq!((StaticZ::other1(), StaticZ::other2()), (Axis::X, Axis::Y));
}

#[test]
fn param_ordering() {
    assert!(Param { num: 1, den: 3 }.lt(&Param { num: 1, den: 2 }));
    assert!(!Param { num: 2, den: 4 }.lt(&Param { num: 1, den: 2 }));
    assert!(Param { num: -5, den: 2 }.lt(&Param::whole(-2)));
}

#[test]
fn onb_normal_along_negative_x_is_not_degenerate() {
    // Nearly parallel to X in the negative direction: the helper is Y.
    let b = Onb::build_from_w(Vec3(-1, 0, 0));
    assert_eq!(b.1, Vec3(0, 0, -1));
    assert_eq!(b.0, Vec3(0, -1, 0));
    let b = Onb::build_from_w(Vec3(-10, 1, 2));
    assert_ne!(b.0, Vec3(0, 0, 0));
    assert_ne!(b.1, Vec3(0, 0, 0));
    assert_eq!(b.0.dot(&b.1), 0);
}

#[test]
fn onb_projection_recovers_local_coordinates() {
    for n in [Vec3(-1, 0, 0), Vec3(0, 0, 5), Vec3(3, 1, 0), Vec3(-2, 7, 4)] {
        let b = Onb::build_from_w(n);
        let a = Vec3(2, -3, 5);
        let r = b.local(a);
        assert_eq!(r.dot(&b.0), a.0 * b.0.dot(&b.0));
        assert_eq!(r.dot(&b.1), a.1 * b.1.dot(&b.1));
        assert_eq!(r.dot(&b.2), a.2 * b.2.dot(&b.2));
    }
}
