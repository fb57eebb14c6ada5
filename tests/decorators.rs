use raytrace::aabb::Aabb;
use raytrace::ray::{Param, Ray};
use raytrace::rect::{Fraction, LatticeRect, ScaledPoint};
use raytrace::shape::{rect_prism, And, FlipNormals, LinearMove, Shape, Translate};
use raytrace::vec3::{Axis, Vec3};

fn ray_at(o: (i64, i64, i64), d: (i64, i64, i64), time: i64) -> Ray {
    Ray::new(Vec3(o.0, o.1, o.2), Vec3(d.0, d.1, d.2), time)
}

fn up_from_floor() -> Ray {
    ray_at((278, 0, 278), (0, 1, 0), 0)
}

fn ceiling_at(k: i64) -> LatticeRect {
    LatticeRect { axis: Axis::Y, range0: 213..343, range1: 227..332, k }
}

fn all_params() -> std::ops::Range<Param> {
    Param { num: 1, den: 1000 }..Param::whole(1_000_000)
}

#[test]
fn flip_normals_reverses_normal_only() {
    let h = FlipNormals(ceiling_at(554)).hit(&up_from_floor(), all_params());
    let h = h.unwrap();
    assert_eq!((h.t, h.normal), (Param::whole(554), Vec3(0, -1, 0)));
    assert_eq!(h.p, ScaledPoint(278, 554, 278));
    assert_eq!(h.u, Fraction { num: 65, den: 343 });
}

#[test]
fn translate_moves_the_geometry() {
    let t = Translate { offset: Vec3(0, 10, 0), object: ceiling_at(554) };
    let h = t.hit(&up_from_floor(), all_params()).unwrap();
    assert_eq!(h.t, Param::whole(564));
    // The point is where the ray is, on the moved rectangle.
    assert_eq!(h.p, ScaledPoint(278, 564, 278));
    // Texture coordinates are those of the inner rectangle.
    assert_eq!(h.u, Fraction { num: 65, den: 343 });
    // With a denominator: moved by 2 * offset in numerators.
    let t = Translate { offset: Vec3(5, 10, 0), object: ceiling_at(554) };
    let h = t.hit(&ray_at((278, 0, 278), (0, 2, 0), 0), all_params()).unwrap();
    assert_eq!(h.t, Param { num: 564, den: 2 });
    assert_eq!(h.p, ScaledPoint(556, 1128, 556));
    // Moved sideways out of the ray's way.
    let t = Translate { offset: Vec3(200, 0, 0), object: ceiling_at(554) };
    assert_eq!(t.hit(&up_from_floor(), all_params()), None);
}

#[test]
fn union_returns_the_nearer_hit() {
    let near_first = And(ceiling_at(50), ceiling_at(100));
    let near_second = And(ceiling_at(100), ceiling_at(50));
    assert_eq!(near_first.hit(&up_from_floor(), all_params()).unwrap().t, Param::whole(50));
    assert_eq!(near_second.hit(&up_from_floor(), all_params()).unwrap().t, Param::whole(50));
    // Only the far one lies in the range.
    let h = near_second.hit(&up_from_floor(), Param::whole(60)..Param::whole(200));
    assert_eq!(h.unwrap().t, Param::whole(100));
    assert_eq!(near_first.hit(&up_from_floor(), Param::whole(101)..Param::whole(200)), None);
}

#[test]
fn union_tie_keeps_the_first() {
    let u = And(ceiling_at(70), FlipNormals(ceiling_at(70)));
    assert_eq!(u.hit(&up_from_floor(), all_params()).unwrap().normal, Vec3(0, 1, 0));
    let u = And(FlipNormals(ceiling_at(70)), ceiling_at(70));
    assert_eq!(u.hit(&up_from_floor(), all_params()).unwrap().normal, Vec3(0, -1, 0));
}

#[test]
fn linear_move_follows_ray_time() {
    let m = LinearMove { object: ceiling_at(554), motion: Vec3(0, 1, 0) };
    assert_eq!(m.hit(&ray_at((278, 0, 278), (0, 1, 0), 0), all_params()).unwrap().t, Param::whole(554));
    assert_eq!(m.hit(&ray_at((278, 0, 278), (0, 1, 0), 10), all_params()).unwrap().t, Param::whole(564));
}

#[test]
fn decorator_bounding_boxes() {
    let light_box = Aabb { min: Vec3(212, 553, 226), max: Vec3(344, 555, 333) };
    assert_eq!(Shape::bounding_box(&ceiling_at(554), &(0..1)), light_box);
    let t = Translate { offset: Vec3(1, 2, 3), object: ceiling_at(554) };
    assert_eq!(t.bounding_box(&(0..1)), Aabb { min: Vec3(213, 555, 229), max: Vec3(345, 557, 336) });
    let m = LinearMove { object: ceiling_at(554), motion: Vec3(0, 1, 0) };
    assert_eq!(m.bounding_box(&(0..10)), Aabb { min: Vec3(212, 553, 226), max: Vec3(344, 565, 333) });
    let u = And(ceiling_at(554), ceiling_at(0));
    assert_eq!(u.bounding_box(&(0..1)), Aabb { min: Vec3(212, -1, 226), max: Vec3(344, 555, 333) });
    assert_eq!(FlipNormals(ceiling_at(554)).bounding_box(&(0..1)), light_box);
}

#[test]
fn prism_is_hit_on_its_nearest_face() {
    let p = rect_prism(Vec3(0, 0, 0), Vec3(165, 165, 165));
    // From the front: the face at z = 0, whose normal is flipped outward.
    let h = p.hit(&ray_at((50, 50, -100), (0, 0, 1), 0), all_params()).unwrap();
    assert_eq!((h.t, h.normal), (Param::whole(100), Vec3(0, 0, -1)));
    assert_eq!(h.p, ScaledPoint(50, 50, 0));
    // From inside: the far face at z = 165.
    let h = p.hit(&ray_at((50, 50, 50), (0, 0, 1), 0), all_params()).unwrap();
    assert_eq!((h.t, h.normal), (Param::whole(115), Vec3(0, 0, 1)));
    assert_eq!(h.p, ScaledPoint(50, 50, 165));
    // From above, slanting down: the top face at y = 165.
    let h = p.hit(&ray_at((10, 300, 10), (1, -3, 1), 0), all_params()).unwrap();
    assert_eq!(h.t, Param { num: 135, den: 3 });
    // Beside it.
    assert_eq!(p.hit(&ray_at((200, 50, -100), (0, 0, 1), 0), all_params()), None);
}
