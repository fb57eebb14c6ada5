use raytrace::aabb::Aabb;
use raytrace::ray::{Param, Ray};
use raytrace::rect::{Fraction, LatticeRect, RectHit, ScaledPoint};
use raytrace::reflectance::schlick;
use raytrace::scene::Scene;
use raytrace::shape::{rect_prism, Prism, Translate};
use raytrace::sphere::LatticeSphere;
use raytrace::vec3::{Axis, Vec3};

fn ray(o: (i64, i64, i64), d: (i64, i64, i64)) -> Ray {
    Ray::new(Vec3(o.0, o.1, o.2), Vec3(d.0, d.1, d.2), 0)
}

fn light() -> LatticeRect {
    LatticeRect { axis: Axis::Y, range0: 213..343, range1: 227..332, k: 554 }
}

fn everything() -> std::ops::Range<Param> {
    Param { num: 1, den: 1000 }..Param::whole(1_000_000_000)
}

#[test]
fn rect_hit_straight_up() {
    let h = light().hit(&ray((278, 0, 278), (0, 1, 0)), everything());
    assert_eq!(
        h,
        Some(RectHit {
            t: Param::whole(554),
            p: ScaledPoint(278, 554, 278),
            u: Fraction { num: 65, den: 343 },
            v: Fraction { num: 51, den: 332 },
            normal: Vec3(0, 1, 0),
        })
    );
}

#[test]
fn rect_hit_parameter_is_exact_fraction() {
    let h = light().hit(&ray((278, 0, 278), (0, 2, 0)), everything()).unwrap();
    assert_eq!(h.t, Param { num: 554, den: 2 });
    // Coming down from above: direction negative along the axis.
    let h = light().hit(&ray((278, 600, 278), (1, -2, 0)), everything()).unwrap();
    assert_eq!(h.t, Param { num: 46, den: 2 });
}

#[test]
fn rect_ranges_are_half_open() {
    assert!(light().hit(&ray((213, 0, 300), (0, 1, 0)), everything()).is_some());
    assert!(light().hit(&ray((343, 0, 300), (0, 1, 0)), everything()).is_none());
    assert!(light().hit(&ray((300, 0, 227), (0, 1, 0)), everything()).is_some());
    assert!(light().hit(&ray((300, 0, 332), (0, 1, 0)), everything()).is_none());
}

#[test]
fn rect_parameter_range_is_half_open() {
    let r = ray((278, 0, 278), (0, 1, 0));
    assert!(light().hit(&r, Param::whole(0)..Param::whole(554)).is_none());
    assert!(light().hit(&r, Param::whole(554)..Param::whole(555)).is_some());
    assert!(light().hit(&r, Param::whole(555)..Param::whole(600)).is_none());
}

#[test]
fn rect_parallel_ray_misses() {
    assert!(light().hit(&ray((278, 554, 278), (1, 0, 0)), everything()).is_none());
}

#[test]
fn rect_box_is_widened_by_one() {
    assert_eq!(
        light().bounding_box(),
        Aabb { min: Vec3(212, 553, 226), max: Vec3(344, 555, 333) }
    );
    let r = LatticeRect { axis: Axis::Z, range0: 0..10, range1: 5..6, k: -3 };
    assert_eq!(r.bounding_box(), Aabb { min: Vec3(-1, 4, -4), max: Vec3(11, 7, -2) });
}

fn cornell() -> Vec<LatticeRect> {
    vec![
        light(),
        LatticeRect { axis: Axis::Y, range0: 0..555, range1: 0..555, k: 0 },
        LatticeRect { axis: Axis::Z, range0: 0..555, range1: 0..555, k: 555 },
        LatticeRect { axis: Axis::Y, range0: 0..555, range1: 0..555, k: 555 },
        LatticeRect { axis: Axis::X, range0: 0..555, range1: 0..555, k: 0 },
        LatticeRect { axis: Axis::X, range0: 0..555, range1: 0..555, k: 555 },
        LatticeRect { axis: Axis::Z, range0: 130..295, range1: 0..165, k: 65 },
        LatticeRect { axis: Axis::Y, range0: 265..430, range1: 295..460, k: 330 },
    ]
}

fn same_param(a: Option<(usize, RectHit)>, b: Option<(usize, RectHit)>) -> bool {
    match (a, b) {
        (None, None) => true,
        (Some((_, x)), Some((_, y))) => {
            x.t.num as i128 * y.t.den as i128 == y.t.num as i128 * x.t.den as i128
        }
        _ => false,
    }
}

#[test]
fn bvh_nearest_hit_matches_linear_scan() {
    let scene = Scene::new(cornell(), 0..1);
    let rays = [
        ray((278, 278, -800), (0, 0, 1)),
        ray((278, 278, -800), (1, 1, 3)),
        ray((278, 1, 278), (0, 1, 0)),
        ray((278, 600, 278), (0, -1, 0)),
        ray((100, 100, 100), (-1, -2, 3)),
        ray((213, 0, 227), (0, 1, 0)),
        ray((-10, -10, -10), (-1, 0, 0)),
        ray((0, 0, 0), (1, 1, 1)),
        ray((200, 50, 10), (0, 0, 1)),
        ray((300, 400, 350), (0, -1, 0)),
    ];
    for r in rays.iter() {
        for range in [everything(), Param::whole(0)..Param::whole(300), Param::whole(10)..Param::whole(11)] {
            let a = scene.hit_top(r, range.clone());
            let b = scene.hit_top_linear(r, range);
            assert!(same_param(a, b), "{:?} {:?}", a, b);
        }
    }
}

#[test]
fn nearest_hit_in_cornell_box() {
    let scene = Scene::new(cornell(), 0..1);
    // Straight up from the floor centre: the light, at 554.
    let (i, h) = scene.hit_top(&ray((278, 1, 278), (0, 1, 0)), everything()).unwrap();
    assert_eq!((i, h.t, h.p), (0, Param::whole(553), ScaledPoint(278, 554, 278)));
    // Into the box from the camera: the front face of the short block.
    let (i, h) = scene.hit_top(&ray((200, 50, -800), (0, 0, 1)), everything()).unwrap();
    assert_eq!((i, h.t, h.p), (6, Param::whole(865), ScaledPoint(200, 50, 65)));
    // Away from everything.
    assert_eq!(scene.hit_top(&ray((-10, -10, -10), (-1, 0, 0)), everything()), None);
}

#[test]
fn empty_scene_never_hits() {
    let scene = Scene::<LatticeRect>::new(Vec::new(), 0..1);
    assert_eq!(scene.hit_top(&ray((0, 0, 0), (1, 1, 1)), everything()), None);
    assert_eq!(scene.hit_top_linear(&ray((0, 0, 0), (1, 1, 1)), everything()), None);
}

#[test]
fn sphere_ray_aimed_at_center() {
    let s = LatticeSphere { center: Vec3(10, 20, 30), radius: 4 };
    // From distance 25 along +X: discriminant radius², nearer root 25 - 4.
    let r = ray((-15, 20, 30), (1, 0, 0));
    assert_eq!(s.discriminant(&r), 16);
    assert!(s.meets_line(&r));
}

#[test]
fn sphere_ray_passing_wide_misses() {
    let s = LatticeSphere { center: Vec3(0, 0, 0), radius: 5 };
    // Closest approach 6 > 5.
    let r = ray((-100, 6, 0), (1, 0, 0));
    assert!(s.discriminant(&r) < 0);
    assert!(!s.meets_line(&r));
    // Tangent: closest approach equals the radius.
    let r = ray((-100, 5, 0), (1, 0, 0));
    assert_eq!(s.discriminant(&r), 0);
    assert!(!s.meets_line(&r));
    // Closest approach 4 < 5, slanted direction.
    let r = ray((-100, 4, 0), (3, 0, 0));
    assert_eq!(s.discriminant(&r), 9 * 25 - 9 * 16);
}

#[test]
fn schlick_at_normal_incidence_is_r0() {
    // Glass, n = 3/2: r0 = ((1 - 1.5) / (1 + 1.5))² = 1/25.
    assert_eq!(schlick(1, 1, 3, 2), (1, 25));
    assert_eq!(schlick(7, 7, 3, 2), (16807, 420175));
}

#[test]
fn schlick_values_and_grazing_limit() {
    // cosθ = 1/2: 0.04 + 0.96 / 32 = 0.07.
    assert_eq!(schlick(1, 2, 3, 2), (56, 800));
    // Grazing incidence: total reflection.
    assert_eq!(schlick(0, 5, 3, 2), (78125, 78125));
    // Index 1: no reflection at normal incidence.
    assert_eq!(schlick(1, 1, 1, 1), (0, 4));
}

#[test]
fn schlick_grows_toward_grazing() {
    let mut last: Option<(u128, u128)> = None;
    for c in (0..=16u64).rev() {
        let r = schlick(c, 16, 3, 2);
        if let Some(p) = last {
            assert!(p.0 * r.1 <= r.0 * p.1);
        }
        last = Some(r);
    }
}

#[test]
fn schlick_accepts_wide_representations() {
    // cosθ = 1 with denominator 65536 and index 1500000/1000000: still r0 = 1/25.
    let (n, d) = schlick(65536, 65536, 1_500_000, 1_000_000);
    assert_eq!(n * 25, d);
}

#[test]
fn rect_hit_point_and_texture_coordinates() {
    // A 2 x 2 square at z = 1, hit in its middle.
    let r = LatticeRect { axis: Axis::Z, range0: 0..2, range1: 0..2, k: 1 };
    let h = r.hit(&ray((1, 1, 0), (0, 0, 1)), everything()).unwrap();
    assert_eq!(h.t, Param::whole(1));
    assert_eq!(h.p, ScaledPoint(1, 1, 1));
    assert_eq!(h.u, Fraction { num: 1, den: 2 });
    assert_eq!(h.v, Fraction { num: 1, den: 2 });
    assert_eq!(h.normal, Vec3(0, 0, 1));
    // On the upper edge of the half-open range: a miss.
    assert!(r.hit(&ray((2, 1, 0), (0, 0, 1)), everything()).is_none());
}

#[test]
fn rect_texture_coordinates_divide_by_upper_end() {
    let r = LatticeRect { axis: Axis::Z, range0: 1..3, range1: 1..3, k: 0 };
    let h = r.hit(&ray((2, 2, -1), (0, 0, 1)), everything()).unwrap();
    assert_eq!(h.t, Param::whole(1));
    // (2 - 1) / 3, not (2 - 1) / 2.
    assert_eq!(h.u, Fraction { num: 1, den: 3 });
    assert_eq!(h.v, Fraction { num: 1, den: 3 });
}

#[test]
fn rect_hit_point_is_scaled_by_denominator() {
    // Direction (1, -2, 0) from (278, 600, 278): t = 46/2, point (301, 554, 278).
    let h = light().hit(&ray((278, 600, 278), (1, -2, 0)), everything()).unwrap();
    assert_eq!(h.t, Param { num: 46, den: 2 });
    assert_eq!(h.p, ScaledPoint(602, 1108, 556));
    assert_eq!(h.u, Fraction { num: 602 - 213 * 2, den: 343 * 2 });
}

fn blocks() -> Vec<Translate<Prism>> {
    let mut v = Vec::new();
    for (i, off) in [(0, 0, 100), (60, 0, 40), (-80, 30, 200), (0, 70, 0), (10, -60, 300), (200, 0, 0)]
        .iter()
        .enumerate()
    {
        let size = 30 + 10 * i as i64;
        v.push(Translate {
            offset: Vec3(off.0, off.1, off.2),
            object: rect_prism(Vec3(0, 0, 0), Vec3(size, size, size)),
        });
    }
    v
}

#[test]
fn bvh_over_decorated_shapes_matches_linear_scan() {
    let scene = Scene::new(blocks(), 0..1);
    let rays = [
        ray((25, 25, -100), (0, 0, 1)),
        ray((-200, 10, 110), (1, 0, 0)),
        ray((0, 0, 0), (1, 1, 1)),
        ray((70, 300, 50), (0, -1, 0)),
        ray((15, -45, -10), (0, 0, 1)),
        ray((-100, -100, -100), (3, 2, 5)),
        ray((500, 500, 500), (1, 0, 0)),
    ];
    for r in rays.iter() {
        for range in [everything(), Param::whole(0)..Param::whole(150)] {
            let a = scene.hit_top(r, range.clone());
            let b = scene.hit_top_linear(r, range);
            assert!(same_param(a, b), "{:?} {:?}", a, b);
        }
    }
}

#[test]
fn nearest_hit_on_translated_prism() {
    let scene = Scene::new(blocks(), 0..1);
    // The first block, 30 wide, stands at z = 100..130.
    let (i, h) = scene.hit_top(&ray((25, 25, -100), (0, 0, 1)), everything()).unwrap();
    assert_eq!(i, 0);
    assert_eq!(h.t, Param::whole(200));
    assert_eq!(h.p, ScaledPoint(25, 25, 100));
    assert_eq!(h.normal, Vec3(0, 0, -1));
}
