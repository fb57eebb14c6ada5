use raytrace::aabb::Aabb;
use raytrace::bvh::Bvh;
use raytrace::integrator::{next_step, Event, Next, MAX_BOUNCES};
use raytrace::perlin::{generate_perm, shuffle, PerlinTables, TABLE_SIZE};
use raytrace::ray::{Param, Ray};
use raytrace::vec3::{Axis, Vec3};
use rand::rngs::SmallRng;
use rand::SeedableRng;

/// Runs the integrator's decisions over `events`, returning the final
/// decision and the number of scene queries.
fn drive(events: &[Event]) -> (Next, usize) {
    let mut bounces: u32 = 0;
    for (i, e) in events.iter().enumerate() {
        match next_step(bounces, *e) {
            Next::Continue(b) => bounces = b,
            done => return (done, i + 1),
        }
    }
    panic!("events ran out");
}

#[test]
fn mirror_box_path_stops_at_bounce_limit() {
    let events = vec![Event::Scattered; 200];
    assert_eq!(drive(&events), (Next::ReturnAccumulated, MAX_BOUNCES as usize + 1));
    assert_eq!(MAX_BOUNCES, 50);
}

#[test]
fn light_hit_first_returns_its_emission() {
    assert_eq!(drive(&[Event::Absorbed]), (Next::ReturnAccumulated, 1));
}

#[test]
fn escaping_ray_returns_black() {
    assert_eq!(drive(&[Event::Miss]), (Next::ReturnBlack, 1));
    assert_eq!(
        drive(&[Event::Scattered, Event::Scattered, Event::Miss]),
        (Next::ReturnBlack, 3)
    );
}

#[test]
fn step_decisions() {
    assert_eq!(next_step(0, Event::Scattered), Next::Continue(1));
    assert_eq!(next_step(49, Event::Scattered), Next::Continue(50));
    assert_eq!(next_step(50, Event::Scattered), Next::ReturnAccumulated);
    assert_eq!(next_step(50, Event::Absorbed), Next::ReturnAccumulated);
    assert_eq!(next_step(3, Event::Miss), Next::ReturnBlack);
}

fn scene_boxes() -> Vec<Aabb> {
    let mut v = Vec::new();
    for i in 0..7i64 {
        for j in 0..3i64 {
            let x = i * 30 - 100;
            let y = j * 40 - 50;
            let z = (i * 17 + j * 29) % 50;
            v.push(Aabb {
                min: Vec3(x, y, z),
                max: Vec3(x + 10 + j, y + 5 + i, z + 20),
            });
        }
    }
    // A flat rectangle and a large enclosing box.
    v.push(Aabb { min: Vec3(-200, -1, -200), max: Vec3(200, 0, 200) });
    v.push(Aabb { min: Vec3(-500, -500, -500), max: Vec3(500, 500, 500) });
    v
}

fn rays() -> Vec<Ray> {
    let mut v = Vec::new();
    for (o, d) in [
        ((-300, 0, 10), (1, 0, 0)),
        ((-300, 20, 30), (3, -1, 0)),
        ((0, 300, 0), (0, -1, 0)),
        ((-95, -48, 0), (0, 0, 1)),
        ((-100, -50, -100), (1, 1, 1)),
        ((1000, 1000, 1000), (1, 1, 1)),
        ((-90, -45, 7), (0, 5, 0)),
        ((-100, -50, 35), (1, 0, 0)),
        ((600, 0, 0), (0, 1, 0)),
    ] {
        v.push(Ray::new(Vec3(o.0, o.1, o.2), Vec3(d.0, d.1, d.2), 0));
    }
    v
}

fn brute_force(boxes: &[Aabb], r: &Ray, lo: Param, hi: Param) -> Vec<usize> {
    (0..boxes.len()).filter(|&i| boxes[i].hit(r, lo..hi)).collect()
}

#[test]
fn bvh_query_matches_linear_scan() {
    let boxes = scene_boxes();
    let bvh = Bvh::new(boxes.clone());
    let lo = Param { num: 1, den: 1000 };
    for hi in [Param::whole(1_000_000), Param::whole(50), Param { num: 1, den: 2 }] {
        for r in rays() {
            let mut got = bvh.query(&r, lo..hi);
            got.sort();
            assert_eq!(got, brute_force(&boxes, &r, lo, hi));
        }
    }
}

#[test]
fn bvh_structure_covers_each_object_once() {
    let boxes = scene_boxes();
    let bvh = Bvh::new(boxes.clone());
    let mut seen = vec![0usize; boxes.len()];
    for nd in bvh.nodes.iter() {
        if nd.leaf {
            assert!(nd.end - nd.start == 1 || nd.end - nd.start == 2);
            for k in nd.start..nd.end {
                seen[bvh.order[k]] += 1;
            }
        } else {
            let l = bvh.nodes[nd.left];
            let r = bvh.nodes[nd.right];
            assert_eq!(nd.bbox, l.bbox.merge(r.bbox));
        }
    }
    assert!(seen.iter().all(|&c| c == 1));
    let root = bvh.nodes[bvh.nodes.len() - 1];
    assert_eq!((root.start, root.end), (0, boxes.len()));
}

#[test]
fn bvh_splits_along_longest_axis() {
    // Four boxes spread along Z only.
    let boxes: Vec<Aabb> = [40, 0, 30, 10]
        .iter()
        .map(|&z| Aabb { min: Vec3(0, 0, z), max: Vec3(1, 1, z + 1) })
        .collect();
    let bvh = Bvh::new(boxes);
    let root = bvh.nodes[bvh.nodes.len() - 1];
    let left = bvh.nodes[root.left];
    let right = bvh.nodes[root.right];
    assert_eq!(root.axis, Axis::Z);
    assert_eq!(left.bbox, Aabb { min: Vec3(0, 0, 0), max: Vec3(1, 1, 11) });
    assert_eq!(right.bbox, Aabb { min: Vec3(0, 0, 30), max: Vec3(1, 1, 41) });
}

#[test]
fn empty_bvh_never_hits() {
    let bvh = Bvh::new(Vec::new());
    assert!(bvh.nodes.is_empty());
    for r in rays() {
        assert!(bvh.query(&r, Param::whole(0)..Param::whole(1_000_000)).is_empty());
    }
}

#[test]
fn single_object_bvh() {
    let b = Aabb { min: Vec3(0, 0, 0), max: Vec3(4, 4, 4) };
    let bvh = Bvh::new(vec![b]);
    assert_eq!(bvh.nodes.len(), 1);
    let r = Ray::new(Vec3(-3, 2, 2), Vec3(1, 0, 0), 0);
    assert_eq!(bvh.query(&r, Param::whole(0)..Param::whole(100)), vec![0]);
}

#[test]
fn permutation_tables_are_random_permutations() {
    let mut rng = SmallRng::seed_from_u64(0xDEADBEEF);
    let p = generate_perm(&mut rng);
    assert_eq!(p.len(), TABLE_SIZE);
    let mut sorted = p.clone();
    sorted.sort();
    assert_eq!(sorted, (0..=255u8).collect::<Vec<u8>>());
    // Every position was swapped with one below it: no entry stays in place.
    assert!(p.iter().enumerate().all(|(i, &v)| v as usize != i));
}

#[test]
fn lattice_index_wraps_every_256() {
    let mut rng = SmallRng::seed_from_u64(7);
    let t = PerlinTables::new(&mut rng);
    for (i, j, k) in [(0i64, 0i64, 0i64), (5, -3, 300), (-1, -256, 255), (1000, 2, -77)] {
        let h = t.lattice_index(i, j, k);
        assert!(h < TABLE_SIZE);
        assert_eq!(h, t.lattice_index(i + 256, j - 512, k + 2560));
        let w = |c: i64| c.rem_euclid(256) as usize;
        assert_eq!(h, (t.perm_x[w(i)] ^ t.perm_y[w(j)] ^ t.perm_z[w(k)]) as usize);
    }
}

#[test]
fn shuffle_with_all_draws_zero_rotates_table() {
    let draws = vec![0usize; TABLE_SIZE];
    let p = shuffle(&draws);
    for i in 0..TABLE_SIZE {
        assert_eq!(p[i] as usize, (i + 1) % TABLE_SIZE);
    }
}

#[test]
fn shuffle_with_adjacent_draws() {
    // Position i exchanged with i - 1, from the top down: the last entry
    // travels to the front.
    let draws: Vec<usize> = (0..TABLE_SIZE).map(|i| if i == 0 { 0 } else { i - 1 }).collect();
    let p = shuffle(&draws);
    assert_eq!(p[0], 255);
    for i in 1..TABLE_SIZE {
        assert_eq!(p[i] as usize, i - 1);
    }
}
