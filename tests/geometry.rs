use fpsgame::bounds::{Axis, Bounds};
use fpsgame::bvh::{build_bvh, Bvh};
use fpsgame::math::IVec3;
use fpsgame::ray::Ray;
use fpsgame::sphere::Sphere;
use fpsgame::triangle::{Intersection, Triangle};
use fpsgame::world::World;

fn v(x: i32, y: i32, z: i32) -> IVec3 {
    IVec3 { x, y, z }
}

fn b(min: IVec3, max: IVec3) -> Bounds {
    Bounds::new(min, max)
}

/// A flat triangle in the plane `z = h`, holding the point (0, 0, h) inside.
fn flat(h: i32) -> Triangle {
    Triangle::new(v(-10, -10, h), v(10, -10, h), v(0, 10, h))
}

/// `t == num / den` for a hit.
fn t_is(hit: &Intersection, num: i128, den: i128) -> bool {
    hit.t_num * den == num * hit.t_den
}

#[test]
fn join_is_componentwise_min_and_max() {
    let a = b(v(0, 0, 0), v(1, 2, 3));
    let c = b(v(-1, 1, 1), v(0, 5, 2));
    assert_eq!(a.join(&c), b(v(-1, 0, 0), v(1, 5, 3)));
}

#[test]
fn join_idempotent_and_associative() {
    let a = b(v(0, 0, 0), v(1, 2, 3));
    let c = b(v(-1, 1, 1), v(0, 5, 2));
    let d = b(v(4, -6, 0), v(7, 0, 9));
    assert_eq!(a.join(&a), a);
    assert_eq!(a.join(&c).join(&d), a.join(&c.join(&d)));
    assert_eq!(a.join(&c), c.join(&a));
}

#[test]
fn centroid_halves_toward_zero() {
    assert_eq!(b(v(-3, 1, -9), v(4, 6, 8)).centroid(), v(0, 3, 0));
    assert_eq!(b(v(0, 0, 0), v(4, 6, 8)).centroid(), v(2, 3, 4));
}

#[test]
fn largest_direction_and_ties() {
    assert_eq!(b(v(0, 0, 0), v(3, 1, 1)).largest_direction(), Axis::X);
    assert_eq!(b(v(0, 0, 0), v(1, 3, 1)).largest_direction(), Axis::Y);
    assert_eq!(b(v(0, 0, 0), v(1, 1, 3)).largest_direction(), Axis::Z);
    assert_eq!(b(v(0, 0, 0), v(2, 2, 1)).largest_direction(), Axis::X);
    assert_eq!(b(v(0, 0, 0), v(2, 1, 2)).largest_direction(), Axis::X);
    assert_eq!(b(v(0, 0, 0), v(1, 2, 2)).largest_direction(), Axis::Z);
    assert_eq!(b(v(0, 0, 0), v(1, 1, 1)).largest_direction(), Axis::X);
}

#[test]
fn surface_area_of_box() {
    assert_eq!(b(v(0, 0, 0), v(1, 2, 3)).surface_area(), 22);
    assert_eq!(b(v(-1, -1, -1), v(1, 1, 1)).surface_area(), 24);
    assert_eq!(b(v(5, 5, 5), v(5, 5, 5)).surface_area(), 0);
}

#[test]
fn overlaps_counts_touching() {
    let a = b(v(0, 0, 0), v(10, 10, 10));
    assert!(a.overlaps(&b(v(10, 10, 10), v(20, 20, 20))));
    assert!(a.overlaps(&b(v(2, 2, 2), v(3, 3, 3))));
    assert!(!a.overlaps(&b(v(11, 0, 0), v(20, 10, 10))));
}

#[test]
fn slab_test_axis_aligned_and_diagonal() {
    let a = b(v(0, 0, 0), v(10, 10, 10));
    assert!(a.intersects(&Ray::new(v(-5, 5, 5), v(1, 0, 0), 100)));
    assert!(!a.intersects(&Ray::new(v(-5, 5, 15), v(1, 0, 0), 100)));
    assert!(a.intersects(&Ray::new(v(-5, -5, -5), v(1, 1, 1), 100)));
    assert!(a.intersects(&Ray::new(v(0, 20, 0), v(1, -1, 0), 100)));
    assert!(!a.intersects(&Ray::new(v(0, 21, 0), v(1, -1, 0), 100)));
    assert!(a.intersects(&Ray::new(v(0, 10, 5), v(0, 0, 1), 100)));
}

#[test]
fn ray_box_miss_means_triangle_miss() {
    let tri = Triangle::new(v(1, 1, 1), v(9, 1, 1), v(1, 9, 9));
    let bounds = b(v(0, 0, 0), v(10, 10, 10));
    let ray = Ray::new(v(0, 21, 0), v(1, -1, 0), 1000);
    assert!(!bounds.intersects(&ray));
    assert!(tri.intersects(&ray).is_none());
}

#[test]
fn triangle_bounds_hold_corners() {
    let tri = Triangle::new(v(3, -1, 7), v(-2, 4, 0), v(5, 5, 5));
    assert_eq!(tri.get_bounds(), b(v(-2, -1, 0), v(5, 5, 7)));
}

#[test]
fn ray_hits_flat_triangle() {
    let ray = Ray::new(v(0, 0, 0), v(0, 0, 1), 100);
    let hit = flat(2).intersects(&ray).unwrap();
    assert_eq!(hit.t_num, 800);
    assert_eq!(hit.t_den, 400);
    assert_eq!((hit.position.x, hit.position.y, hit.position.z), (0, 0, 800));
    assert_eq!((hit.normal.x, hit.normal.y, hit.normal.z), (0, 0, -400));
}

#[test]
fn normal_faces_the_ray_from_either_side() {
    let down = Ray::new(v(0, 0, 10), v(0, 0, -1), 100);
    let hit = flat(2).intersects(&down).unwrap();
    assert!(t_is(&hit, 8, 1));
    assert!(hit.normal.z > 0);
}

#[test]
fn ray_round_trip_through_known_point() {
    let tri = Triangle::new(v(0, 0, 9), v(12, 0, 9), v(0, 12, 9));
    let ray = Ray::new(v(0, 0, 0), v(1, 2, 3), 10);
    let hit = tri.intersects(&ray).unwrap();
    assert!(t_is(&hit, 3, 1));
    let d = hit.t_den;
    assert_eq!((hit.position.x, hit.position.y, hit.position.z), (3 * d, 6 * d, 9 * d));
}

#[test]
fn parallel_ray_is_rejected() {
    assert!(flat(2).intersects(&Ray::new(v(-20, 0, 2), v(1, 0, 0), 100)).is_none());
    assert!(flat(2).intersects(&Ray::new(v(-20, 0, 0), v(1, 1, 0), 100)).is_none());
}

#[test]
fn short_or_backward_ray_misses() {
    assert!(flat(2).intersects(&Ray::new(v(0, 0, 0), v(0, 0, 1), 1)).is_none());
    assert!(flat(2).intersects(&Ray::new(v(0, 0, 0), v(0, 0, 1), 2)).is_some());
    assert!(flat(2).intersects(&Ray::new(v(0, 0, 5), v(0, 0, 1), 100)).is_none());
    assert!(flat(2).intersects(&Ray::new(v(50, 50, 0), v(0, 0, 1), 100)).is_none());
}

fn scene() -> Vec<Triangle> {
    vec![
        flat(2),
        flat(5),
        Triangle::new(v(100, 0, 0), v(110, 0, 0), v(100, 10, 0)),
        Triangle::new(v(-50, -50, -50), v(-40, -50, -50), v(-50, -40, -45)),
        Triangle::new(v(0, 30, 0), v(10, 30, 0), v(0, 30, 10)),
        Triangle::new(v(20, 20, 20), v(30, 20, 20), v(20, 30, 25)),
    ]
}

fn brute_force_boxes(tris: &[Triangle], q: &Bounds) -> Vec<usize> {
    let mut out = Vec::new();
    for (i, t) in tris.iter().enumerate() {
        if t.get_bounds().overlaps(q) {
            out.push(i);
        }
    }
    out
}

#[test]
fn bvh_box_query_matches_brute_force() {
    let tris = scene();
    let bvh = build_bvh(tris.clone());
    let queries = [
        b(v(-1, -1, 0), v(1, 1, 3)),
        b(v(95, -5, -5), v(105, 5, 5)),
        b(v(-1000, -1000, -1000), v(1000, 1000, 1000)),
        b(v(500, 500, 500), v(600, 600, 600)),
        b(v(25, 25, 22), v(26, 26, 23)),
    ];
    for q in queries.iter() {
        let mut got = bvh.query_bounds(q);
        got.sort();
        assert_eq!(got, brute_force_boxes(&tris, q));
    }
}

#[test]
fn bvh_ray_query_matches_brute_force() {
    let tris = scene();
    let bvh = build_bvh(tris.clone());
    let rays = [
        Ray::new(v(0, 0, -10), v(0, 0, 1), 1000),
        Ray::new(v(5, 35, 5), v(0, -1, 0), 1000),
        Ray::new(v(105, 2, 10), v(0, 0, -1), 5),
        Ray::new(v(105, 2, 10), v(0, 0, -1), 20),
        Ray::new(v(0, 0, 0), v(1, 1, 1), 1000),
    ];
    for ray in rays.iter() {
        let got = bvh.intersects(ray);
        let mut want = Vec::new();
        for t in tris.iter() {
            if let Some(hit) = t.intersects(ray) {
                want.push(hit);
            }
        }
        assert_eq!(got.len(), want.len());
        for h in want.iter() {
            assert!(got.contains(h));
        }
    }
}

#[test]
fn degenerate_centroids_still_build() {
    let tris = vec![flat(2), flat(2), flat(2), flat(2), flat(2)];
    let bvh = build_bvh(tris);
    let mut all = bvh.query_bounds(&b(v(-1, -1, -1), v(1, 1, 3)));
    all.sort();
    assert_eq!(all, vec![0, 1, 2, 3, 4]);
    let hits = bvh.intersects(&Ray::new(v(0, 0, 0), v(0, 0, 1), 100));
    assert_eq!(hits.len(), 5);
}

#[test]
fn single_triangle_tree() {
    let bvh = build_bvh(vec![flat(2)]);
    assert_eq!(bvh.query_bounds(&b(v(0, 0, 0), v(1, 1, 2))), vec![0]);
    assert_eq!(*bvh.get_primitive(0), flat(2));
    assert_eq!(bvh.calculate_cost(), 0);
}

#[test]
fn cost_sums_branch_areas() {
    let bvh = build_bvh(vec![flat(2), flat(5)]);
    // one branch over [-10, 10] x [-10, 10] x [2, 5]
    assert_eq!(bvh.calculate_cost(), 2 * (20 * 20 + 20 * 3 + 3 * 20));
}

#[test]
fn empty_tree_finds_nothing() {
    let bvh = Bvh::new();
    assert!(bvh.query_bounds(&b(v(-5, -5, -5), v(5, 5, 5))).is_empty());
    assert!(bvh.intersects(&Ray::new(v(0, 0, 0), v(0, 0, 1), 100)).is_empty());
    let world = World::new(Bvh::new());
    assert!(world.raycast(&Ray::new(v(0, 0, 0), v(0, 0, 1), 100)).is_none());
}

#[test]
fn raycast_picks_nearest_hit() {
    let world = World::new(build_bvh(vec![flat(5), flat(2)]));
    let hit = world.raycast(&Ray::new(v(0, 0, 0), v(0, 0, 1), 100)).unwrap();
    assert!(t_is(&hit, 2, 1));
    let far = world.raycast(&Ray::new(v(0, 0, 3), v(0, 0, 1), 100)).unwrap();
    assert!(t_is(&far, 2, 1));
    assert!(world.raycast(&Ray::new(v(0, 0, 6), v(0, 0, 1), 100)).is_none());
}

#[test]
fn raycast_over_scene_matches_nearest_of_brute_force() {
    let tris = scene();
    let world = World::new(build_bvh(tris.clone()));
    let ray = Ray::new(v(0, 0, -10), v(0, 0, 1), 1000);
    let hit = world.raycast(&ray).unwrap();
    assert!(t_is(&hit, 12, 1));
}

#[test]
fn sphere_bounds_and_overlap() {
    let s = Sphere::new(v(1, 2, 3), 4);
    assert_eq!(s.get_bounds(), b(v(-3, -2, -1), v(5, 6, 7)));
    assert!(s.overlaps(&Sphere::new(v(8, 2, 3), 4)));
    assert!(!s.overlaps(&Sphere::new(v(9, 2, 3), 4)));
    assert!(Sphere::new(v(0, 0, 0), 0).get_bounds() == b(v(0, 0, 0), v(0, 0, 0)));
}

#[test]
fn sphere_candidates_use_the_sphere_box() {
    let tris = scene();
    let world = World::new(build_bvh(tris.clone()));
    let s = Sphere::new(v(0, 0, 3), 1);
    let mut got = world.sphere_candidates(&s);
    got.sort();
    assert_eq!(got, brute_force_boxes(&tris, &s.get_bounds()));
    assert_eq!(got, vec![0]);
}

#[test]
fn ray_point_at_whole_parameter() {
    let ray = Ray::new(v(1, 2, 3), v(-1, 0, 2), 10);
    assert_eq!(ray.get_point(4), v(-3, 2, 11));
}

#[test]
fn lazy_box_query_yields_the_same_set() {
    let tris = scene();
    let bvh = build_bvh(tris.clone());
    let q = b(v(-1000, -1000, -1000), v(1000, 1000, 25));
    let mut it = bvh.query_bounds_iter(q);
    let mut got = Vec::new();
    while let Some(p) = it.next() {
        got.push(p);
        assert_eq!(*it.get_triangle(p), tris[p]);
    }
    assert!(it.next().is_none());
    got.sort();
    assert_eq!(got, brute_force_boxes(&tris, &q));
    let mut again = bvh.query_bounds_iter(q);
    assert!(again.next().is_some());
}

#[test]
fn lazy_query_on_empty_tree() {
    let bvh = Bvh::new();
    assert!(bvh.query_bounds_iter(b(v(0, 0, 0), v(1, 1, 1))).next().is_none());
}
