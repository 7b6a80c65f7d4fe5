use fpsgame::bvh::build_bvh;
use fpsgame::math::IVec3;
use fpsgame::sphere::{closest_point_on_line_segment, PrimitiveIntersection, Sphere};
use fpsgame::triangle::Triangle;
use fpsgame::world::World;

fn v(x: i32, y: i32, z: i32) -> IVec3 {
    IVec3 { x, y, z }
}

fn flat(h: i32) -> Triangle {
    Triangle::new(v(-10, -10, h), v(10, -10, h), v(0, 10, h))
}

/// The squared distance of the contact from the centre is `num / den`.
fn dist_is(c: &PrimitiveIntersection, num: i128, den: i128) -> bool {
    c.distance_num * den == num * c.distance_den
}

#[test]
fn centre_on_face_gives_full_radius_depth() {
    let c = Sphere::new(v(0, 0, 2), 3).intersects_triangle(&flat(2)).unwrap();
    assert_eq!(c.distance_num, 0);
    let d = c.position_den;
    assert_eq!((c.position.x, c.position.y, c.position.z), (0, 0, 2 * d));
}

#[test]
fn contact_through_the_face() {
    let c = Sphere::new(v(1, 1, 4), 3).intersects_triangle(&flat(2)).unwrap();
    assert!(dist_is(&c, 4, 1));
    let d = c.position_den;
    assert_eq!((c.position.x, c.position.y, c.position.z), (d, d, 2 * d));
    assert_eq!((c.surface_normal.x, c.surface_normal.y), (0, 0));
}

#[test]
fn far_sphere_is_separated() {
    assert!(Sphere::new(v(0, 0, 10), 3).intersects_triangle(&flat(2)).is_none());
    assert!(Sphere::new(v(30, 0, 2), 3).intersects_triangle(&flat(2)).is_none());
    assert!(Sphere::new(v(0, -14, 2), 3).intersects_triangle(&flat(2)).is_none());
}

#[test]
fn contact_on_an_edge() {
    let c = Sphere::new(v(0, -12, 2), 3).intersects_triangle(&flat(2)).unwrap();
    assert!(dist_is(&c, 4, 1));
    let d = c.position_den;
    assert_eq!((c.position.x, c.position.y, c.position.z), (0, -10 * d, 2 * d));
}

#[test]
fn contact_at_a_corner() {
    let c = Sphere::new(v(-12, -12, 2), 3).intersects_triangle(&flat(2)).unwrap();
    assert!(dist_is(&c, 8, 1));
    let d = c.position_den;
    assert_eq!((c.position.x, c.position.y, c.position.z), (-10 * d, -10 * d, 2 * d));
}

#[test]
fn zero_radius_sphere_on_face() {
    let c = Sphere::new(v(0, 0, 2), 0).intersects_triangle(&flat(2)).unwrap();
    assert_eq!(c.distance_num, 0);
    assert!(Sphere::new(v(0, 0, 3), 0).intersects_triangle(&flat(2)).is_none());
}

#[test]
fn degenerate_triangle_only_touches_by_edges() {
    let line = Triangle::new(v(0, 0, 0), v(10, 0, 0), v(5, 0, 0));
    assert!(Sphere::new(v(5, 5, 0), 3).intersects_triangle(&line).is_none());
    let c = Sphere::new(v(5, 2, 0), 3).intersects_triangle(&line).unwrap();
    assert!(dist_is(&c, 4, 1));
}

#[test]
fn closest_point_clamps_to_segment() {
    let inner = closest_point_on_line_segment(v(0, 0, 0), v(10, 0, 0), v(4, 3, 0));
    assert_eq!(inner.point.x, 4 * inner.den);
    assert_eq!(inner.point.y, 0);
    assert_eq!(inner.dist_num, 9 * inner.dist_den);
    let before = closest_point_on_line_segment(v(0, 0, 0), v(10, 0, 0), v(-4, 3, 0));
    assert_eq!((before.point.x, before.den, before.dist_num), (0, 1, 25));
    let after = closest_point_on_line_segment(v(0, 0, 0), v(10, 0, 0), v(13, 4, 0));
    assert_eq!((after.point.x, after.den, after.dist_num), (10, 1, 25));
}

#[test]
fn collide_sphere_picks_deepest_contact() {
    // distances 9 and 7 from a sphere of radius 10: depths 1 and 3
    let world = World::new(build_bvh(vec![flat(9), flat(-7)]));
    let c = world.collide_sphere(&Sphere::new(v(0, 0, 0), 10)).unwrap();
    assert!(dist_is(&c, 49, 1));
    let s = Sphere::new(v(0, 0, 0), 10);
    let mut all = world.collide_sphere_all(&s);
    let mut dists = Vec::new();
    while let Some(c) = all.next() {
        dists.push(c.distance_num / c.distance_den);
    }
    assert!(all.next().is_none());
    dists.sort();
    assert_eq!(dists, vec![49, 81]);
}

#[test]
fn collide_sphere_with_nothing_near() {
    let world = World::new(build_bvh(vec![flat(9), flat(-7)]));
    assert!(world.collide_sphere(&Sphere::new(v(100, 100, 100), 10)).is_none());
    let far = Sphere::new(v(100, 100, 100), 10);
    assert!(world.collide_sphere_all(&far).next().is_none());
}
