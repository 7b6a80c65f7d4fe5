use vstd::prelude::*;

use crate::bounds::Bounds;
use crate::math::{cross3, dot3, in_grid, sub3, v3, w3, IVec3, WideVec3, COORD_LIMIT};
use crate::triangle::Triangle;

verus! {

/// A sphere in grid coordinates.
#[derive(Debug, Copy, Clone, PartialEq, Eq, Structural)]
pub struct Sphere {
    pub center: IVec3,
    pub radius: i32,
}

/// The squared distance between two points.
pub open spec fn dist_sq(a: (int, int, int), b: (int, int, int)) -> int {
    dot3(sub3(a, b), sub3(a, b))
}

/// The point of a segment nearest to a point: `point / den`, at squared distance
/// `dist_num / dist_den` from it (both denominators positive).
#[derive(Debug, Copy, Clone, PartialEq, Eq, Structural)]
pub struct SegmentPoint {
    pub point: WideVec3,
    pub den: i128,
    pub dist_num: i128,
    pub dist_den: i128,
}

/// Where a sphere touches a triangle.
///
/// The contact point is `position / position_den`; its squared distance from the sphere's
/// centre is `distance_num / distance_den`, so the penetration depth is the radius less the
/// square root of that, along the direction from the contact point to the centre.
/// `surface_normal` is the triangle's face normal (not normalised).
#[derive(Debug, Copy, Clone, PartialEq, Eq, Structural)]
pub struct PrimitiveIntersection {
    pub position: WideVec3,
    pub position_den: i128,
    pub surface_normal: WideVec3,
    pub distance_num: i128,
    pub distance_den: i128,
}

impl PrimitiveIntersection {
    pub fn new(
        position: WideVec3,
        position_den: i128,
        surface_normal: WideVec3,
        distance_num: i128,
        distance_den: i128,
    ) -> (r: Self)
        ensures
            r.position == position,
            r.position_den == position_den,
            r.surface_normal == surface_normal,
            r.distance_num == distance_num,
            r.distance_den == distance_den,
    {
        Self { position, position_den, surface_normal, distance_num, distance_den }
    }

    /// The squared distance is a fraction with a positive denominator, small enough for
    /// two of them to be compared exactly.
    pub open spec fn in_range(self) -> bool {
        &&& 0 < self.distance_den < 0x400_0000_0000_0000_0000
        &&& -0x4000_0000_0000_0000_0000_0000_0000 < self.distance_num
            < 0x4000_0000_0000_0000_0000_0000_0000
    }

    /// `self` lies closer to the centre than `o`: it is the deeper contact.
    pub open spec fn deeper(self, o: PrimitiveIntersection) -> bool {
        self.distance_num * o.distance_den < o.distance_num * self.distance_den
    }
}

/// The nearest point of segment `p q` to `c`, by projection clamped to the segment.
pub open spec fn segment_point(p: (int, int, int), q: (int, int, int), c: (int, int, int)) -> SegmentPoint {
    let e = sub3(q, p);
    let w = sub3(c, p);
    let s = dot3(w, e);
    let len = dot3(e, e);
    if s <= 0 {
        SegmentPoint {
            point: WideVec3 { x: p.0 as i128, y: p.1 as i128, z: p.2 as i128 },
            den: 1,
            dist_num: dot3(w, w) as i128,
            dist_den: 1,
        }
    } else if s >= len {
        SegmentPoint {
            point: WideVec3 { x: q.0 as i128, y: q.1 as i128, z: q.2 as i128 },
            den: 1,
            dist_num: dist_sq(c, q) as i128,
            dist_den: 1,
        }
    } else {
        SegmentPoint {
            point: WideVec3 {
                x: (len * p.0 + s * e.0) as i128,
                y: (len * p.1 + s * e.1) as i128,
                z: (len * p.2 + s * e.2) as i128,
            },
            den: len as i128,
            dist_num: (dot3(w, w) * len - s * s) as i128,
            dist_den: len as i128,
        }
    }
}

/// The nearest point of segment `a b` to `c`, with its squared distance, exactly.
pub fn closest_point_on_line_segment(a: IVec3, b: IVec3, point: IVec3) -> (r: SegmentPoint)
    requires
        in_grid(a),
        in_grid(b),
        in_grid(point),
    ensures
        r == segment_point(v3(a), v3(b), v3(point)),
        0 < r.den <= 0x10_0000_0000,
        0 < r.dist_den <= 0x10_0000_0000,
        -0x100_0000_0000_0000_0000 <= r.dist_num <= 0x100_0000_0000_0000_0000,
{
    let p = WideVec3::from_ivec(a);
    let q = WideVec3::from_ivec(b);
    let c = WideVec3::from_ivec(point);
    let e = q.sub(p);
    let w = c.sub(p);
    let s = w.dot_small(e);
    let len = e.dot_small(e);
    let ww = w.dot_small(w);
    proof {
        lemma_square_sum_nonneg(w3(w));
    }
    if s <= 0 {
        return SegmentPoint { point: p, den: 1, dist_num: ww, dist_den: 1 };
    }
    if s >= len {
        let v = c.sub(q);
        let vv = v.dot_small(v);
        proof {
            lemma_square_sum_nonneg(w3(v));
        }
        return SegmentPoint { point: q, den: 1, dist_num: vv, dist_den: 1 };
    }
    proof {
        let m = 0x10_0000_0000int;
        crate::math::lemma_mul_bounded(len as int, p.x as int, m, 0x1_0000);
        crate::math::lemma_mul_bounded(len as int, p.y as int, m, 0x1_0000);
        crate::math::lemma_mul_bounded(len as int, p.z as int, m, 0x1_0000);
        crate::math::lemma_mul_bounded(s as int, e.x as int, m, 0x2_0000);
        crate::math::lemma_mul_bounded(s as int, e.y as int, m, 0x2_0000);
        crate::math::lemma_mul_bounded(s as int, e.z as int, m, 0x2_0000);
        crate::math::lemma_mul_bounded(ww as int, len as int, m, m);
        crate::math::lemma_mul_bounded(s as int, s as int, m, m);
    }
    let point = WideVec3 { x: len * p.x + s * e.x, y: len * p.y + s * e.y, z: len * p.z + s * e.z };
    SegmentPoint { point, den: len, dist_num: ww * len - s * s, dist_den: len }
}

proof fn lemma_square_sum_nonneg(v: (int, int, int))
    ensures
        dot3(v, v) >= 0,
{
    assert(v.0 * v.0 >= 0 && v.1 * v.1 >= 0 && v.2 * v.2 >= 0) by (nonlinear_arith);
}

/// Numerator of the signed distance of the centre from the triangle's plane, over `|n|`.
pub open spec fn plane_num(s: Sphere, t: Triangle) -> int {
    dot3(sub3(v3(s.center), v3(t.a)), t.face_normal())
}

pub open spec fn normal_sq(t: Triangle) -> int {
    dot3(t.face_normal(), t.face_normal())
}

/// The centre lies within `radius` of the triangle's plane.
pub open spec fn near_plane(s: Sphere, t: Triangle) -> bool {
    plane_num(s, t) * plane_num(s, t) <= s.radius * s.radius * normal_sq(t)
}

/// Which side of edge `p q` the centre lies on, seen along the face normal `n`.
pub open spec fn edge_side(c: (int, int, int), p: (int, int, int), q: (int, int, int), n: (int, int, int)) -> int {
    dot3(cross3(sub3(c, p), sub3(q, p)), n)
}

/// The centre projects onto the inside (or the border) of a triangle of non-zero area.
pub open spec fn projects_inside(s: Sphere, t: Triangle) -> bool {
    let (c, n) = (v3(s.center), t.face_normal());
    &&& normal_sq(t) != 0
    &&& edge_side(c, v3(t.a), v3(t.b), n) <= 0
    &&& edge_side(c, v3(t.b), v3(t.c), n) <= 0
    &&& edge_side(c, v3(t.c), v3(t.a), n) <= 0
}

/// The point lies strictly within `radius` of the centre.
pub open spec fn within(sp: SegmentPoint, radius: int) -> bool {
    sp.dist_num < radius * radius * sp.dist_den
}

pub open spec fn closer(x: SegmentPoint, y: SegmentPoint) -> bool {
    x.dist_num * y.dist_den < y.dist_num * x.dist_den
}

/// The nearest of three edge points; a later one wins only when strictly nearer.
pub open spec fn nearest_of(e1: SegmentPoint, e2: SegmentPoint, e3: SegmentPoint) -> SegmentPoint {
    let best = if closer(e2, e1) {
        e2
    } else {
        e1
    };
    if closer(e3, best) {
        e3
    } else {
        best
    }
}

pub open spec fn edge_points(s: Sphere, t: Triangle) -> (SegmentPoint, SegmentPoint, SegmentPoint) {
    let c = v3(s.center);
    (
        segment_point(v3(t.a), v3(t.b), c),
        segment_point(v3(t.b), v3(t.c), c),
        segment_point(v3(t.c), v3(t.a), c),
    )
}

/// The contact that `Sphere::intersects_triangle` reports, if any.
pub open spec fn contact_spec(s: Sphere, t: Triangle) -> Option<PrimitiveIntersection> {
    let (c, n) = (v3(s.center), t.face_normal());
    let normal = WideVec3 { x: n.0 as i128, y: n.1 as i128, z: n.2 as i128 };
    let (e1, e2, e3) = edge_points(s, t);
    if !near_plane(s, t) {
        None
    } else if projects_inside(s, t) {
        let (pn, nn) = (plane_num(s, t), normal_sq(t));
        Some(
            PrimitiveIntersection {
                position: WideVec3 {
                    x: (c.0 * nn - n.0 * pn) as i128,
                    y: (c.1 * nn - n.1 * pn) as i128,
                    z: (c.2 * nn - n.2 * pn) as i128,
                },
                position_den: nn as i128,
                surface_normal: normal,
                distance_num: (pn * pn) as i128,
                distance_den: nn as i128,
            },
        )
    } else if within(e1, s.radius as int) || within(e2, s.radius as int) || within(
        e3,
        s.radius as int,
    ) {
        let e = nearest_of(e1, e2, e3);
        Some(
            PrimitiveIntersection {
                position: e.point,
                position_den: e.den,
                surface_normal: normal,
                distance_num: e.dist_num,
                distance_den: e.dist_den,
            },
        )
    } else {
        None
    }
}

fn closer_exec(x: &SegmentPoint, y: &SegmentPoint) -> (r: bool)
    requires
        0 < x.dist_den <= 0x10_0000_0000,
        0 < y.dist_den <= 0x10_0000_0000,
        -0x100_0000_0000_0000_0000 <= x.dist_num <= 0x100_0000_0000_0000_0000,
        -0x100_0000_0000_0000_0000 <= y.dist_num <= 0x100_0000_0000_0000_0000,
    ensures
        r == closer(*x, *y),
{
    proof {
        crate::math::lemma_mul_bounded(x.dist_num as int, y.dist_den as int, 0x100_0000_0000_0000_0000, 0x10_0000_0000);
        crate::math::lemma_mul_bounded(y.dist_num as int, x.dist_den as int, 0x100_0000_0000_0000_0000, 0x10_0000_0000);
    }
    x.dist_num * y.dist_den < y.dist_num * x.dist_den
}

fn within_exec(sp: &SegmentPoint, radius: i32) -> (r: bool)
    requires
        0 <= radius <= COORD_LIMIT,
        0 < sp.dist_den <= 0x10_0000_0000,
    ensures
        r == within(*sp, radius as int),
{
    proof {
        crate::math::lemma_mul_bounded(radius as int, radius as int, 0x1_0000, 0x1_0000);
    }
    let rr = (radius as i128) * (radius as i128);
    proof {
        crate::math::lemma_mul_bounded(rr as int, sp.dist_den as int, 0x1_0000_0000, 0x10_0000_0000);
        assert(rr * sp.dist_den == radius * radius * sp.dist_den);
    }
    sp.dist_num < rr * sp.dist_den
}

impl Sphere {
    /// The centre lies in the grid and the radius is between zero and the grid's limit.
    pub open spec fn wf(self) -> bool {
        in_grid(self.center) && 0 <= self.radius <= COORD_LIMIT
    }

    /// The point lies in the closed ball.
    pub open spec fn contains_point(self, p: (int, int, int)) -> bool {
        dist_sq(p, v3(self.center)) <= self.radius * self.radius
    }

    pub open spec fn bounds_spec(self) -> Bounds {
        Bounds {
            min: IVec3 {
                x: (self.center.x - self.radius) as i32,
                y: (self.center.y - self.radius) as i32,
                z: (self.center.z - self.radius) as i32,
            },
            max: IVec3 {
                x: (self.center.x + self.radius) as i32,
                y: (self.center.y + self.radius) as i32,
                z: (self.center.z + self.radius) as i32,
            },
        }
    }

    pub fn new(center: IVec3, radius: i32) -> (r: Self)
        ensures
            r.center == center,
            r.radius == radius,
    {
        Self { center, radius }
    }

    /// The box `center - radius .. center + radius`.
    pub fn get_bounds(&self) -> (r: Bounds)
        requires
            self.wf(),
        ensures
            r == self.bounds_spec(),
            r.wf(),
    {
        let c = self.center;
        let k = self.radius;
        Bounds::new(
            IVec3 { x: c.x - k, y: c.y - k, z: c.z - k },
            IVec3 { x: c.x + k, y: c.y + k, z: c.z + k },
        )
    }

    /// Where the sphere touches the triangle, if it does: the centre must lie within the
    /// radius of the triangle's plane, and either project onto the triangle (the contact is
    /// then that projection) or lie strictly within the radius of an edge (the contact is
    /// then the nearest edge point).
    pub fn intersects_triangle(&self, other: &Triangle) -> (r: Option<PrimitiveIntersection>)
        requires
            self.wf(),
            other.wf(),
        ensures
            r == contact_spec(*self, *other),
            r matches Some(c) ==> c.in_range(),
    {
        let a = WideVec3::from_ivec(other.a);
        let b = WideVec3::from_ivec(other.b);
        let c = WideVec3::from_ivec(other.c);
        let center = WideVec3::from_ivec(self.center);
        let n = b.sub(a).cross(c.sub(a));
        let pn = center.sub(a).dot(n);
        let nn = n.dot_mid(n);
        proof {
            crate::math::lemma_mul_bounded(self.radius as int, self.radius as int, 0x1_0000, 0x1_0000);
        }
        let rr = (self.radius as i128) * (self.radius as i128);
        proof {
            crate::math::lemma_mul_bounded(rr as int, nn as int, 0x1_0000_0000, 0x100_0000_0000_0000_0000);
            crate::math::lemma_mul_bounded(pn as int, pn as int, 0x40_0000_0000_0000, 0x40_0000_0000_0000);
            assert(rr * nn == self.radius * self.radius * nn);
        }
        if pn * pn > rr * nn {
            return None;
        }
        let side0 = center.sub(a).cross(b.sub(a)).dot_mid(n);
        let side1 = center.sub(b).cross(c.sub(b)).dot_mid(n);
        let side2 = center.sub(c).cross(a.sub(c)).dot_mid(n);
        if nn != 0 && side0 <= 0 && side1 <= 0 && side2 <= 0 {
            proof {
                crate::math::lemma_mul_bounded(center.x as int, nn as int, 0x1_0000, 0x100_0000_0000_0000_0000);
                crate::math::lemma_mul_bounded(center.y as int, nn as int, 0x1_0000, 0x100_0000_0000_0000_0000);
                crate::math::lemma_mul_bounded(center.z as int, nn as int, 0x1_0000, 0x100_0000_0000_0000_0000);
                crate::math::lemma_mul_bounded(n.x as int, pn as int, 0x8_0000_0000, 0x40_0000_0000_0000);
                crate::math::lemma_mul_bounded(n.y as int, pn as int, 0x8_0000_0000, 0x40_0000_0000_0000);
                crate::math::lemma_mul_bounded(n.z as int, pn as int, 0x8_0000_0000, 0x40_0000_0000_0000);
            }
            let position = WideVec3 {
                x: center.x * nn - n.x * pn,
                y: center.y * nn - n.y * pn,
                z: center.z * nn - n.z * pn,
            };
            proof {
                lemma_square_sum_nonneg(w3(n));
            }
            return Some(PrimitiveIntersection::new(position, nn, n, pn * pn, nn));
        }
        let e1 = closest_point_on_line_segment(other.a, other.b, self.center);
        let e2 = closest_point_on_line_segment(other.b, other.c, self.center);
        let e3 = closest_point_on_line_segment(other.c, other.a, self.center);
        if within_exec(&e1, self.radius) || within_exec(&e2, self.radius) || within_exec(
            &e3,
            self.radius,
        ) {
            let mut best = e1;
            if closer_exec(&e2, &best) {
                best = e2;
            }
            if closer_exec(&e3, &best) {
                best = e3;
            }
            return Some(
                PrimitiveIntersection::new(best.point, best.den, n, best.dist_num, best.dist_den),
            );
        }
        None
    }

    /// Whether the two open balls overlap: the centres are closer than the sum of the radii.
    pub fn overlaps(&self, other: &Self) -> (r: bool)
        requires
            self.wf(),
            other.wf(),
        ensures
            r == (dist_sq(v3(self.center), v3(other.center)) < (self.radius + other.radius) * (
            self.radius + other.radius)),
    {
        let dx = self.center.x as i64 - other.center.x as i64;
        let dy = self.center.y as i64 - other.center.y as i64;
        let dz = self.center.z as i64 - other.center.z as i64;
        let s = self.radius as i64 + other.radius as i64;
        proof {
            crate::math::lemma_mul_bounded(dx as int, dx as int, 0x2_0000, 0x2_0000);
            crate::math::lemma_mul_bounded(dy as int, dy as int, 0x2_0000, 0x2_0000);
            crate::math::lemma_mul_bounded(dz as int, dz as int, 0x2_0000, 0x2_0000);
            crate::math::lemma_mul_bounded(s as int, s as int, 0x2_0000, 0x2_0000);
        }
        dx * dx + dy * dy + dz * dz < s * s
    }
}

/// Every point of a well-formed sphere lies in its box.
pub proof fn lemma_sphere_in_bounds(s: Sphere, p: (int, int, int))
    requires
        s.wf(),
        s.contains_point(p),
    ensures
        s.bounds_spec().min.x <= p.0 <= s.bounds_spec().max.x,
        s.bounds_spec().min.y <= p.1 <= s.bounds_spec().max.y,
        s.bounds_spec().min.z <= p.2 <= s.bounds_spec().max.z,
{
    let r = s.radius as int;
    let (dx, dy, dz) = (p.0 - s.center.x, p.1 - s.center.y, p.2 - s.center.z);
    assert(dx * dx + dy * dy + dz * dz <= r * r);
    assert(dx * dx >= 0 && dy * dy >= 0 && dz * dz >= 0) by (nonlinear_arith);
    lemma_square_bounds(dx, dy * dy + dz * dz, r);
    lemma_square_bounds(dy, dx * dx + dz * dz, r);
    lemma_square_bounds(dz, dx * dx + dy * dy, r);
}

proof fn lemma_square_bounds(a: int, rest: int, r: int)
    requires
        r >= 0,
        rest >= 0,
        a * a + rest <= r * r,
    ensures
        -r <= a <= r,
{
    assert(-r <= a <= r) by (nonlinear_arith)
        requires
            r >= 0,
            a * a <= r * r,
    ;
}

/// A sphere whose centre lies on the triangle's face reaches it through the face, with
/// the contact at the centre itself: the penetration depth is the whole radius.
pub proof fn lemma_center_on_face(s: Sphere, t: Triangle)
    requires
        plane_num(s, t) == 0,
        projects_inside(s, t),
    ensures
        contact_spec(s, t) matches Some(c) && c.distance_num == 0,
{
    lemma_square_sum_nonneg(t.face_normal());
    assert(s.radius * s.radius * normal_sq(t) >= 0) by (nonlinear_arith)
        requires
            normal_sq(t) >= 0,
    ;
}

/// A sphere whose centre lies farther than its radius from the triangle's plane does not
/// touch the triangle.
pub proof fn lemma_far_from_plane(s: Sphere, t: Triangle)
    requires
        plane_num(s, t) * plane_num(s, t) > s.radius * s.radius * normal_sq(t),
    ensures
        contact_spec(s, t) is None,
{
}

} // verus!
