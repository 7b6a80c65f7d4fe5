use vstd::prelude::*;

use crate::bounds::{max_int, min_int, Bounds};
use crate::math::{
    add3, cross3, dot3, in_grid, neg3, scale3, sub3, v3, w3, IVec3, WideVec3,
    COORD_LIMIT, LARGE, MID, SMALL,
};
use crate::math::lemma_mul_swap;
use crate::ray::Ray;

verus! {

/// A triangle of the level, with corners in grid coordinates.
#[derive(Debug, Copy, Clone, PartialEq, Eq, Structural)]
pub struct Triangle {
    pub a: IVec3,
    pub b: IVec3,
    pub c: IVec3,
}

/// The nearest hit of a ray on a triangle.
///
/// The ray parameter is the exact fraction `t_num / t_den` (`t_den > 0`); `position` is the
/// hit point scaled by `t_den`; `normal` is the triangle's face normal (not normalised),
/// turned to face the incoming ray.
#[derive(Debug, Copy, Clone, PartialEq, Eq, Structural)]
pub struct Intersection {
    pub t_num: i128,
    pub t_den: i128,
    pub position: WideVec3,
    pub normal: WideVec3,
}

impl Intersection {
    pub fn new(t_num: i128, t_den: i128, position: WideVec3, normal: WideVec3) -> (r: Self)
        ensures
            r.t_num == t_num,
            r.t_den == t_den,
            r.position == position,
            r.normal == normal,
    {
        Self { t_num, t_den, position, normal }
    }

    /// `self.t < o.t`, compared as fractions with positive denominators.
    pub open spec fn nearer(self, o: Intersection) -> bool {
        self.t_num * o.t_den < o.t_num * self.t_den
    }
}

pub open spec fn min3(a: int, b: int, c: int) -> int {
    min_int(a, min_int(b, c))
}

pub open spec fn max3(a: int, b: int, c: int) -> int {
    max_int(a, max_int(b, c))
}

/// The triangle's parameters in the Möller–Trumbore test, before their sign is fixed.
pub open spec fn mt_det(tri: Triangle, ray: Ray) -> int {
    dot3(tri.edge1(), cross3(v3(ray.direction), tri.edge2()))
}

pub open spec fn mt_u(tri: Triangle, ray: Ray) -> int {
    dot3(sub3(v3(ray.origin), v3(tri.a)), cross3(v3(ray.direction), tri.edge2()))
}

pub open spec fn mt_v(tri: Triangle, ray: Ray) -> int {
    dot3(v3(ray.direction), cross3(sub3(v3(ray.origin), v3(tri.a)), tri.edge1()))
}

pub open spec fn mt_t(tri: Triangle, ray: Ray) -> int {
    dot3(tri.edge2(), cross3(sub3(v3(ray.origin), v3(tri.a)), tri.edge1()))
}

pub open spec fn sign_of(det: int) -> int {
    if det > 0 {
        1
    } else {
        -1
    }
}

/// The common denominator `|det|` of the barycentric coordinates and the ray parameter.
pub open spec fn hit_den(tri: Triangle, ray: Ray) -> int {
    sign_of(mt_det(tri, ray)) * mt_det(tri, ray)
}

/// Numerators over `hit_den` of the barycentric coordinates `u`, `v` and of `t`.
pub open spec fn hit_u(tri: Triangle, ray: Ray) -> int {
    sign_of(mt_det(tri, ray)) * mt_u(tri, ray)
}

pub open spec fn hit_v(tri: Triangle, ray: Ray) -> int {
    sign_of(mt_det(tri, ray)) * mt_v(tri, ray)
}

pub open spec fn hit_t(tri: Triangle, ray: Ray) -> int {
    sign_of(mt_det(tri, ray)) * mt_t(tri, ray)
}

/// The ray meets the triangle: it is not parallel to the triangle's plane, the point it
/// reaches has barycentric coordinates `u, v >= 0` with `u + v <= 1`, and it is reached at
/// `0 < t <= length`.
pub open spec fn ray_hits(tri: Triangle, ray: Ray) -> bool {
    let (den, u, v, t) = (hit_den(tri, ray), hit_u(tri, ray), hit_v(tri, ray), hit_t(tri, ray));
    &&& mt_det(tri, ray) != 0
    &&& 0 <= u <= den
    &&& 0 <= v
    &&& u + v <= den
    &&& 0 < t
    &&& t <= ray.length * den
}

/// The face normal turned against the ray's direction.
pub open spec fn facing_normal(tri: Triangle, ray: Ray) -> (int, int, int) {
    let n = tri.face_normal();
    if dot3(v3(ray.direction), n) >= 0 {
        neg3(n)
    } else {
        n
    }
}

/// The hit that `Triangle::intersects` reports when the ray meets the triangle.
pub open spec fn hit_spec(tri: Triangle, ray: Ray) -> Intersection {
    let (den, t) = (hit_den(tri, ray), hit_t(tri, ray));
    let (o, d, n) = (v3(ray.origin), v3(ray.direction), facing_normal(tri, ray));
    Intersection {
        t_num: t as i128,
        t_den: den as i128,
        position: WideVec3 {
            x: (den * o.0 + t * d.0) as i128,
            y: (den * o.1 + t * d.1) as i128,
            z: (den * o.2 + t * d.2) as i128,
        },
        normal: WideVec3 { x: n.0 as i128, y: n.1 as i128, z: n.2 as i128 },
    }
}

impl Triangle {
    pub open spec fn wf(self) -> bool {
        in_grid(self.a) && in_grid(self.b) && in_grid(self.c)
    }

    pub open spec fn edge1(self) -> (int, int, int) {
        sub3(v3(self.b), v3(self.a))
    }

    pub open spec fn edge2(self) -> (int, int, int) {
        sub3(v3(self.c), v3(self.a))
    }

    pub open spec fn face_normal(self) -> (int, int, int) {
        cross3(self.edge1(), self.edge2())
    }

    pub open spec fn bounds_spec(self) -> Bounds {
        Bounds {
            min: IVec3 {
                x: min3(self.a.x as int, self.b.x as int, self.c.x as int) as i32,
                y: min3(self.a.y as int, self.b.y as int, self.c.y as int) as i32,
                z: min3(self.a.z as int, self.b.z as int, self.c.z as int) as i32,
            },
            max: IVec3 {
                x: max3(self.a.x as int, self.b.x as int, self.c.x as int) as i32,
                y: max3(self.a.y as int, self.b.y as int, self.c.y as int) as i32,
                z: max3(self.a.z as int, self.b.z as int, self.c.z as int) as i32,
            },
        }
    }

    pub fn new(a: IVec3, b: IVec3, c: IVec3) -> (r: Self)
        ensures
            r.a == a && r.b == b && r.c == c,
    {
        Self { a, b, c }
    }

    /// The smallest box holding the three corners.
    pub fn get_bounds(&self) -> (r: Bounds)
        ensures
            r == self.bounds_spec(),
            r.wf(),
    {
        let a = self.a;
        let b = self.b;
        let c = self.c;
        let min = IVec3 { x: min_i32(a.x, min_i32(b.x, c.x)), y: min_i32(a.y, min_i32(b.y, c.y)), z: min_i32(a.z, min_i32(b.z, c.z)) };
        let max = IVec3 { x: max_i32(a.x, max_i32(b.x, c.x)), y: max_i32(a.y, max_i32(b.y, c.y)), z: max_i32(a.z, max_i32(b.z, c.z)) };
        Bounds::new(min, max)
    }

    /// The Möller–Trumbore ray test, in exact arithmetic.
    pub fn intersects(&self, ray: &Ray) -> (r: Option<Intersection>)
        requires
            self.wf(),
            in_grid(ray.origin),
            in_grid(ray.direction),
        ensures
            r.is_some() == ray_hits(*self, *ray),
            r matches Some(hit) ==> {
                &&& hit == hit_spec(*self, *ray)
                &&& hit.t_den == hit_den(*self, *ray)
                &&& hit.t_num == hit_t(*self, *ray)
                &&& w3(hit.position) == add3(
                    scale3(hit.t_den as int, v3(ray.origin)),
                    scale3(hit.t_num as int, v3(ray.direction)),
                )
                &&& w3(hit.normal) == facing_normal(*self, *ray)
            },
    {
        let a = WideVec3::from_ivec(self.a);
        let b = WideVec3::from_ivec(self.b);
        let c = WideVec3::from_ivec(self.c);
        let o = WideVec3::from_ivec(ray.origin);
        let d = WideVec3::from_ivec(ray.direction);
        let edge1 = b.sub(a);
        let edge2 = c.sub(a);
        let h = d.cross(edge2);
        let det = edge1.dot(h);
        if det == 0 {
            // the ray is parallel to the triangle's plane
            return None;
        }
        let s = o.sub(a);
        let u_num = s.dot(h);
        let q = s.cross(edge1);
        let v_num = d.dot(q);
        let t_num = edge2.dot(q);
        let (den, u, v, t) = if det > 0 {
            (det, u_num, v_num, t_num)
        } else {
            (-det, -u_num, -v_num, -t_num)
        };
        if u < 0 || u > den {
            return None;
        }
        if v < 0 || u + v > den {
            return None;
        }
        proof {
            crate::math::lemma_mul_bounded(ray.length as int, den as int, 0x1_0000_0000, LARGE as int);
        }
        if t > (ray.length as i128) * den {
            return None;
        }
        if t <= 0 {
            return None;
        }
        let n = edge1.cross(edge2);
        let facing = d.dot(n);
        let normal = if facing >= 0 {
            WideVec3 { x: -n.x, y: -n.y, z: -n.z }
        } else {
            n
        };
        proof {
            crate::math::lemma_mul_bounded(den as int, o.x as int, LARGE as int, COORD_LIMIT as int);
            crate::math::lemma_mul_bounded(den as int, o.y as int, LARGE as int, COORD_LIMIT as int);
            crate::math::lemma_mul_bounded(den as int, o.z as int, LARGE as int, COORD_LIMIT as int);
            crate::math::lemma_mul_bounded(t as int, d.x as int, LARGE as int, COORD_LIMIT as int);
            crate::math::lemma_mul_bounded(t as int, d.y as int, LARGE as int, COORD_LIMIT as int);
            crate::math::lemma_mul_bounded(t as int, d.z as int, LARGE as int, COORD_LIMIT as int);
        }
        let position = WideVec3 {
            x: den * o.x + t * d.x,
            y: den * o.y + t * d.y,
            z: den * o.z + t * d.z,
        };
        Some(Intersection::new(t, den, position, normal))
    }
}

fn min_i32(a: i32, b: i32) -> (r: i32)
    ensures
        r == min_int(a as int, b as int),
{
    if a <= b {
        a
    } else {
        b
    }
}

fn max_i32(a: i32, b: i32) -> (r: i32)
    ensures
        r == max_int(a as int, b as int),
{
    if a >= b {
        a
    } else {
        b
    }
}

/// The ray parameter of a hit, and its denominator, stay within the bounds that exact
/// comparisons of two hits need.
pub open spec fn hit_in_range(h: Intersection) -> bool {
    0 < h.t_den <= LARGE && 0 < h.t_num <= 0x4_0000 * h.t_den
}

proof fn lemma_triple_bounded(a: (int, int, int), b: (int, int, int), c: (int, int, int))
    requires
        crate::math::bounded3(a, SMALL as int),
        crate::math::bounded3(b, SMALL as int),
        crate::math::bounded3(c, SMALL as int),
    ensures
        -LARGE <= dot3(a, cross3(b, c)) <= LARGE,
{
    let m = SMALL as int;
    assert(m * m == 0x4_0000_0000);
    crate::math::lemma_mul_bounded(b.1, c.2, m, m);
    crate::math::lemma_mul_bounded(b.2, c.1, m, m);
    crate::math::lemma_mul_bounded(b.2, c.0, m, m);
    crate::math::lemma_mul_bounded(b.0, c.2, m, m);
    crate::math::lemma_mul_bounded(b.0, c.1, m, m);
    crate::math::lemma_mul_bounded(b.1, c.0, m, m);
    let x = cross3(b, c);
    let n = MID as int;
    assert(m * n == 0x10_0000_0000_0000) by (nonlinear_arith)
        requires
            m == 0x2_0000,
            n == 0x8_0000_0000,
    ;
    crate::math::lemma_mul_bounded(a.0, x.0, m, n);
    crate::math::lemma_mul_bounded(a.1, x.1, m, n);
    crate::math::lemma_mul_bounded(a.2, x.2, m, n);
}

/// On an axis along which the ray moves, a point inside the grid bounds the parameter.
proof fn lemma_axis_bounds_t(lo: int, hi: int, o: int, d: int, t: int, den: int)
    requires
        -0x1_0000 <= lo,
        hi <= 0x1_0000,
        -0x1_0000 <= o <= 0x1_0000,
        d != 0,
        t > 0,
        den > 0,
        den * lo <= den * o + t * d <= den * hi,
    ensures
        t <= 0x4_0000 * den,
{
    if d > 0 {
        assert(t * d <= den * (hi - o)) by (nonlinear_arith)
            requires
                den * o + t * d <= den * hi,
        ;
        assert(den * (hi - o) <= den * 0x2_0000) by (nonlinear_arith)
            requires
                den > 0,
                hi - o <= 0x2_0000,
        ;
        assert(t <= t * d) by (nonlinear_arith)
            requires
                t > 0,
                d >= 1,
        ;
    } else {
        assert(t * (-d) <= den * (o - lo)) by (nonlinear_arith)
            requires
                den * lo <= den * o + t * d,
        ;
        assert(den * (o - lo) <= den * 0x2_0000) by (nonlinear_arith)
            requires
                den > 0,
                o - lo <= 0x2_0000,
        ;
        assert(t <= t * (-d)) by (nonlinear_arith)
            requires
                t > 0,
                -d >= 1,
        ;
    }
}

/// Every hit of a ray from the grid on a triangle of the grid is in range.
pub proof fn lemma_hit_in_range(tri: Triangle, ray: Ray)
    requires
        tri.wf(),
        in_grid(ray.origin),
        in_grid(ray.direction),
        ray_hits(tri, ray),
    ensures
        hit_in_range(hit_spec(tri, ray)),
{
    let s = sub3(v3(ray.origin), v3(tri.a));
    lemma_triple_bounded(tri.edge1(), v3(ray.direction), tri.edge2());
    lemma_hit_in_box(tri, ray);
    let (den, t) = (hit_den(tri, ray), hit_t(tri, ray));
    let (o, d, b) = (ray.origin, ray.direction, tri.bounds_spec());
    assert(d.x != 0 || d.y != 0 || d.z != 0) by {
        if d.x == 0 && d.y == 0 && d.z == 0 {
            let (e, f) = (tri.edge1(), tri.edge2());
            let (x, y, z) = (d.x as int, d.y as int, d.z as int);
            assert(dot3(e, cross3(v3(d), f)) == 0) by (nonlinear_arith)
                requires
                    x == 0,
                    y == 0,
                    z == 0,
                    v3(d) == (x, y, z),
            ;
        }
    }
    if d.x != 0 {
        lemma_axis_bounds_t(b.min.x as int, b.max.x as int, o.x as int, d.x as int, t, den);
    } else if d.y != 0 {
        lemma_axis_bounds_t(b.min.y as int, b.max.y as int, o.y as int, d.y as int, t, den);
    } else {
        lemma_axis_bounds_t(b.min.z as int, b.max.z as int, o.z as int, d.z as int, t, den);
    }
}

proof fn lemma_weighted_axis(wa: int, wb: int, wc: int, a: int, b: int, c: int, lo: int, hi: int)
    requires
        wa >= 0,
        wb >= 0,
        wc >= 0,
        lo <= a <= hi,
        lo <= b <= hi,
        lo <= c <= hi,
    ensures
        (wa + wb + wc) * lo <= wa * a + wb * b + wc * c <= (wa + wb + wc) * hi,
{
    assert(wa * lo <= wa * a <= wa * hi) by (nonlinear_arith)
        requires wa >= 0, lo <= a <= hi;
    assert(wb * lo <= wb * b <= wb * hi) by (nonlinear_arith)
        requires wb >= 0, lo <= b <= hi;
    assert(wc * lo <= wc * c <= wc * hi) by (nonlinear_arith)
        requires wc >= 0, lo <= c <= hi;
    assert((wa + wb + wc) * lo == wa * lo + wb * lo + wc * lo) by (nonlinear_arith);
    assert((wa + wb + wc) * hi == wa * hi + wb * hi + wc * hi) by (nonlinear_arith);
}

/// Every point of a triangle lies in its box: the point with non-negative weights
/// `wa`, `wb`, `wc` on the corners, scaled by the sum of the weights.
pub proof fn lemma_triangle_in_bounds(tri: Triangle, wa: int, wb: int, wc: int)
    requires
        wa >= 0,
        wb >= 0,
        wc >= 0,
        wa + wb + wc > 0,
    ensures
        tri.bounds_spec().contains_scaled(
            wa * tri.a.x + wb * tri.b.x + wc * tri.c.x,
            wa * tri.a.y + wb * tri.b.y + wc * tri.c.y,
            wa * tri.a.z + wb * tri.b.z + wc * tri.c.z,
            wa + wb + wc,
        ),
{
    let b = tri.bounds_spec();
    lemma_weighted_axis(wa, wb, wc, tri.a.x as int, tri.b.x as int, tri.c.x as int, b.min.x as int, b.max.x as int);
    lemma_weighted_axis(wa, wb, wc, tri.a.y as int, tri.b.y as int, tri.c.y as int, b.min.y as int, b.max.y as int);
    lemma_weighted_axis(wa, wb, wc, tri.a.z as int, tri.b.z as int, tri.c.z as int, b.min.z as int, b.max.z as int);
}

/// `e . (d x f) == -(d . (e x f))`.
proof fn lemma_triple_swap(e: (int, int, int), d: (int, int, int), f: (int, int, int))
    ensures
        dot3(e, cross3(d, f)) == -dot3(d, cross3(e, f)),
{
    let (e0, e1, e2) = e;
    let (d0, d1, d2) = d;
    let (f0, f1, f2) = f;
    assert(e0 * (d1 * f2 - d2 * f1) == e0 * d1 * f2 - e0 * d2 * f1) by (nonlinear_arith);
    assert(e1 * (d2 * f0 - d0 * f2) == e1 * d2 * f0 - e1 * d0 * f2) by (nonlinear_arith);
    assert(e2 * (d0 * f1 - d1 * f0) == e2 * d0 * f1 - e2 * d1 * f0) by (nonlinear_arith);
    assert(d0 * (e1 * f2 - e2 * f1) == d0 * e1 * f2 - d0 * e2 * f1) by (nonlinear_arith);
    assert(d1 * (e2 * f0 - e0 * f2) == d1 * e2 * f0 - d1 * e0 * f2) by (nonlinear_arith);
    assert(d2 * (e0 * f1 - e1 * f0) == d2 * e0 * f1 - d2 * e1 * f0) by (nonlinear_arith);
    assert(e0 * d1 * f2 - e0 * d2 * f1 + (e1 * d2 * f0 - e1 * d0 * f2) + (e2 * d0 * f1 - e2 * d1 * f0)
        == -(d0 * e1 * f2 - d0 * e2 * f1 + (d1 * e2 * f0 - d1 * e0 * f2) + (d2 * e0 * f1 - d2 * e1
        * f0))) by (nonlinear_arith);
}

/// A ray whose direction lies in the triangle's plane (it is square to the face normal)
/// never hits it.
pub proof fn lemma_parallel_ray_misses(tri: Triangle, ray: Ray)
    requires
        dot3(v3(ray.direction), tri.face_normal()) == 0,
    ensures
        !ray_hits(tri, ray),
{
    lemma_triple_swap(tri.edge1(), v3(ray.direction), tri.edge2());
}

/// `y x z == -(z x y)` and `x . (-y) == -(x . y)`.
proof fn lemma_antisym(x: (int, int, int), y: (int, int, int), z: (int, int, int))
    ensures
        cross3(y, z) == neg3(cross3(z, y)),
        dot3(x, neg3(y)) == -dot3(x, y),
        dot3(x, y) == dot3(y, x),
{
    let (y0, y1, y2) = y;
    let (z0, z1, z2) = z;
    assert(y1 * z2 - y2 * z1 == -(z1 * y2 - z2 * y1)) by (nonlinear_arith);
    assert(y2 * z0 - y0 * z2 == -(z2 * y0 - z0 * y2)) by (nonlinear_arith);
    assert(y0 * z1 - y1 * z0 == -(z0 * y1 - z1 * y0)) by (nonlinear_arith);
    assert(x.0 * (-y0) == -(x.0 * y0)) by (nonlinear_arith);
    assert(x.1 * (-y1) == -(x.1 * y1)) by (nonlinear_arith);
    assert(x.2 * (-y2) == -(x.2 * y2)) by (nonlinear_arith);
    assert(x.0 * y0 == y0 * x.0 && x.1 * y1 == y1 * x.1 && x.2 * y2 == y2 * x.2) by (nonlinear_arith);
}

/// When `k * s == u * e1 + v * e2 - t * d`, the numerators of the Möller–Trumbore test are
/// `det` times the coefficients: `k * t_num == t * det` and so on.
proof fn lemma_numerators(
    s: (int, int, int),
    e1: (int, int, int),
    e2: (int, int, int),
    d: (int, int, int),
    k: int,
    u: int,
    v: int,
    t: int,
)
    requires
        scale3(k, s) == crate::math::combo3(u, e1, v, e2, -t, d),
    ensures
        k * dot3(e2, cross3(s, e1)) == t * dot3(e1, cross3(d, e2)),
        k * dot3(s, cross3(d, e2)) == u * dot3(e1, cross3(d, e2)),
        k * dot3(d, cross3(s, e1)) == v * dot3(e1, cross3(d, e2)),
{
    let det = dot3(e1, cross3(d, e2));
    let w = crate::math::combo3(u, e1, v, e2, -t, d);
    let h = cross3(d, e2);
    // the cross product with e1
    crate::math::lemma_cross_combo(u, e1, v, e2, -t, d, e1);
    crate::math::lemma_dot_cross_zero(e1, e1);
    crate::math::lemma_cross_scale(k, s, e1);
    let q = cross3(s, e1);
    assert(scale3(k, q) == crate::math::combo3(u, cross3(e1, e1), v, cross3(e2, e1), -t, cross3(d, e1)));
    // the triple products that appear
    lemma_triple_swap(e1, d, e2);
    lemma_triple_swap(e2, d, e1);
    lemma_antisym(d, e2, e1);
    lemma_antisym(d, cross3(e1, e2), e1);
    crate::math::lemma_dot_cross_zero(e2, e1);
    crate::math::lemma_dot_cross_zero(d, e1);
    crate::math::lemma_dot_cross_zero(d, e2);
    assert(dot3(d, cross3(e2, e1)) == det);
    assert(dot3(e2, cross3(d, e1)) == -det);
    // t
    crate::math::lemma_dot_scale(e2, k, q);
    crate::math::lemma_dot_combo(e2, u, cross3(e1, e1), v, cross3(e2, e1), -t, cross3(d, e1));
    assert((-t) * (-det) == t * det) by (nonlinear_arith);
    let zero = cross3(e1, e1);
    assert(dot3(e2, zero) == 0 && dot3(d, zero) == 0);
    assert(u * dot3(e2, zero) == 0 && u * dot3(d, zero) == 0) by (nonlinear_arith)
        requires
            dot3(e2, zero) == 0,
            dot3(d, zero) == 0,
    ;
    assert(v * dot3(e2, cross3(e2, e1)) == 0 && (-t) * dot3(d, cross3(d, e1)) == 0) by (nonlinear_arith)
        requires
            dot3(e2, cross3(e2, e1)) == 0,
            dot3(d, cross3(d, e1)) == 0,
    ;
    assert(k * dot3(e2, q) == dot3(e2, scale3(k, q)));
    // v
    crate::math::lemma_dot_scale(d, k, q);
    crate::math::lemma_dot_combo(d, u, cross3(e1, e1), v, cross3(e2, e1), -t, cross3(d, e1));
    // u
    lemma_antisym(h, s, s);
    lemma_antisym(h, w, w);
    lemma_antisym(h, e1, e1);
    lemma_antisym(h, e2, e2);
    lemma_antisym(h, d, d);
    crate::math::lemma_dot_scale(h, k, s);
    crate::math::lemma_dot_combo(h, u, e1, v, e2, -t, d);
    assert(dot3(h, e2) == 0 && dot3(h, d) == 0);
}

/// From `k * x == c * den` with `k, den > 0`: the sign of `x` is that of `c`, and
/// `c <= b * k` bounds `x` by `b * den`.
proof fn lemma_scaled_bound(k: int, den: int, x: int, c: int, b: int)
    requires
        k > 0,
        den > 0,
        k * x == c * den,
    ensures
        c >= 0 ==> x >= 0,
        c > 0 ==> x > 0,
        c <= b * k ==> x <= b * den,
{
    if c >= 0 {
        assert(x >= 0) by (nonlinear_arith)
            requires
                k > 0,
                den > 0,
                k * x == c * den,
                c >= 0,
        ;
    }
    if c > 0 {
        assert(x > 0) by (nonlinear_arith)
            requires
                k > 0,
                den > 0,
                k * x == c * den,
                c > 0,
        ;
    }
    if c <= b * k {
        assert(c * den <= b * k * den) by (nonlinear_arith)
            requires
                den > 0,
                c <= b * k,
        ;
        assert(k * x <= k * (b * den)) by (nonlinear_arith)
            requires
                k * x == c * den,
                c * den <= b * k * den,
        ;
        assert(x <= b * den) by (nonlinear_arith)
            requires
                k > 0,
                k * x <= k * (b * den),
        ;
    }
}

/// `k * (sg * n) == c * (sg * det)` from `k * n == c * det`.
proof fn lemma_signed(k: int, sg: int, n: int, c: int, det: int)
    requires
        k * n == c * det,
    ensures
        k * (sg * n) == c * (sg * det),
{
    lemma_mul_swap(k, sg, n);
    lemma_mul_swap(sg, c, det);
}

/// On one axis: the hit point at `ht / den` lies within `[lo, hi]` when the point with
/// weights `k - u - v`, `u`, `v` on the corners does.
proof fn lemma_axis_round_trip(
    k: int,
    den: int,
    ht: int,
    t: int,
    o: int,
    d: int,
    a: int,
    b: int,
    c: int,
    u: int,
    v: int,
    lo: int,
    hi: int,
)
    requires
        k > 0,
        den > 0,
        k * ht == t * den,
        k * o + t * d == k * a + (u * (b - a) + v * (c - a)),
        k * lo <= (k - u - v) * a + u * b + v * c <= k * hi,
    ensures
        den * lo <= den * o + ht * d <= den * hi,
{
    let y = (k - u - v) * a + u * b + v * c;
    vstd::arithmetic::mul::lemma_mul_is_distributive_sub(u, b, a);
    vstd::arithmetic::mul::lemma_mul_is_distributive_sub(v, c, a);
    vstd::arithmetic::mul::lemma_mul_is_distributive_sub_other_way(a, k, u);
    vstd::arithmetic::mul::lemma_mul_is_distributive_sub_other_way(a, k - u, v);
    assert(k * o + t * d == y);
    let x = den * o + ht * d;
    vstd::arithmetic::mul::lemma_mul_is_distributive_add(k, den * o, ht * d);
    lemma_mul_swap(k, den, o);
    vstd::arithmetic::mul::lemma_mul_is_associative(k, ht, d);
    vstd::arithmetic::mul::lemma_mul_is_associative(den, t, d);
    vstd::arithmetic::mul::lemma_mul_is_commutative(den, t);
    vstd::arithmetic::mul::lemma_mul_is_distributive_add(den, k * o, t * d);
    assert(k * x == den * y);
    assert(den * (k * lo) <= den * y <= den * (k * hi)) by (nonlinear_arith)
        requires
            den > 0,
            k * lo <= y <= k * hi,
    ;
    lemma_mul_swap(den, k, lo);
    lemma_mul_swap(den, k, hi);
    assert(den * lo <= x <= den * hi) by (nonlinear_arith)
        requires
            k > 0,
            k * (den * lo) <= k * x <= k * (den * hi),
    ;
}

/// A ray built to pass, at parameter `t / k`, through the point of the triangle with
/// barycentric coordinates `u / k` and `v / k` hits the triangle at exactly that
/// parameter, provided it is not parallel to the triangle and the point lies on its segment.
pub proof fn lemma_ray_round_trip(tri: Triangle, ray: Ray, k: int, u: int, v: int, t: int)
    requires
        k > 0,
        u >= 0,
        v >= 0,
        u + v <= k,
        0 < t <= ray.length * k,
        mt_det(tri, ray) != 0,
        add3(scale3(k, v3(ray.origin)), scale3(t, v3(ray.direction))) == add3(
            scale3(k, v3(tri.a)),
            add3(scale3(u, tri.edge1()), scale3(v, tri.edge2())),
        ),
    ensures
        ray_hits(tri, ray),
        hit_t(tri, ray) * k == t * hit_den(tri, ray),
{
    let (o, d, a) = (v3(ray.origin), v3(ray.direction), v3(tri.a));
    let (e1, e2) = (tri.edge1(), tri.edge2());
    let s = sub3(o, a);
    vstd::arithmetic::mul::lemma_mul_is_distributive_sub(k, o.0, a.0);
    vstd::arithmetic::mul::lemma_mul_is_distributive_sub(k, o.1, a.1);
    vstd::arithmetic::mul::lemma_mul_is_distributive_sub(k, o.2, a.2);
    assert((-t) * d.0 == -(t * d.0) && (-t) * d.1 == -(t * d.1) && (-t) * d.2 == -(t * d.2)) by (nonlinear_arith);
    assert(scale3(k, s) == crate::math::combo3(u, e1, v, e2, -t, d));
    lemma_numerators(s, e1, e2, d, k, u, v, t);
    let det = mt_det(tri, ray);
    let sg = sign_of(det);
    let den = hit_den(tri, ray);
    assert(den > 0);
    lemma_signed(k, sg, mt_u(tri, ray), u, det);
    lemma_signed(k, sg, mt_v(tri, ray), v, det);
    lemma_signed(k, sg, mt_t(tri, ray), t, det);
    let (hu, hv, ht) = (hit_u(tri, ray), hit_v(tri, ray), hit_t(tri, ray));
    assert(k * hu == u * den && k * hv == v * den && k * ht == t * den);
    lemma_scaled_bound(k, den, hu, u, 1);
    lemma_scaled_bound(k, den, hv, v, 1);
    lemma_scaled_bound(k, den, ht, t, ray.length as int);
    vstd::arithmetic::mul::lemma_mul_is_distributive_add(k, hu, hv);
    vstd::arithmetic::mul::lemma_mul_is_distributive_add_other_way(den, u, v);
    lemma_scaled_bound(k, den, hu + hv, u + v, 1);
    vstd::arithmetic::mul::lemma_mul_is_commutative(ht, k);
    // the hit point lies in the triangle's box
    lemma_triangle_in_bounds(tri, k - u - v, u, v);
    let b = tri.bounds_spec();
    lemma_axis_round_trip(k, den, ht, t, o.0, d.0, a.0, tri.b.x as int, tri.c.x as int, u, v, b.min.x as int, b.max.x as int);
    lemma_axis_round_trip(k, den, ht, t, o.1, d.1, a.1, tri.b.y as int, tri.c.y as int, u, v, b.min.y as int, b.max.y as int);
    lemma_axis_round_trip(k, den, ht, t, o.2, d.2, a.2, tri.b.z as int, tri.c.z as int, u, v, b.min.z as int, b.max.z as int);
}

/// `a x (b x c) == (a . c) b - (a . b) c`, one component at a time.
proof fn lemma_bac_cab_component(a0: int, a1: int, a2: int, b0: int, b1: int, b2: int, c0: int, c1: int, c2: int)
    ensures
        a1 * (b0 * c1 - b1 * c0) - a2 * (b2 * c0 - b0 * c2) == (a0 * c0 + a1 * c1 + a2 * c2) * b0 - (
        a0 * b0 + a1 * b1 + a2 * b2) * c0,
{
    vstd::arithmetic::mul::lemma_mul_is_distributive_sub(a1, b0 * c1, b1 * c0);
    vstd::arithmetic::mul::lemma_mul_is_distributive_sub(a2, b2 * c0, b0 * c2);
    vstd::arithmetic::mul::lemma_mul_is_distributive_add_other_way(b0, a0 * c0 + a1 * c1, a2 * c2);
    vstd::arithmetic::mul::lemma_mul_is_distributive_add_other_way(b0, a0 * c0, a1 * c1);
    vstd::arithmetic::mul::lemma_mul_is_distributive_add_other_way(c0, a0 * b0 + a1 * b1, a2 * b2);
    vstd::arithmetic::mul::lemma_mul_is_distributive_add_other_way(c0, a0 * b0, a1 * b1);
    assert(a1 * (b0 * c1) - a1 * (b1 * c0) - (a2 * (b2 * c0) - a2 * (b0 * c2)) == a0 * c0 * b0 + a1
        * c1 * b0 + a2 * c2 * b0 - (a0 * b0 * c0 + a1 * b1 * c0 + a2 * b2 * c0)) by (nonlinear_arith);
}

proof fn lemma_bac_cab(a: (int, int, int), b: (int, int, int), c: (int, int, int))
    ensures
        cross3(a, cross3(b, c)) == sub3(scale3(dot3(a, c), b), scale3(dot3(a, b), c)),
{
    let (a0, a1, a2) = a;
    let (b0, b1, b2) = b;
    let (c0, c1, c2) = c;
    lemma_bac_cab_component(a0, a1, a2, b0, b1, b2, c0, c1, c2);
    lemma_bac_cab_component(a1, a2, a0, b1, b2, b0, c1, c2, c0);
    lemma_bac_cab_component(a2, a0, a1, b2, b0, b1, c2, c0, c1);
}

/// Cramer's rule for the ray test: `det * s == u * e1 + v * e2 - t * d` with the
/// unscaled numerators.
proof fn lemma_cramer(s: (int, int, int), e1: (int, int, int), e2: (int, int, int), d: (int, int, int))
    ensures
        scale3(dot3(e1, cross3(d, e2)), s) == crate::math::combo3(
            dot3(s, cross3(d, e2)),
            e1,
            dot3(d, cross3(s, e1)),
            e2,
            -dot3(e2, cross3(s, e1)),
            d,
        ),
{
    let h = cross3(d, e2);
    let q = cross3(s, e1);
    let g = cross3(e2, d);
    lemma_bac_cab(h, s, e1);
    lemma_bac_cab(q, e2, d);
    lemma_antisym(e1, h, e1);
    lemma_antisym(s, h, s);
    lemma_antisym(d, q, d);
    lemma_antisym(e2, q, e2);
    // h x q == q x g, as h == -g
    lemma_antisym(q, d, e2);
    lemma_antisym(q, h, q);
    lemma_neg_cross(g, q);
    assert(cross3(h, q) == cross3(q, g));
    let (det, u, v, t) = (dot3(e1, h), dot3(s, h), dot3(d, q), dot3(e2, q));
    assert(-(t * d.0) == (-t) * d.0 && -(t * d.1) == (-t) * d.1 && -(t * d.2) == (-t) * d.2) by (nonlinear_arith);
    assert(cross3(h, q) == sub3(scale3(det, s), scale3(u, e1)));
    assert(cross3(q, g) == sub3(scale3(v, e2), scale3(t, d)));
}

/// `(-x) x y == -(x x y)`, and `y x x == -(x x y)`.
proof fn lemma_neg_cross(x: (int, int, int), y: (int, int, int))
    ensures
        cross3(neg3(x), y) == neg3(cross3(x, y)),
        cross3(y, x) == neg3(cross3(x, y)),
{
    let (x0, x1, x2) = x;
    let (y0, y1, y2) = y;
    assert((-x1) * y2 - (-x2) * y1 == -(x1 * y2 - x2 * y1)) by (nonlinear_arith);
    assert((-x2) * y0 - (-x0) * y2 == -(x2 * y0 - x0 * y2)) by (nonlinear_arith);
    assert((-x0) * y1 - (-x1) * y0 == -(x0 * y1 - x1 * y0)) by (nonlinear_arith);
    lemma_antisym(x, y, x);
}

proof fn lemma_signed_component(sg: int, det: int, s: int, un: int, e1: int, vn: int, e2: int, tn: int, d: int)
    requires
        det * s == un * e1 + vn * e2 + (-tn) * d,
    ensures
        (sg * det) * s == (sg * un) * e1 + (sg * vn) * e2 - (sg * tn) * d,
{
    vstd::arithmetic::mul::lemma_mul_is_associative(sg, det, s);
    crate::math::lemma_dist3(sg, un * e1, vn * e2, (-tn) * d);
    vstd::arithmetic::mul::lemma_mul_is_associative(sg, un, e1);
    vstd::arithmetic::mul::lemma_mul_is_associative(sg, vn, e2);
    vstd::arithmetic::mul::lemma_mul_is_associative(sg, -tn, d);
    assert((sg * (-tn)) * d == -((sg * tn) * d)) by (nonlinear_arith);
}

/// Every hit lies in the triangle's box: the point the ray reaches is the corner mix with
/// weights `den - u`, `u`, `v` (over `den`) that Cramer's rule gives.
pub proof fn lemma_hit_in_box(tri: Triangle, ray: Ray)
    requires
        ray_hits(tri, ray),
    ensures
        tri.bounds_spec().line_point_inside(ray, hit_t(tri, ray), hit_den(tri, ray)),
{
    let (o, d, a) = (v3(ray.origin), v3(ray.direction), v3(tri.a));
    let (e1, e2) = (tri.edge1(), tri.edge2());
    let s = sub3(o, a);
    lemma_cramer(s, e1, e2, d);
    let det = mt_det(tri, ray);
    let sg = sign_of(det);
    let (un, vn, tn) = (mt_u(tri, ray), mt_v(tri, ray), mt_t(tri, ray));
    let (den, hu, hv, ht) = (hit_den(tri, ray), hit_u(tri, ray), hit_v(tri, ray), hit_t(tri, ray));
    lemma_signed_component(sg, det, s.0, un, e1.0, vn, e2.0, tn, d.0);
    lemma_signed_component(sg, det, s.1, un, e1.1, vn, e2.1, tn, d.1);
    lemma_signed_component(sg, det, s.2, un, e1.2, vn, e2.2, tn, d.2);
    vstd::arithmetic::mul::lemma_mul_is_distributive_sub(den, o.0, a.0);
    vstd::arithmetic::mul::lemma_mul_is_distributive_sub(den, o.1, a.1);
    vstd::arithmetic::mul::lemma_mul_is_distributive_sub(den, o.2, a.2);
    vstd::arithmetic::mul::lemma_mul_is_commutative(den, ht);
    lemma_triangle_in_bounds(tri, den - hu - hv, hu, hv);
    let b = tri.bounds_spec();
    lemma_axis_round_trip(den, den, ht, ht, o.0, d.0, a.0, tri.b.x as int, tri.c.x as int, hu, hv, b.min.x as int, b.max.x as int);
    lemma_axis_round_trip(den, den, ht, ht, o.1, d.1, a.1, tri.b.y as int, tri.c.y as int, hu, hv, b.min.y as int, b.max.y as int);
    lemma_axis_round_trip(den, den, ht, ht, o.2, d.2, a.2, tri.b.z as int, tri.c.z as int, hu, hv, b.min.z as int, b.max.z as int);
}

} // verus!
