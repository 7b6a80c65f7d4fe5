use vstd::prelude::*;

use crate::math::{trunc_div, IVec3};
use crate::ray::Ray;

verus! {

/// A coordinate axis.
#[derive(Debug, Copy, Clone, PartialEq, Eq, Structural)]
pub enum Axis {
    X,
    Y,
    Z,
}

/// An axis-aligned box `[min, max]`, with `min <= max` on every axis when well formed.
#[derive(Debug, Copy, Clone, PartialEq, Eq, Structural)]
pub struct Bounds {
    pub min: IVec3,
    pub max: IVec3,
}

pub open spec fn min_int(a: int, b: int) -> int {
    if a <= b {
        a
    } else {
        b
    }
}

pub open spec fn max_int(a: int, b: int) -> int {
    if a >= b {
        a
    } else {
        b
    }
}

/// The lower end of the parameter interval in which the line `o + t * d` lies in
/// `[min, max]` on one axis, as a numerator over `|d|` (for `d != 0`).
pub open spec fn slab_lo(min: int, max: int, o: int, d: int) -> int {
    if d > 0 {
        min - o
    } else {
        o - max
    }
}

/// The upper end of the same interval, as a numerator over `|d|`.
pub open spec fn slab_hi(min: int, max: int, o: int, d: int) -> int {
    if d > 0 {
        max - o
    } else {
        o - min
    }
}

pub open spec fn abs_int(a: int) -> int {
    if a >= 0 {
        a
    } else {
        -a
    }
}

/// The interval of axis `i` starts no later than the interval of axis `j` ends; an axis
/// along which the line does not move has the whole line as its interval.
pub open spec fn slab_before(
    min_i: int,
    max_i: int,
    o_i: int,
    d_i: int,
    min_j: int,
    max_j: int,
    o_j: int,
    d_j: int,
) -> bool {
    d_i == 0 || d_j == 0 || slab_lo(min_i, max_i, o_i, d_i) * abs_int(d_j) <= slab_hi(
        min_j,
        max_j,
        o_j,
        d_j,
    ) * abs_int(d_i)
}

/// An axis along which the line does not move holds the line only if the origin lies
/// within the box on it.
pub open spec fn slab_still_ok(min: int, max: int, o: int, d: int) -> bool {
    d != 0 || (min <= o && o <= max)
}

impl Bounds {
    pub open spec fn wf(self) -> bool {
        self.min.x <= self.max.x && self.min.y <= self.max.y && self.min.z <= self.max.z
    }

    pub open spec fn contains_point(self, p: IVec3) -> bool {
        self.min.x <= p.x <= self.max.x && self.min.y <= p.y <= self.max.y && self.min.z <= p.z
            <= self.max.z
    }

    /// The point `(x, y, z) / den` lies in the box (`den > 0`).
    pub open spec fn contains_scaled(self, x: int, y: int, z: int, den: int) -> bool {
        den * self.min.x <= x <= den * self.max.x && den * self.min.y <= y <= den * self.max.y
            && den * self.min.z <= z <= den * self.max.z
    }

    /// `o` lies inside `self`.
    pub open spec fn contains_box(self, o: Bounds) -> bool {
        self.min.x <= o.min.x && self.min.y <= o.min.y && self.min.z <= o.min.z && o.max.x
            <= self.max.x && o.max.y <= self.max.y && o.max.z <= self.max.z
    }

    pub open spec fn overlaps_spec(self, o: Bounds) -> bool {
        self.min.x <= o.max.x && o.min.x <= self.max.x && self.min.y <= o.max.y && o.min.y
            <= self.max.y && self.min.z <= o.max.z && o.min.z <= self.max.z
    }

    pub open spec fn join_spec(self, o: Bounds) -> Bounds {
        Bounds {
            min: IVec3 {
                x: min_int(self.min.x as int, o.min.x as int) as i32,
                y: min_int(self.min.y as int, o.min.y as int) as i32,
                z: min_int(self.min.z as int, o.min.z as int) as i32,
            },
            max: IVec3 {
                x: max_int(self.max.x as int, o.max.x as int) as i32,
                y: max_int(self.max.y as int, o.max.y as int) as i32,
                z: max_int(self.max.z as int, o.max.z as int) as i32,
            },
        }
    }

    /// Some point of the line through the ray lies in the box: a point at a parameter
    /// `num / den`, scaled by `den`.
    pub open spec fn line_point_inside(self, ray: Ray, num: int, den: int) -> bool {
        den > 0 && self.contains_scaled(
            Ray::scaled_point(ray.origin.x as int, ray.direction.x as int, num, den),
            Ray::scaled_point(ray.origin.y as int, ray.direction.y as int, num, den),
            Ray::scaled_point(ray.origin.z as int, ray.direction.z as int, num, den),
            den,
        )
    }

    pub open spec fn line_meets(self, ray: Ray) -> bool {
        exists|num: int, den: int| #[trigger] self.line_point_inside(ray, num, den)
    }

    /// The three per-axis parameter intervals of the slab method have a common point.
    pub open spec fn slabs_meet(self, ray: Ray) -> bool {
        let (o, d) = (ray.origin, ray.direction);
        let (lo, hi) = (self.min, self.max);
        &&& slab_still_ok(lo.x as int, hi.x as int, o.x as int, d.x as int)
        &&& slab_still_ok(lo.y as int, hi.y as int, o.y as int, d.y as int)
        &&& slab_still_ok(lo.z as int, hi.z as int, o.z as int, d.z as int)
        &&& slab_before(
            lo.x as int,
            hi.x as int,
            o.x as int,
            d.x as int,
            lo.y as int,
            hi.y as int,
            o.y as int,
            d.y as int,
        )
        &&& slab_before(
            lo.y as int,
            hi.y as int,
            o.y as int,
            d.y as int,
            lo.x as int,
            hi.x as int,
            o.x as int,
            d.x as int,
        )
        &&& slab_before(
            lo.x as int,
            hi.x as int,
            o.x as int,
            d.x as int,
            lo.z as int,
            hi.z as int,
            o.z as int,
            d.z as int,
        )
        &&& slab_before(
            lo.z as int,
            hi.z as int,
            o.z as int,
            d.z as int,
            lo.x as int,
            hi.x as int,
            o.x as int,
            d.x as int,
        )
        &&& slab_before(
            lo.y as int,
            hi.y as int,
            o.y as int,
            d.y as int,
            lo.z as int,
            hi.z as int,
            o.z as int,
            d.z as int,
        )
        &&& slab_before(
            lo.z as int,
            hi.z as int,
            o.z as int,
            d.z as int,
            lo.y as int,
            hi.y as int,
            o.y as int,
            d.y as int,
        )
    }

    pub open spec fn largest_direction_spec(self) -> Axis {
        let ex = self.max.x - self.min.x;
        let ey = self.max.y - self.min.y;
        let ez = self.max.z - self.min.z;
        if ex >= ey && ex >= ez {
            Axis::X
        } else if ez >= ey {
            Axis::Z
        } else {
            Axis::Y
        }
    }

    pub open spec fn surface_area_spec(self) -> int {
        let dx = self.max.x - self.min.x;
        let dy = self.max.y - self.min.y;
        let dz = self.max.z - self.min.z;
        2 * (dx * dy + dy * dz + dz * dx)
    }

    /// Builds a box from its corners; the caller sees to `min <= max`.
    pub fn new(min: IVec3, max: IVec3) -> (r: Self)
        ensures
            r.min == min,
            r.max == max,
    {
        Self { min, max }
    }

    /// The centre of the box, rounded toward zero on each axis.
    pub fn centroid(&self) -> (r: IVec3)
        ensures
            r.x == trunc_div(self.min.x + self.max.x, 2),
            r.y == trunc_div(self.min.y + self.max.y, 2),
            r.z == trunc_div(self.min.z + self.max.z, 2),
    {
        let x = ((self.min.x as i64 + self.max.x as i64) / 2) as i32;
        let y = ((self.min.y as i64 + self.max.y as i64) / 2) as i32;
        let z = ((self.min.z as i64 + self.max.z as i64) / 2) as i32;
        IVec3 { x, y, z }
    }

    /// Whether the line through the ray passes through the box (slab method, exact).
    pub fn intersects(&self, ray: &Ray) -> (r: bool)
        requires
            self.wf(),
        ensures
            r == self.slabs_meet(*ray),
            r == self.line_meets(*ray),
    {
        proof {
            if self.slabs_meet(*ray) {
                lemma_slabs_meet_line_inside(*self, *ray);
            }
            if self.line_meets(*ray) {
                let (num, den) = choose|num: int, den: int| #[trigger] self.line_point_inside(*ray, num, den);
                lemma_line_inside_meets_slabs(*self, *ray, num, den);
            }
        }
        let (o, d) = (ray.origin, ray.direction);
        let (lo, hi) = (self.min, self.max);
        still_ok(lo.x, hi.x, o.x, d.x) && still_ok(lo.y, hi.y, o.y, d.y) && still_ok(
            lo.z,
            hi.z,
            o.z,
            d.z,
        ) && before(lo.x, hi.x, o.x, d.x, lo.y, hi.y, o.y, d.y) && before(
            lo.y,
            hi.y,
            o.y,
            d.y,
            lo.x,
            hi.x,
            o.x,
            d.x,
        ) && before(lo.x, hi.x, o.x, d.x, lo.z, hi.z, o.z, d.z) && before(
            lo.z,
            hi.z,
            o.z,
            d.z,
            lo.x,
            hi.x,
            o.x,
            d.x,
        ) && before(lo.y, hi.y, o.y, d.y, lo.z, hi.z, o.z, d.z) && before(
            lo.z,
            hi.z,
            o.z,
            d.z,
            lo.y,
            hi.y,
            o.y,
            d.y,
        )
    }

    /// The smallest box holding both boxes.
    pub fn join(&self, other: &Self) -> (r: Self)
        ensures
            r == self.join_spec(*other),
    {
        Self {
            min: IVec3 {
                x: if self.min.x <= other.min.x {
                    self.min.x
                } else {
                    other.min.x
                },
                y: if self.min.y <= other.min.y {
                    self.min.y
                } else {
                    other.min.y
                },
                z: if self.min.z <= other.min.z {
                    self.min.z
                } else {
                    other.min.z
                },
            },
            max: IVec3 {
                x: if self.max.x >= other.max.x {
                    self.max.x
                } else {
                    other.max.x
                },
                y: if self.max.y >= other.max.y {
                    self.max.y
                } else {
                    other.max.y
                },
                z: if self.max.z >= other.max.z {
                    self.max.z
                } else {
                    other.max.z
                },
            },
        }
    }

    /// The axis of greatest extent; ties go to X first, then to Z, then to Y.
    pub fn largest_direction(&self) -> (r: Axis)
        ensures
            r == self.largest_direction_spec(),
    {
        let ex = self.max.x as i64 - self.min.x as i64;
        let ey = self.max.y as i64 - self.min.y as i64;
        let ez = self.max.z as i64 - self.min.z as i64;
        if ex >= ey && ex >= ez {
            Axis::X
        } else if ez >= ey {
            Axis::Z
        } else {
            Axis::Y
        }
    }

    /// `2 * (dx * dy + dy * dz + dz * dx)` for the extents `dx`, `dy`, `dz`.
    pub fn surface_area(&self) -> (r: i128)
        ensures
            r == self.surface_area_spec(),
            -0x80_0000_0000_0000_0000 <= r <= 0x80_0000_0000_0000_0000,
    {
        let dx = self.max.x as i64 - self.min.x as i64;
        let dy = self.max.y as i64 - self.min.y as i64;
        let dz = self.max.z as i64 - self.min.z as i64;
        let a = wide_mul64(dx, dy);
        let b = wide_mul64(dy, dz);
        let c = wide_mul64(dz, dx);
        2 * (a + b + c)
    }

    /// Whether the two boxes share a point (touching counts).
    pub fn overlaps(&self, other: &Self) -> (r: bool)
        ensures
            r == self.overlaps_spec(*other),
    {
        self.min.x <= other.max.x && other.min.x <= self.max.x && self.min.y <= other.max.y
            && other.min.y <= self.max.y && self.min.z <= other.max.z && other.min.z
            <= self.max.z
    }
}

/// The product of two differences of `i32`, computed without overflow.
fn wide_mul64(a: i64, b: i64) -> (r: i128)
    requires
        -0x1_0000_0000 <= a <= 0x1_0000_0000,
        -0x1_0000_0000 <= b <= 0x1_0000_0000,
    ensures
        r == a * b,
        -0x1_0000_0000_0000_0000 <= r <= 0x1_0000_0000_0000_0000,
{
    proof {
        assert(-0x1_0000_0000_0000_0000 <= a * b <= 0x1_0000_0000_0000_0000) by (nonlinear_arith)
            requires
                -0x1_0000_0000 <= a <= 0x1_0000_0000,
                -0x1_0000_0000 <= b <= 0x1_0000_0000,
        ;
    }
    (a as i128) * (b as i128)
}

fn still_ok(min: i32, max: i32, o: i32, d: i32) -> (r: bool)
    ensures
        r == slab_still_ok(min as int, max as int, o as int, d as int),
{
    d != 0 || (min <= o && o <= max)
}

fn before(min_i: i32, max_i: i32, o_i: i32, d_i: i32, min_j: i32, max_j: i32, o_j: i32, d_j: i32) -> (r:
    bool)
    ensures
        r == slab_before(
            min_i as int,
            max_i as int,
            o_i as int,
            d_i as int,
            min_j as int,
            max_j as int,
            o_j as int,
            d_j as int,
        ),
{
    if d_i == 0 || d_j == 0 {
        return true;
    }
    let lo_i: i64 = if d_i > 0 {
        min_i as i64 - o_i as i64
    } else {
        o_i as i64 - max_i as i64
    };
    let hi_j: i64 = if d_j > 0 {
        max_j as i64 - o_j as i64
    } else {
        o_j as i64 - min_j as i64
    };
    let den_i: i64 = if d_i >= 0 {
        d_i as i64
    } else {
        -(d_i as i64)
    };
    let den_j: i64 = if d_j >= 0 {
        d_j as i64
    } else {
        -(d_j as i64)
    };
    wide_mul64(lo_i, den_j) <= wide_mul64(hi_j, den_i)
}

/// On one axis, a point of the line inside `[min, max]` lies in that axis's parameter interval.
proof fn lemma_axis_interval(min: int, max: int, o: int, d: int, num: int, den: int)
    requires
        den > 0,
        den * min <= Ray::scaled_point(o, d, num, den) <= den * max,
    ensures
        slab_still_ok(min, max, o, d),
        d != 0 ==> slab_lo(min, max, o, d) * den <= num * abs_int(d),
        d != 0 ==> num * abs_int(d) <= slab_hi(min, max, o, d) * den,
{
    if d == 0 {
        assert(den * min <= den * o && den * o <= den * max);
        assert(min <= o) by (nonlinear_arith)
            requires
                den > 0,
                den * min <= den * o,
        ;
        assert(o <= max) by (nonlinear_arith)
            requires
                den > 0,
                den * o <= den * max,
        ;
    } else if d > 0 {
        assert((min - o) * den == den * min - den * o) by (nonlinear_arith);
        assert((max - o) * den == den * max - den * o) by (nonlinear_arith);
    } else {
        assert((o - max) * den == den * o - den * max) by (nonlinear_arith);
        assert((o - min) * den == den * o - den * min) by (nonlinear_arith);
        assert(num * (-d) == -(num * d)) by (nonlinear_arith);
    }
}

/// Two parameter intervals that share the parameter `num / den` are ordered as the slab
/// method asks.
proof fn lemma_shared_parameter(lo_i: int, den_i: int, hi_j: int, den_j: int, num: int, den: int)
    requires
        den > 0,
        den_i > 0,
        den_j > 0,
        lo_i * den <= num * den_i,
        num * den_j <= hi_j * den,
    ensures
        lo_i * den_j <= hi_j * den_i,
{
    assert(lo_i * den * den_j <= num * den_i * den_j) by (nonlinear_arith)
        requires
            lo_i * den <= num * den_i,
            den_j > 0,
    ;
    assert(num * den_j * den_i <= hi_j * den * den_i) by (nonlinear_arith)
        requires
            num * den_j <= hi_j * den,
            den_i > 0,
    ;
    assert(num * den_i * den_j == num * den_j * den_i) by (nonlinear_arith);
    assert(den * (lo_i * den_j) <= den * (hi_j * den_i)) by (nonlinear_arith)
        requires
            lo_i * den * den_j <= hi_j * den * den_i,
    ;
    assert(lo_i * den_j <= hi_j * den_i) by (nonlinear_arith)
        requires
            den > 0,
            den * (lo_i * den_j) <= den * (hi_j * den_i),
    ;
}

proof fn lemma_pair_before(
    min_i: int,
    max_i: int,
    o_i: int,
    d_i: int,
    min_j: int,
    max_j: int,
    o_j: int,
    d_j: int,
    num: int,
    den: int,
)
    requires
        den > 0,
        den * min_i <= Ray::scaled_point(o_i, d_i, num, den) <= den * max_i,
        den * min_j <= Ray::scaled_point(o_j, d_j, num, den) <= den * max_j,
    ensures
        slab_before(min_i, max_i, o_i, d_i, min_j, max_j, o_j, d_j),
{
    lemma_axis_interval(min_i, max_i, o_i, d_i, num, den);
    lemma_axis_interval(min_j, max_j, o_j, d_j, num, den);
    if d_i != 0 && d_j != 0 {
        lemma_shared_parameter(
            slab_lo(min_i, max_i, o_i, d_i),
            abs_int(d_i),
            slab_hi(min_j, max_j, o_j, d_j),
            abs_int(d_j),
            num,
            den,
        );
    }
}

/// The slab test never misses: if some point of the ray's line lies in the box, the
/// slab method reports an intersection.
pub proof fn lemma_line_inside_meets_slabs(b: Bounds, ray: Ray, num: int, den: int)
    requires
        b.line_point_inside(ray, num, den),
    ensures
        b.slabs_meet(ray),
{
    let (o, d, lo, hi) = (ray.origin, ray.direction, b.min, b.max);
    lemma_axis_interval(lo.x as int, hi.x as int, o.x as int, d.x as int, num, den);
    lemma_axis_interval(lo.y as int, hi.y as int, o.y as int, d.y as int, num, den);
    lemma_axis_interval(lo.z as int, hi.z as int, o.z as int, d.z as int, num, den);
    lemma_pair_before(lo.x as int, hi.x as int, o.x as int, d.x as int, lo.y as int, hi.y as int, o.y as int, d.y as int, num, den);
    lemma_pair_before(lo.y as int, hi.y as int, o.y as int, d.y as int, lo.x as int, hi.x as int, o.x as int, d.x as int, num, den);
    lemma_pair_before(lo.x as int, hi.x as int, o.x as int, d.x as int, lo.z as int, hi.z as int, o.z as int, d.z as int, num, den);
    lemma_pair_before(lo.z as int, hi.z as int, o.z as int, d.z as int, lo.x as int, hi.x as int, o.x as int, d.x as int, num, den);
    lemma_pair_before(lo.y as int, hi.y as int, o.y as int, d.y as int, lo.z as int, hi.z as int, o.z as int, d.z as int, num, den);
    lemma_pair_before(lo.z as int, hi.z as int, o.z as int, d.z as int, lo.y as int, hi.y as int, o.y as int, d.y as int, num, den);
}

/// On one axis, the parameter `lo_m / den_m` lies in the axis's interval when it is not
/// before the interval's start nor after its end.
proof fn lemma_axis_witness(min: int, max: int, o: int, d: int, lo_m: int, den_m: int)
    requires
        den_m > 0,
        slab_still_ok(min, max, o, d),
        d != 0 ==> slab_lo(min, max, o, d) * den_m <= lo_m * abs_int(d),
        d != 0 ==> lo_m * abs_int(d) <= slab_hi(min, max, o, d) * den_m,
    ensures
        den_m * min <= Ray::scaled_point(o, d, lo_m, den_m) <= den_m * max,
{
    if d == 0 {
        assert(den_m * min <= den_m * o <= den_m * max) by (nonlinear_arith)
            requires
                den_m > 0,
                min <= o <= max,
        ;
        assert(lo_m * d == 0) by (nonlinear_arith)
            requires
                d == 0,
        ;
    } else if d > 0 {
        assert((min - o) * den_m == den_m * min - den_m * o) by (nonlinear_arith);
        assert((max - o) * den_m == den_m * max - den_m * o) by (nonlinear_arith);
    } else {
        assert((o - max) * den_m == den_m * o - den_m * max) by (nonlinear_arith);
        assert((o - min) * den_m == den_m * o - den_m * min) by (nonlinear_arith);
        assert(lo_m * (-d) == -(lo_m * d)) by (nonlinear_arith);
    }
}

/// Rational order of interval starts is transitive.
proof fn lemma_before_transitive(a: int, da: int, b: int, db: int, c: int, dc: int)
    requires
        da > 0,
        db > 0,
        dc > 0,
        a * db <= b * da,
        b * dc <= c * db,
    ensures
        a * dc <= c * da,
{
    assert(a * db * dc <= b * da * dc) by (nonlinear_arith)
        requires
            a * db <= b * da,
            dc > 0,
    ;
    assert(b * dc * da <= c * db * da) by (nonlinear_arith)
        requires
            b * dc <= c * db,
            da > 0,
    ;
    assert(db * (a * dc) <= db * (c * da)) by (nonlinear_arith)
        requires
            a * db * dc <= b * da * dc,
            b * dc * da <= c * db * da,
    ;
    assert(a * dc <= c * da) by (nonlinear_arith)
        requires
            db > 0,
            db * (a * dc) <= db * (c * da),
    ;
}

/// The slab method never reports a crossing that is not there: when the intervals meet,
/// the line through the ray has a point in the box.
pub proof fn lemma_slabs_meet_line_inside(b: Bounds, ray: Ray)
    requires
        b.wf(),
        b.slabs_meet(ray),
    ensures
        b.line_meets(ray),
{
    let (o, d, lo, hi) = (ray.origin, ray.direction, b.min, b.max);
    let (ox, oy, oz) = (o.x as int, o.y as int, o.z as int);
    let (dx, dy, dz) = (d.x as int, d.y as int, d.z as int);
    let (nx, xx) = (lo.x as int, hi.x as int);
    let (ny, xy) = (lo.y as int, hi.y as int);
    let (nz, xz) = (lo.z as int, hi.z as int);
    let (lx, ly, lz) = (slab_lo(nx, xx, ox, dx), slab_lo(ny, xy, oy, dy), slab_lo(nz, xz, oz, dz));
    let (hx, hy, hz) = (slab_hi(nx, xx, ox, dx), slab_hi(ny, xy, oy, dy), slab_hi(nz, xz, oz, dz));
    let (ax, ay, az) = (abs_int(dx), abs_int(dy), abs_int(dz));
    // each moving axis's own interval is not empty
    assert(lx <= hx && ly <= hy && lz <= hz);
    assert(lx * ax <= hx * ax) by (nonlinear_arith)
        requires lx <= hx, ax >= 0;
    assert(ly * ay <= hy * ay) by (nonlinear_arith)
        requires ly <= hy, ay >= 0;
    assert(lz * az <= hz * az) by (nonlinear_arith)
        requires lz <= hz, az >= 0;
    // the witness: the latest start among the moving axes, or the origin when none moves
    let x_last = dx != 0 && (dy == 0 || ly * ax <= lx * ay) && (dz == 0 || lz * ax <= lx * az);
    let y_last = dy != 0 && (dz == 0 || lz * ay <= ly * az) && (dx == 0 || lx * ay <= ly * ax);
    if dx == 0 && dy == 0 && dz == 0 {
        lemma_axis_witness(nx, xx, ox, dx, 0, 1);
        lemma_axis_witness(ny, xy, oy, dy, 0, 1);
        lemma_axis_witness(nz, xz, oz, dz, 0, 1);
        assert(b.line_point_inside(ray, 0, 1));
    } else if x_last {
        lemma_axis_witness(nx, xx, ox, dx, lx, ax);
        lemma_axis_witness(ny, xy, oy, dy, lx, ax);
        lemma_axis_witness(nz, xz, oz, dz, lx, ax);
        assert(b.line_point_inside(ray, lx, ax));
    } else if y_last {
        lemma_axis_witness(nx, xx, ox, dx, ly, ay);
        lemma_axis_witness(ny, xy, oy, dy, ly, ay);
        lemma_axis_witness(nz, xz, oz, dz, ly, ay);
        assert(b.line_point_inside(ray, ly, ay));
    } else {
        if dx != 0 && dy != 0 && dz != 0 {
            if lx * ay <= ly * ax && ly * az <= lz * ay {
                lemma_before_transitive(lx, ax, ly, ay, lz, az);
            }
            if ly * ax <= lx * ay && lx * az <= lz * ax {
                lemma_before_transitive(ly, ay, lx, ax, lz, az);
            }
        }
        assert(dz != 0);
        lemma_axis_witness(nx, xx, ox, dx, lz, az);
        lemma_axis_witness(ny, xy, oy, dy, lz, az);
        lemma_axis_witness(nz, xz, oz, dz, lz, az);
        assert(b.line_point_inside(ray, lz, az));
    }
}

/// `join` holds both boxes.
pub proof fn lemma_join_contains(a: Bounds, b: Bounds)
    ensures
        a.join_spec(b).contains_box(a),
        a.join_spec(b).contains_box(b),
        a.wf() ==> a.join_spec(b).wf(),
{
}

/// Joining a box with itself gives the same box.
pub proof fn lemma_join_idempotent(a: Bounds)
    ensures
        a.join_spec(a) == a,
{
}

/// Joining is associative.
pub proof fn lemma_join_associative(a: Bounds, b: Bounds, c: Bounds)
    ensures
        a.join_spec(b).join_spec(c) == a.join_spec(b.join_spec(c)),
{
}

/// Joining is commutative.
pub proof fn lemma_join_commutative(a: Bounds, b: Bounds)
    ensures
        a.join_spec(b) == b.join_spec(a),
{
}

} // verus!
