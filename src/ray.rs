use vstd::prelude::*;

use crate::math::{fits_i32, wide_mul, IVec3};

verus! {

/// A finite ray: the points `origin + direction * t` for `0 < t <= length`.
///
/// Coordinates are integers in the level's fixed-point grid units; the parameter `t` of
/// a hit is an exact fraction.
#[derive(Debug, Copy, Clone)]
pub struct Ray {
    pub origin: IVec3,
    pub direction: IVec3,
    pub length: u32,
}

impl Ray {
    pub fn new(origin: IVec3, direction: IVec3, length: u32) -> (r: Self)
        ensures
            r.origin == origin,
            r.direction == direction,
            r.length == length,
    {
        Self { origin, direction, length }
    }

    /// The point at a whole-number parameter `t` along the ray: `origin + direction * t`.
    pub fn get_point(&self, t: i32) -> (r: IVec3)
        requires
            fits_i32(self.origin.x + self.direction.x * t),
            fits_i32(self.origin.y + self.direction.y * t),
            fits_i32(self.origin.z + self.direction.z * t),
        ensures
            r.x == self.origin.x + self.direction.x * t,
            r.y == self.origin.y + self.direction.y * t,
            r.z == self.origin.z + self.direction.z * t,
    {
        let x = self.origin.x as i64 + wide_mul(self.direction.x, t);
        let y = self.origin.y as i64 + wide_mul(self.direction.y, t);
        let z = self.origin.z as i64 + wide_mul(self.direction.z, t);
        IVec3 { x: x as i32, y: y as i32, z: z as i32 }
    }

    /// The point at parameter `t = num / den` along the ray, scaled by `den`, on one axis.
    pub open spec fn scaled_point(o: int, d: int, num: int, den: int) -> int {
        den * o + num * d
    }
}

} // verus!
