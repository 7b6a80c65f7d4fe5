use vstd::prelude::*;

verus! {

/// Quotient of `a` by `b`, rounded toward zero, as the `/` of Rust's integers computes it.
pub open spec fn trunc_div(a: int, b: int) -> int {
    if a >= 0 {
        a / b
    } else {
        -((-a) / b)
    }
}

/// Whether `a` fits in an `i32`.
pub open spec fn fits_i32(a: int) -> bool {
    i32::MIN <= a <= i32::MAX
}

/// Whether `a / b` is defined on `i32`: a nonzero divisor, and no `i32::MIN / -1`.
pub open spec fn div_ok_i32(a: int, b: int) -> bool {
    b != 0 && !(a == i32::MIN && b == -1)
}

/// The product of two `i32`, computed without overflow.
pub fn wide_mul(a: i32, b: i32) -> (r: i64)
    ensures
        r == a * b,
        -0x4000_0000_0000_0000 <= r <= 0x4000_0000_0000_0000,
{
    proof {
        let (ia, ib) = (a as int, b as int);
        assert(-0x8000_0000 <= ia <= 0x8000_0000 && -0x8000_0000 <= ib <= 0x8000_0000);
        assert(-0x4000_0000_0000_0000 <= ia * ib <= 0x4000_0000_0000_0000) by (nonlinear_arith)
            requires
                -0x8000_0000 <= ia <= 0x8000_0000,
                -0x8000_0000 <= ib <= 0x8000_0000,
        ;
    }
    (a as i64) * (b as i64)
}

/// A vector of three integers.
#[derive(Debug, Copy, Clone, PartialEq, Eq, Structural)]
pub struct IVec3 {
    pub x: i32,
    pub y: i32,
    pub z: i32,
}

/// A vector of two integers.
#[derive(Debug, Copy, Clone, PartialEq, Eq, Structural)]
pub struct IVec2 {
    pub x: i32,
    pub y: i32,
}

impl IVec3 {
    pub fn new(x: i32, y: i32, z: i32) -> (r: Self)
        ensures
            r.x == x && r.y == y && r.z == z,
    {
        Self { x, y, z }
    }

    pub fn unit_x() -> (r: Self)
        ensures
            r.x == 1 && r.y == 0 && r.z == 0,
    {
        Self { x: 1, y: 0, z: 0 }
    }

    pub fn unit_y() -> (r: Self)
        ensures
            r.x == 0 && r.y == 1 && r.z == 0,
    {
        Self { x: 0, y: 1, z: 0 }
    }

    pub fn unit_z() -> (r: Self)
        ensures
            r.x == 0 && r.y == 0 && r.z == 1,
    {
        Self { x: 0, y: 0, z: 1 }
    }

    pub fn splat(num: i32) -> (r: Self)
        ensures
            r.x == num && r.y == num && r.z == num,
    {
        Self { x: num, y: num, z: num }
    }

    /// The three components of the cross product, as integers.
    pub open spec fn cross_x(self, o: Self) -> int {
        self.y * o.z - self.z * o.y
    }

    pub open spec fn cross_y(self, o: Self) -> int {
        self.z * o.x - self.x * o.z
    }

    pub open spec fn cross_z(self, o: Self) -> int {
        self.x * o.y - self.y * o.x
    }

    /// The cross product; every component must fit in an `i32`.
    pub fn cross(self, other: Self) -> (r: Self)
        requires
            fits_i32(self.cross_x(other)),
            fits_i32(self.cross_y(other)),
            fits_i32(self.cross_z(other)),
        ensures
            r.x == self.cross_x(other),
            r.y == self.cross_y(other),
            r.z == self.cross_z(other),
    {
        let x = wide_mul(self.y, other.z) - wide_mul(self.z, other.y);
        let y = wide_mul(self.z, other.x) - wide_mul(self.x, other.z);
        let z = wide_mul(self.x, other.y) - wide_mul(self.y, other.x);
        Self { x: x as i32, y: y as i32, z: z as i32 }
    }

    pub fn truncate(self) -> (r: IVec2)
        ensures
            r.x == self.x && r.y == self.y,
    {
        IVec2 { x: self.x, y: self.y }
    }
}

impl IVec2 {
    pub fn new(x: i32, y: i32) -> (r: Self)
        ensures
            r.x == x && r.y == y,
    {
        Self { x, y }
    }

    pub fn unit_x() -> (r: Self)
        ensures
            r.x == 1 && r.y == 0,
    {
        Self { x: 1, y: 0 }
    }

    pub fn unit_y() -> (r: Self)
        ensures
            r.x == 0 && r.y == 1,
    {
        Self { x: 0, y: 1 }
    }

    pub fn splat(num: i32) -> (r: Self)
        ensures
            r.x == num && r.y == num,
    {
        Self { x: num, y: num }
    }

    pub open spec fn perp_dot_spec(self, o: Self) -> int {
        self.x * o.y - self.y * o.x
    }

    /// The two-dimensional cross product `x * o.y - y * o.x`; it must fit in an `i32`.
    pub fn perp_dot(self, other: Self) -> (r: i32)
        requires
            fits_i32(self.perp_dot_spec(other)),
        ensures
            r == self.perp_dot_spec(other),
    {
        let v = wide_mul(self.x, other.y) - wide_mul(self.y, other.x);
        v as i32
    }

    pub fn extend(self, z: i32) -> (r: IVec3)
        ensures
            r.x == self.x && r.y == self.y && r.z == z,
    {
        IVec3 { x: self.x, y: self.y, z }
    }
}

impl std::ops::Add for IVec3 {
    type Output = Self;

    fn add(self, other: Self) -> (r: Self) {
        Self { x: self.x + other.x, y: self.y + other.y, z: self.z + other.z }
    }
}

impl vstd::std_specs::ops::AddSpecImpl for IVec3 {
    open spec fn obeys_add_spec() -> bool {
        true
    }

    open spec fn add_req(self, o: Self) -> bool {
        fits_i32(self.x + o.x) && fits_i32(self.y + o.y) && fits_i32(self.z + o.z)
    }

    open spec fn add_spec(self, o: Self) -> Self {
        IVec3 { x: (self.x + o.x) as i32, y: (self.y + o.y) as i32, z: (self.z + o.z) as i32 }
    }
}

impl std::ops::Sub for IVec3 {
    type Output = Self;

    fn sub(self, other: Self) -> (r: Self) {
        Self { x: self.x - other.x, y: self.y - other.y, z: self.z - other.z }
    }
}

impl vstd::std_specs::ops::SubSpecImpl for IVec3 {
    open spec fn obeys_sub_spec() -> bool {
        true
    }

    open spec fn sub_req(self, o: Self) -> bool {
        fits_i32(self.x - o.x) && fits_i32(self.y - o.y) && fits_i32(self.z - o.z)
    }

    open spec fn sub_spec(self, o: Self) -> Self {
        IVec3 { x: (self.x - o.x) as i32, y: (self.y - o.y) as i32, z: (self.z - o.z) as i32 }
    }
}

impl std::ops::Mul<i32> for IVec3 {
    type Output = Self;

    fn mul(self, other: i32) -> (r: Self) {
        Self { x: self.x * other, y: self.y * other, z: self.z * other }
    }
}

impl vstd::std_specs::ops::MulSpecImpl<i32> for IVec3 {
    open spec fn obeys_mul_spec() -> bool {
        true
    }

    open spec fn mul_req(self, k: i32) -> bool {
        fits_i32(self.x * k) && fits_i32(self.y * k) && fits_i32(self.z * k)
    }

    open spec fn mul_spec(self, k: i32) -> Self {
        IVec3 { x: (self.x * k) as i32, y: (self.y * k) as i32, z: (self.z * k) as i32 }
    }
}

impl std::ops::Div<i32> for IVec3 {
    type Output = Self;

    fn div(self, other: i32) -> (r: Self) {
        Self { x: self.x / other, y: self.y / other, z: self.z / other }
    }
}

impl vstd::std_specs::ops::DivSpecImpl<i32> for IVec3 {
    open spec fn obeys_div_spec() -> bool {
        true
    }

    open spec fn div_req(self, k: i32) -> bool {
        div_ok_i32(self.x as int, k as int) && div_ok_i32(self.y as int, k as int)
            && div_ok_i32(self.z as int, k as int)
    }

    open spec fn div_spec(self, k: i32) -> Self {
        IVec3 {
            x: trunc_div(self.x as int, k as int) as i32,
            y: trunc_div(self.y as int, k as int) as i32,
            z: trunc_div(self.z as int, k as int) as i32,
        }
    }
}

impl std::ops::Add for IVec2 {
    type Output = Self;

    fn add(self, other: Self) -> (r: Self) {
        Self { x: self.x + other.x, y: self.y + other.y }
    }
}

impl vstd::std_specs::ops::AddSpecImpl for IVec2 {
    open spec fn obeys_add_spec() -> bool {
        true
    }

    open spec fn add_req(self, o: Self) -> bool {
        fits_i32(self.x + o.x) && fits_i32(self.y + o.y)
    }

    open spec fn add_spec(self, o: Self) -> Self {
        IVec2 { x: (self.x + o.x) as i32, y: (self.y + o.y) as i32 }
    }
}

impl std::ops::Sub for IVec2 {
    type Output = Self;

    fn sub(self, other: Self) -> (r: Self) {
        Self { x: self.x - other.x, y: self.y - other.y }
    }
}

impl vstd::std_specs::ops::SubSpecImpl for IVec2 {
    open spec fn obeys_sub_spec() -> bool {
        true
    }

    open spec fn sub_req(self, o: Self) -> bool {
        fits_i32(self.x - o.x) && fits_i32(self.y - o.y)
    }

    open spec fn sub_spec(self, o: Self) -> Self {
        IVec2 { x: (self.x - o.x) as i32, y: (self.y - o.y) as i32 }
    }
}

impl std::ops::Mul<i32> for IVec2 {
    type Output = Self;

    fn mul(self, other: i32) -> (r: Self) {
        Self { x: self.x * other, y: self.y * other }
    }
}

impl vstd::std_specs::ops::MulSpecImpl<i32> for IVec2 {
    open spec fn obeys_mul_spec() -> bool {
        true
    }

    open spec fn mul_req(self, k: i32) -> bool {
        fits_i32(self.x * k) && fits_i32(self.y * k)
    }

    open spec fn mul_spec(self, k: i32) -> Self {
        IVec2 { x: (self.x * k) as i32, y: (self.y * k) as i32 }
    }
}

impl std::ops::Div<i32> for IVec2 {
    type Output = Self;

    fn div(self, other: i32) -> (r: Self) {
        Self { x: self.x / other, y: self.y / other }
    }
}

impl vstd::std_specs::ops::DivSpecImpl<i32> for IVec2 {
    open spec fn obeys_div_spec() -> bool {
        true
    }

    open spec fn div_req(self, k: i32) -> bool {
        div_ok_i32(self.x as int, k as int) && div_ok_i32(self.y as int, k as int)
    }

    open spec fn div_spec(self, k: i32) -> Self {
        IVec2 {
            x: trunc_div(self.x as int, k as int) as i32,
            y: trunc_div(self.y as int, k as int) as i32,
        }
    }
}

/// Largest coordinate magnitude of a point in the level's grid: the exact ray and sphere
/// tests keep all their intermediate products within 128 bits for such points.
pub const COORD_LIMIT: i32 = 65536;

/// A point or vector whose coordinates lie within `[-COORD_LIMIT, COORD_LIMIT]`.
pub open spec fn in_grid(v: IVec3) -> bool {
    -COORD_LIMIT <= v.x <= COORD_LIMIT && -COORD_LIMIT <= v.y <= COORD_LIMIT && -COORD_LIMIT
        <= v.z <= COORD_LIMIT
}

/// A vector of three wide integers, for exact products of grid coordinates.
#[derive(Debug, Copy, Clone, PartialEq, Eq, Structural)]
pub struct WideVec3 {
    pub x: i128,
    pub y: i128,
    pub z: i128,
}

pub open spec fn v3(v: IVec3) -> (int, int, int) {
    (v.x as int, v.y as int, v.z as int)
}

pub open spec fn w3(v: WideVec3) -> (int, int, int) {
    (v.x as int, v.y as int, v.z as int)
}

pub open spec fn add3(a: (int, int, int), b: (int, int, int)) -> (int, int, int) {
    (a.0 + b.0, a.1 + b.1, a.2 + b.2)
}

pub open spec fn sub3(a: (int, int, int), b: (int, int, int)) -> (int, int, int) {
    (a.0 - b.0, a.1 - b.1, a.2 - b.2)
}

pub open spec fn scale3(k: int, a: (int, int, int)) -> (int, int, int) {
    (k * a.0, k * a.1, k * a.2)
}

pub open spec fn neg3(a: (int, int, int)) -> (int, int, int) {
    (-a.0, -a.1, -a.2)
}

pub open spec fn dot3(a: (int, int, int), b: (int, int, int)) -> int {
    a.0 * b.0 + a.1 * b.1 + a.2 * b.2
}

pub open spec fn cross3(a: (int, int, int), b: (int, int, int)) -> (int, int, int) {
    (a.1 * b.2 - a.2 * b.1, a.2 * b.0 - a.0 * b.2, a.0 * b.1 - a.1 * b.0)
}

/// Every component of `v` has magnitude at most `m`.
pub open spec fn bounded3(v: (int, int, int), m: int) -> bool {
    -m <= v.0 <= m && -m <= v.1 <= m && -m <= v.2 <= m
}

/// `|a| <= ma` and `|b| <= mb` bound `|a * b|` by `ma * mb`.
pub proof fn lemma_mul_bounded(a: int, b: int, ma: int, mb: int)
    requires
        -ma <= a <= ma,
        -mb <= b <= mb,
    ensures
        -(ma * mb) <= a * b <= ma * mb,
{
    assert(-(ma * mb) <= a * b <= ma * mb) by (nonlinear_arith)
        requires
            -ma <= a <= ma,
            -mb <= b <= mb,
    ;
}

/// Magnitude bounds for the grid computations: coordinates and their differences stay
/// within `SMALL`, cross products of those within `MID`, and the dot product of one of
/// each within `LARGE`.
pub const SMALL: i128 = 0x2_0000;

pub const MID: i128 = 0x8_0000_0000;

pub const LARGE: i128 = 0x40_0000_0000_0000;

impl WideVec3 {
    pub fn from_ivec(v: IVec3) -> (r: Self)
        ensures
            w3(r) == v3(v),
    {
        WideVec3 { x: v.x as i128, y: v.y as i128, z: v.z as i128 }
    }

    /// `self - o` for two grid points.
    pub fn sub(self, o: Self) -> (r: Self)
        requires
            bounded3(w3(self), COORD_LIMIT as int),
            bounded3(w3(o), COORD_LIMIT as int),
        ensures
            w3(r) == sub3(w3(self), w3(o)),
            bounded3(w3(r), SMALL as int),
    {
        WideVec3 { x: self.x - o.x, y: self.y - o.y, z: self.z - o.z }
    }

    pub fn cross(self, o: Self) -> (r: Self)
        requires
            bounded3(w3(self), SMALL as int),
            bounded3(w3(o), SMALL as int),
        ensures
            w3(r) == cross3(w3(self), w3(o)),
            bounded3(w3(r), MID as int),
    {
        proof {
            let m = SMALL as int;
            assert(m * m == 0x4_0000_0000);
            lemma_mul_bounded(self.y as int, o.z as int, m, m);
            lemma_mul_bounded(self.z as int, o.y as int, m, m);
            lemma_mul_bounded(self.z as int, o.x as int, m, m);
            lemma_mul_bounded(self.x as int, o.z as int, m, m);
            lemma_mul_bounded(self.x as int, o.y as int, m, m);
            lemma_mul_bounded(self.y as int, o.x as int, m, m);
        }
        WideVec3 {
            x: self.y * o.z - self.z * o.y,
            y: self.z * o.x - self.x * o.z,
            z: self.x * o.y - self.y * o.x,
        }
    }

    /// The dot product of a small vector with a cross product.
    pub fn dot(self, o: Self) -> (r: i128)
        requires
            bounded3(w3(self), SMALL as int),
            bounded3(w3(o), MID as int),
        ensures
            r == dot3(w3(self), w3(o)),
            -LARGE <= r <= LARGE,
    {
        proof {
            let (m, n) = (SMALL as int, MID as int);
            assert(m * n == 0x10_0000_0000_0000) by (nonlinear_arith)
                requires
                    m == 0x2_0000,
                    n == 0x8_0000_0000,
            ;
            lemma_mul_bounded(self.x as int, o.x as int, m, n);
            lemma_mul_bounded(self.y as int, o.y as int, m, n);
            lemma_mul_bounded(self.z as int, o.z as int, m, n);
        }
        self.x * o.x + self.y * o.y + self.z * o.z
    }

    /// The dot product of two small vectors, with a tighter bound than `dot`.
    pub fn dot_small(self, o: Self) -> (r: i128)
        requires
            bounded3(w3(self), SMALL as int),
            bounded3(w3(o), SMALL as int),
        ensures
            r == dot3(w3(self), w3(o)),
            -0x10_0000_0000 <= r <= 0x10_0000_0000,
    {
        proof {
            let m = SMALL as int;
            assert(m * m == 0x4_0000_0000);
            lemma_mul_bounded(self.x as int, o.x as int, m, m);
            lemma_mul_bounded(self.y as int, o.y as int, m, m);
            lemma_mul_bounded(self.z as int, o.z as int, m, m);
        }
        self.x * o.x + self.y * o.y + self.z * o.z
    }

    /// The dot product of two cross products.
    pub fn dot_mid(self, o: Self) -> (r: i128)
        requires
            bounded3(w3(self), MID as int),
            bounded3(w3(o), MID as int),
        ensures
            r == dot3(w3(self), w3(o)),
            -0x100_0000_0000_0000_0000 <= r <= 0x100_0000_0000_0000_0000,
    {
        proof {
            let m = MID as int;
            assert(m * m == 0x40_0000_0000_0000_0000) by (nonlinear_arith)
                requires
                    m == 0x8_0000_0000,
            ;
            lemma_mul_bounded(self.x as int, o.x as int, m, m);
            lemma_mul_bounded(self.y as int, o.y as int, m, m);
            lemma_mul_bounded(self.z as int, o.z as int, m, m);
        }
        self.x * o.x + self.y * o.y + self.z * o.z
    }
}

/// `a * b` as `top * 2^64 + low`, for products too wide for 128 bits.
fn wide_product(a: u128, b: u128) -> (r: (u128, u128))
    requires
        a < 0x4000_0000_0000_0000_0000_0000_0000,
        b < 0x400_0000_0000_0000_0000,
    ensures
        a * b == r.0 * 0x1_0000_0000_0000_0000 + r.1,
        r.1 < 0x1_0000_0000_0000_0000,
{
    let k: u128 = 0x1_0000_0000_0000_0000;
    let ah = a / k;
    let al = a % k;
    let bh = b / k;
    let bl = b % k;
    proof {
        assert(ah < 0x4000_0000_0000);
        assert(bh < 0x400);
        lemma_mul_bounded(al as int, bl as int, k as int, k as int);
        assert(al * bl < k * k) by (nonlinear_arith)
            requires
                al < k,
                bl < k,
                al >= 0,
                bl >= 0,
        ;
        assert(ah * bl < 0x4000_0000_0000 * k) by (nonlinear_arith)
            requires
                ah < 0x4000_0000_0000,
                bl < k,
                ah >= 0,
                bl >= 0,
        ;
        assert(al * bh < 0x400 * k) by (nonlinear_arith)
            requires
                al < k,
                bh < 0x400,
                al >= 0,
                bh >= 0,
        ;
        assert(ah * bh < 0x4000_0000_0000 * 0x400) by (nonlinear_arith)
            requires
                ah < 0x4000_0000_0000,
                bh < 0x400,
                ah >= 0,
                bh >= 0,
        ;
    }
    let low_full = al * bl;
    let low = low_full % k;
    let carry = low_full / k;
    let top = ah * bh * k + ah * bl + al * bh + carry;
    proof {
        assert(a == ah * k + al);
        assert(b == bh * k + bl);
        assert(low_full == carry * k + low);
        assert(a * b == (ah * k + al) * (bh * k + bl));
        assert((ah * k + al) * (bh * k + bl) == ah * bh * k * k + ah * bl * k + al * bh * k + al
            * bl) by (nonlinear_arith);
        assert(ah * bh * k * k + ah * bl * k + al * bh * k + carry * k == (ah * bh * k + ah * bl + al
            * bh + carry) * k) by (nonlinear_arith);
    }
    (top, low)
}

/// Compares `a * b` with `c * d` exactly, for factors of up to 110 and 74 bits.
pub fn product_less(a: i128, b: i128, c: i128, d: i128) -> (r: bool)
    requires
        -0x4000_0000_0000_0000_0000_0000_0000 < a < 0x4000_0000_0000_0000_0000_0000_0000,
        -0x4000_0000_0000_0000_0000_0000_0000 < c < 0x4000_0000_0000_0000_0000_0000_0000,
        0 < b < 0x400_0000_0000_0000_0000,
        0 < d < 0x400_0000_0000_0000_0000,
    ensures
        r == (a * b < c * d),
{
    if a < 0 && c >= 0 {
        proof {
            assert(a * b < 0) by (nonlinear_arith)
                requires
                    a < 0,
                    b > 0,
            ;
            assert(c * d >= 0) by (nonlinear_arith)
                requires
                    c >= 0,
                    d > 0,
            ;
        }
        return true;
    }
    if a >= 0 && c < 0 {
        proof {
            assert(a * b >= 0) by (nonlinear_arith)
                requires
                    a >= 0,
                    b > 0,
            ;
            assert(c * d < 0) by (nonlinear_arith)
                requires
                    c < 0,
                    d > 0,
            ;
        }
        return false;
    }
    // same signs: compare magnitudes, the other way round when both are negative
    let (x, y, u, v) = if a >= 0 {
        (a as u128, b as u128, c as u128, d as u128)
    } else {
        ((-c) as u128, d as u128, (-a) as u128, b as u128)
    };
    let (t1, l1) = wide_product(x, y);
    let (t2, l2) = wide_product(u, v);
    proof {
        assert((-c) * d == -(c * d)) by (nonlinear_arith);
        assert((-a) * b == -(a * b)) by (nonlinear_arith);
        lemma_lex_order(t1 as int, l1 as int, t2 as int, l2 as int);
    }
    t1 < t2 || (t1 == t2 && l1 < l2)
}

proof fn lemma_lex_order(t1: int, l1: int, t2: int, l2: int)
    requires
        0 <= l1 < 0x1_0000_0000_0000_0000,
        0 <= l2 < 0x1_0000_0000_0000_0000,
    ensures
        (t1 * 0x1_0000_0000_0000_0000 + l1 < t2 * 0x1_0000_0000_0000_0000 + l2) == (t1 < t2 || (t1
            == t2 && l1 < l2)),
{
    let k = 0x1_0000_0000_0000_0000int;
    if t1 < t2 {
        assert(t1 * k + k <= t2 * k) by (nonlinear_arith)
            requires
                t1 < t2,
                k > 0,
        ;
    } else if t1 > t2 {
        assert(t2 * k + k <= t1 * k) by (nonlinear_arith)
            requires
                t2 < t1,
                k > 0,
        ;
    }
}


/// `p * x + q * y + r * z`.
pub open spec fn combo3(p: int, x: (int, int, int), q: int, y: (int, int, int), r: int, z: (int, int, int)) -> (int, int, int) {
    add3(add3(scale3(p, x), scale3(q, y)), scale3(r, z))
}

/// The cross product is linear in its first argument.
pub proof fn lemma_cross_combo(p: int, x: (int, int, int), q: int, y: (int, int, int), r: int, z: (int, int, int), e: (int, int, int))
    ensures
        cross3(combo3(p, x, q, y, r, z), e) == combo3(p, cross3(x, e), q, cross3(y, e), r, cross3(z, e)),
{
    let (e0, e1, e2) = e;
    assert((p * x.1 + q * y.1 + r * z.1) * e2 == p * x.1 * e2 + q * y.1 * e2 + r * z.1 * e2) by (nonlinear_arith);
    assert((p * x.2 + q * y.2 + r * z.2) * e1 == p * x.2 * e1 + q * y.2 * e1 + r * z.2 * e1) by (nonlinear_arith);
    assert((p * x.2 + q * y.2 + r * z.2) * e0 == p * x.2 * e0 + q * y.2 * e0 + r * z.2 * e0) by (nonlinear_arith);
    assert((p * x.0 + q * y.0 + r * z.0) * e2 == p * x.0 * e2 + q * y.0 * e2 + r * z.0 * e2) by (nonlinear_arith);
    assert((p * x.0 + q * y.0 + r * z.0) * e1 == p * x.0 * e1 + q * y.0 * e1 + r * z.0 * e1) by (nonlinear_arith);
    assert((p * x.1 + q * y.1 + r * z.1) * e0 == p * x.1 * e0 + q * y.1 * e0 + r * z.1 * e0) by (nonlinear_arith);
    assert(p * (x.1 * e2 - x.2 * e1) == p * x.1 * e2 - p * x.2 * e1) by (nonlinear_arith);
    assert(q * (y.1 * e2 - y.2 * e1) == q * y.1 * e2 - q * y.2 * e1) by (nonlinear_arith);
    assert(r * (z.1 * e2 - z.2 * e1) == r * z.1 * e2 - r * z.2 * e1) by (nonlinear_arith);
    assert(p * (x.2 * e0 - x.0 * e2) == p * x.2 * e0 - p * x.0 * e2) by (nonlinear_arith);
    assert(q * (y.2 * e0 - y.0 * e2) == q * y.2 * e0 - q * y.0 * e2) by (nonlinear_arith);
    assert(r * (z.2 * e0 - z.0 * e2) == r * z.2 * e0 - r * z.0 * e2) by (nonlinear_arith);
    assert(p * (x.0 * e1 - x.1 * e0) == p * x.0 * e1 - p * x.1 * e0) by (nonlinear_arith);
    assert(q * (y.0 * e1 - y.1 * e0) == q * y.0 * e1 - q * y.1 * e0) by (nonlinear_arith);
    assert(r * (z.0 * e1 - z.1 * e0) == r * z.0 * e1 - r * z.1 * e0) by (nonlinear_arith);
}

/// `k * (a * x) == a * (k * x)`.
pub proof fn lemma_mul_swap(k: int, a: int, x: int)
    ensures
        k * (a * x) == a * (k * x),
{
    vstd::arithmetic::mul::lemma_mul_is_associative(k, a, x);
    vstd::arithmetic::mul::lemma_mul_is_commutative(k, a);
    vstd::arithmetic::mul::lemma_mul_is_associative(a, k, x);
}

/// `k * (u + v + w) == k * u + k * v + k * w`.
pub proof fn lemma_dist3(k: int, u: int, v: int, w: int)
    ensures
        k * (u + v + w) == k * u + k * v + k * w,
{
    vstd::arithmetic::mul::lemma_mul_is_distributive_add(k, u + v, w);
    vstd::arithmetic::mul::lemma_mul_is_distributive_add(k, u, v);
}

/// The dot product is linear in its second argument.
pub proof fn lemma_dot_combo(a: (int, int, int), p: int, x: (int, int, int), q: int, y: (int, int, int), r: int, z: (int, int, int))
    ensures
        dot3(a, combo3(p, x, q, y, r, z)) == p * dot3(a, x) + q * dot3(a, y) + r * dot3(a, z),
{
    let (a0, a1, a2) = a;
    let (x0, x1, x2) = x;
    let (y0, y1, y2) = y;
    let (z0, z1, z2) = z;
    lemma_dist3(a0, p * x0, q * y0, r * z0);
    lemma_dist3(a1, p * x1, q * y1, r * z1);
    lemma_dist3(a2, p * x2, q * y2, r * z2);
    lemma_mul_swap(a0, p, x0);
    lemma_mul_swap(a1, p, x1);
    lemma_mul_swap(a2, p, x2);
    lemma_mul_swap(a0, q, y0);
    lemma_mul_swap(a1, q, y1);
    lemma_mul_swap(a2, q, y2);
    lemma_mul_swap(a0, r, z0);
    lemma_mul_swap(a1, r, z1);
    lemma_mul_swap(a2, r, z2);
    lemma_dist3(p, a0 * x0, a1 * x1, a2 * x2);
    lemma_dist3(q, a0 * y0, a1 * y1, a2 * y2);
    lemma_dist3(r, a0 * z0, a1 * z1, a2 * z2);
}

/// `a x b` is square to `a` and to `b`, and `a x a` is zero.
pub proof fn lemma_dot_cross_zero(a: (int, int, int), b: (int, int, int))
    ensures
        dot3(a, cross3(a, b)) == 0,
        dot3(b, cross3(a, b)) == 0,
        cross3(a, a) == (0int, 0int, 0int),
{
    let (a0, a1, a2) = a;
    let (b0, b1, b2) = b;
    assert(a0 * (a1 * b2 - a2 * b1) == a0 * a1 * b2 - a0 * a2 * b1) by (nonlinear_arith);
    assert(a1 * (a2 * b0 - a0 * b2) == a1 * a2 * b0 - a1 * a0 * b2) by (nonlinear_arith);
    assert(a2 * (a0 * b1 - a1 * b0) == a2 * a0 * b1 - a2 * a1 * b0) by (nonlinear_arith);
    assert(a0 * a1 * b2 - a0 * a2 * b1 + (a1 * a2 * b0 - a1 * a0 * b2) + (a2 * a0 * b1 - a2 * a1 * b0) == 0) by (nonlinear_arith);
    assert(b0 * (a1 * b2 - a2 * b1) == b0 * a1 * b2 - b0 * a2 * b1) by (nonlinear_arith);
    assert(b1 * (a2 * b0 - a0 * b2) == b1 * a2 * b0 - b1 * a0 * b2) by (nonlinear_arith);
    assert(b2 * (a0 * b1 - a1 * b0) == b2 * a0 * b1 - b2 * a1 * b0) by (nonlinear_arith);
    assert(b0 * a1 * b2 - b0 * a2 * b1 + (b1 * a2 * b0 - b1 * a0 * b2) + (b2 * a0 * b1 - b2 * a1 * b0) == 0) by (nonlinear_arith);
    assert(a1 * a2 - a2 * a1 == 0 && a2 * a0 - a0 * a2 == 0 && a0 * a1 - a1 * a0 == 0) by (nonlinear_arith);
}

/// `(k s) x e == k (s x e)`.
pub proof fn lemma_cross_scale(k: int, s: (int, int, int), e: (int, int, int))
    ensures
        cross3(scale3(k, s), e) == scale3(k, cross3(s, e)),
{
    let (e0, e1, e2) = e;
    assert(k * s.1 * e2 - k * s.2 * e1 == k * (s.1 * e2 - s.2 * e1)) by (nonlinear_arith);
    assert(k * s.2 * e0 - k * s.0 * e2 == k * (s.2 * e0 - s.0 * e2)) by (nonlinear_arith);
    assert(k * s.0 * e1 - k * s.1 * e0 == k * (s.0 * e1 - s.1 * e0)) by (nonlinear_arith);
}

/// `a . (k x) == k (a . x)`.
pub proof fn lemma_dot_scale(a: (int, int, int), k: int, x: (int, int, int))
    ensures
        dot3(a, scale3(k, x)) == k * dot3(a, x),
{
    let (a0, a1, a2) = a;
    let (x0, x1, x2) = x;
    lemma_mul_swap(a0, k, x0);
    lemma_mul_swap(a1, k, x1);
    lemma_mul_swap(a2, k, x2);
    lemma_dist3(k, a0 * x0, a1 * x1, a2 * x2);
}

} // verus!
