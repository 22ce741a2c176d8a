//! Integer vector algebra for screen-space coordinates: two- and
//! three-component vectors with addition, subtraction, scaling, dot and
//! cross products, all with exact contracts over mathematical integers.

use vstd::prelude::*;

verus! {

/// A two-component integer vector (a screen-space point).
#[derive(Clone, Copy, Debug, PartialEq, Eq, Structural)]
pub struct Vec2i {
    pub x: i32,
    pub y: i32,
}

impl Vec2i {
    /// The zero vector.
    pub fn new() -> (r: Self)
        ensures
            r.x == 0 && r.y == 0,
    {
        Self { x: 0, y: 0 }
    }

    pub fn new_args(newx: i32, newy: i32) -> (r: Self)
        ensures
            r.x == newx && r.y == newy,
    {
        Self { x: newx, y: newy }
    }

    /// Builds a vector from the first two entries of a list.
    pub fn from_vec(v: &Vec<i32>) -> (r: Self)
        requires
            v@.len() >= 2,
        ensures
            r.x == v@[0] && r.y == v@[1],
    {
        Self { x: v[0], y: v[1] }
    }

    /// Component-wise sum.
    pub fn add(self, rhs: Self) -> (r: Self)
        requires
            i32::MIN <= self.x + rhs.x <= i32::MAX,
            i32::MIN <= self.y + rhs.y <= i32::MAX,
        ensures
            r.x == self.x + rhs.x,
            r.y == self.y + rhs.y,
    {
        Self { x: self.x + rhs.x, y: self.y + rhs.y }
    }

    /// Component-wise difference.
    pub fn sub(self, rhs: Self) -> (r: Self)
        requires
            i32::MIN <= self.x - rhs.x <= i32::MAX,
            i32::MIN <= self.y - rhs.y <= i32::MAX,
        ensures
            r.x == self.x - rhs.x,
            r.y == self.y - rhs.y,
    {
        Self { x: self.x - rhs.x, y: self.y - rhs.y }
    }

    /// The component at `index`, with `index` bounded by the dimension.
    pub fn get(self, index: usize) -> (r: i32)
        requires
            index < 2,
        ensures
            r == if index == 0 { self.x } else { self.y },
    {
        if index == 0 {
            self.x
        } else {
            self.y
        }
    }
}

/// A three-component integer vector.
#[derive(Clone, Copy, Debug, PartialEq, Eq, Structural)]
pub struct Vec3i {
    pub x: i32,
    pub y: i32,
    pub z: i32,
}

/// The mathematical dot product of two integer triples.
pub open spec fn dot_int(ax: int, ay: int, az: int, bx: int, by: int, bz: int) -> int {
    ax * bx + ay * by + az * bz
}

/// First component of the mathematical cross product `u x v`.
pub open spec fn cross_x(u: Vec3i, v: Vec3i) -> int {
    u.y * v.z - u.z * v.y
}

/// Second component of the mathematical cross product `u x v`.
pub open spec fn cross_y(u: Vec3i, v: Vec3i) -> int {
    u.z * v.x - u.x * v.z
}

/// Third component of the mathematical cross product `u x v`.
pub open spec fn cross_z(u: Vec3i, v: Vec3i) -> int {
    u.x * v.y - u.y * v.x
}

/// All intermediate products and differences of `cross(u, v)` fit in `i32`.
pub open spec fn cross_fits(u: Vec3i, v: Vec3i) -> bool {
    &&& i32::MIN <= u.y * v.z <= i32::MAX
    &&& i32::MIN <= u.z * v.y <= i32::MAX
    &&& i32::MIN <= u.z * v.x <= i32::MAX
    &&& i32::MIN <= u.x * v.z <= i32::MAX
    &&& i32::MIN <= u.x * v.y <= i32::MAX
    &&& i32::MIN <= u.y * v.x <= i32::MAX
    &&& i32::MIN <= cross_x(u, v) <= i32::MAX
    &&& i32::MIN <= cross_y(u, v) <= i32::MAX
    &&& i32::MIN <= cross_z(u, v) <= i32::MAX
}

impl Vec3i {
    /// The zero vector.
    pub fn new() -> (r: Self)
        ensures
            r.x == 0 && r.y == 0 && r.z == 0,
    {
        Self { x: 0, y: 0, z: 0 }
    }

    pub fn new_args(newx: i32, newy: i32, newz: i32) -> (r: Self)
        ensures
            r.x == newx && r.y == newy && r.z == newz,
    {
        Self { x: newx, y: newy, z: newz }
    }

    /// Builds a vector from the first three entries of a list.
    pub fn from_vec(v: &Vec<i32>) -> (r: Self)
        requires
            v@.len() >= 3,
        ensures
            r.x == v@[0] && r.y == v@[1] && r.z == v@[2],
    {
        Self { x: v[0], y: v[1], z: v[2] }
    }

    /// Component-wise sum.
    pub fn add(self, rhs: Self) -> (r: Self)
        requires
            i32::MIN <= self.x + rhs.x <= i32::MAX,
            i32::MIN <= self.y + rhs.y <= i32::MAX,
            i32::MIN <= self.z + rhs.z <= i32::MAX,
        ensures
            r.x == self.x + rhs.x,
            r.y == self.y + rhs.y,
            r.z == self.z + rhs.z,
    {
        Self { x: self.x + rhs.x, y: self.y + rhs.y, z: self.z + rhs.z }
    }

    /// Component-wise difference.
    pub fn sub(self, rhs: Self) -> (r: Self)
        requires
            i32::MIN <= self.x - rhs.x <= i32::MAX,
            i32::MIN <= self.y - rhs.y <= i32::MAX,
            i32::MIN <= self.z - rhs.z <= i32::MAX,
        ensures
            r.x == self.x - rhs.x,
            r.y == self.y - rhs.y,
            r.z == self.z - rhs.z,
    {
        Self { x: self.x - rhs.x, y: self.y - rhs.y, z: self.z - rhs.z }
    }

    /// Scaling by an integer scalar keeps the dimension.
    pub fn scale(self, s: i32) -> (r: Self)
        requires
            i32::MIN <= self.x * s <= i32::MAX,
            i32::MIN <= self.y * s <= i32::MAX,
            i32::MIN <= self.z * s <= i32::MAX,
        ensures
            r.x == self.x * s,
            r.y == self.y * s,
            r.z == self.z * s,
    {
        Self { x: self.x * s, y: self.y * s, z: self.z * s }
    }

    /// Dot product, computed exactly in 64-bit arithmetic.
    pub fn dot(self, rhs: Self) -> (r: i64)
        requires
            i64::MIN <= self.x * rhs.x + self.y * rhs.y <= i64::MAX,
            i64::MIN <= dot_int(
                self.x as int,
                self.y as int,
                self.z as int,
                rhs.x as int,
                rhs.y as int,
                rhs.z as int,
            ) <= i64::MAX,
        ensures
            r == dot_int(
                self.x as int,
                self.y as int,
                self.z as int,
                rhs.x as int,
                rhs.y as int,
                rhs.z as int,
            ),
    {
        proof {
            lemma_i32_product_fits_i64(self.x as int, rhs.x as int);
            lemma_i32_product_fits_i64(self.y as int, rhs.y as int);
            lemma_i32_product_fits_i64(self.z as int, rhs.z as int);
        }
        (self.x as i64) * (rhs.x as i64) + (self.y as i64) * (rhs.y as i64) + (self.z as i64)
            * (rhs.z as i64)
    }

    /// The component at `index`, with `index` bounded by the dimension.
    pub fn get(self, index: usize) -> (r: i32)
        requires
            index < 3,
        ensures
            r == if index == 0 {
                self.x
            } else if index == 1 {
                self.y
            } else {
                self.z
            },
    {
        if index == 0 {
            self.x
        } else if index == 1 {
            self.y
        } else {
            self.z
        }
    }
}

/// The product of two values in `i32` range fits in `i64`.
proof fn lemma_i32_product_fits_i64(a: int, b: int)
    requires
        i32::MIN <= a <= i32::MAX,
        i32::MIN <= b <= i32::MAX,
    ensures
        i64::MIN <= a * b <= i64::MAX,
{
    assert(i64::MIN <= a * b <= i64::MAX) by (nonlinear_arith)
        requires
            i32::MIN <= a <= i32::MAX,
            i32::MIN <= b <= i32::MAX,
    ;
}

/// Cross product of two three-component vectors.
pub fn cross(v1: Vec3i, v2: Vec3i) -> (r: Vec3i)
    requires
        cross_fits(v1, v2),
    ensures
        r.x == cross_x(v1, v2),
        r.y == cross_y(v1, v2),
        r.z == cross_z(v1, v2),
{
    Vec3i {
        x: v1.y * v2.z - v1.z * v2.y,
        y: v1.z * v2.x - v1.x * v2.z,
        z: v1.x * v2.y - v1.y * v2.x,
    }
}

/// The cross product is orthogonal to both of its arguments:
/// `dot(cross(u, v), u) == 0` and `dot(cross(u, v), v) == 0`, exactly,
/// for every pair of integer vectors.
pub proof fn lemma_cross_orthogonal(u: Vec3i, v: Vec3i)
    ensures
        dot_int(cross_x(u, v), cross_y(u, v), cross_z(u, v), u.x as int, u.y as int, u.z as int)
            == 0,
        dot_int(cross_x(u, v), cross_y(u, v), cross_z(u, v), v.x as int, v.y as int, v.z as int)
            == 0,
{
    let ux = u.x as int;
    let uy = u.y as int;
    let uz = u.z as int;
    let vx = v.x as int;
    let vy = v.y as int;
    let vz = v.z as int;
    assert((uy * vz - uz * vy) * ux + (uz * vx - ux * vz) * uy + (ux * vy - uy * vx) * uz == 0)
        by (nonlinear_arith);
    assert((uy * vz - uz * vy) * vx + (uz * vx - ux * vz) * vy + (ux * vy - uy * vx) * vz == 0)
        by (nonlinear_arith);
}

/// Keeps the first `len` entries of a list, in order.
pub fn proj_refactor<T: Copy>(v: Vec<T>, len: usize) -> (r: Vec<T>)
    requires
        len <= v@.len(),
    ensures
        r@ == v@.subrange(0, len as int),
{
    let mut ret: Vec<T> = Vec::new();
    for i in 0..len
        invariant
            len <= v@.len(),
            ret@ == v@.subrange(0, i as int),
    {
        ret.push(v[i]);
    }
    ret
}

} // verus!
