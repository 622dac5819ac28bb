use vstd::prelude::*;

verus! {

/// Largest magnitude of a coordinate handed to a query.
pub const COORD_LIMIT: i64 = 1099511627776;

/// Largest magnitude of a coordinate once made local to a box.
pub const LOCAL_LIMIT: i64 = 4398046511104;

/// A vector on the integer lattice.
#[derive(Clone, Copy, Debug, PartialEq, Eq, Structural)]
pub struct Vec3 {
    pub x: i64,
    pub y: i64,
    pub z: i64,
}

pub open spec fn abs(a: int) -> int {
    if a < 0 { -a } else { a }
}

impl Vec3 {
    /// Component along `axis` (0 = x, 1 = y, 2 = z).
    pub open spec fn at(self, axis: int) -> int {
        if axis == 0 { self.x as int } else if axis == 1 { self.y as int } else { self.z as int }
    }

    /// Every component lies within `limit` in magnitude.
    pub open spec fn within(self, limit: int) -> bool {
        abs(self.x as int) <= limit && abs(self.y as int) <= limit && abs(self.z as int) <= limit
    }

    /// Every component is -1, 0 or 1.
    pub open spec fn is_unit_bounded(self) -> bool {
        self.within(1)
    }

    pub open spec fn non_negative(self) -> bool {
        self.x >= 0 && self.y >= 0 && self.z >= 0
    }

    pub open spec fn plus(self, o: Vec3) -> Vec3 {
        Vec3 { x: (self.x + o.x) as i64, y: (self.y + o.y) as i64, z: (self.z + o.z) as i64 }
    }

    pub open spec fn minus(self, o: Vec3) -> Vec3 {
        Vec3 { x: (self.x - o.x) as i64, y: (self.y - o.y) as i64, z: (self.z - o.z) as i64 }
    }

    pub open spec fn negated(self) -> Vec3 {
        Vec3 { x: -self.x as i64, y: -self.y as i64, z: -self.z as i64 }
    }

    pub fn new(x: i64, y: i64, z: i64) -> (r: Vec3)
        ensures
            r == (Vec3 { x, y, z }),
    {
        Vec3 { x, y, z }
    }

    pub fn component(&self, axis: usize) -> (r: i64)
        requires
            axis < 3,
        ensures
            r == self.at(axis as int),
    {
        if axis == 0 {
            self.x
        } else if axis == 1 {
            self.y
        } else {
            self.z
        }
    }

    pub fn add(&self, o: &Vec3) -> (r: Vec3)
        requires
            self.within(COORD_LIMIT as int),
            o.within(COORD_LIMIT as int),
        ensures
            r == self.plus(*o),
            r.x == self.x + o.x,
            r.y == self.y + o.y,
            r.z == self.z + o.z,
    {
        Vec3 { x: self.x + o.x, y: self.y + o.y, z: self.z + o.z }
    }

    pub fn sub(&self, o: &Vec3) -> (r: Vec3)
        requires
            self.within(COORD_LIMIT as int),
            o.within(COORD_LIMIT as int),
        ensures
            r == self.minus(*o),
            r.x == self.x - o.x,
            r.y == self.y - o.y,
            r.z == self.z - o.z,
    {
        Vec3 { x: self.x - o.x, y: self.y - o.y, z: self.z - o.z }
    }

    pub fn neg(&self) -> (r: Vec3)
        requires
            self.within(LOCAL_LIMIT as int),
        ensures
            r == self.negated(),
            r.x == -self.x,
            r.y == -self.y,
            r.z == -self.z,
    {
        Vec3 { x: -self.x, y: -self.y, z: -self.z }
    }
}

/// An exact distance along a ray, `num / den` in units of the ray's
/// direction vector; well formed when `den > 0`.
#[derive(Clone, Copy, Debug, PartialEq, Eq, Structural)]
pub struct Dist {
    pub num: i64,
    pub den: i64,
}

/// Bound on a product from bounds on its factors.
pub proof fn lemma_product_bound(a: int, b: int, la: int, lb: int)
    requires
        abs(a) <= la,
        abs(b) <= lb,
    ensures
        abs(a * b) <= la * lb,
{
    assert(abs(a * b) <= la * lb) by (nonlinear_arith)
        requires
            abs(a) <= la,
            abs(b) <= lb,
            abs(a) == (if a < 0 { -a } else { a }),
            abs(b) == (if b < 0 { -b } else { b }),
            abs(a * b) == (if a * b < 0 { -(a * b) } else { a * b }),
    ;
}

/// A product of two `i64` values fits in an `i128`.
pub proof fn lemma_i64_product_fits(a: i64, b: i64)
    ensures
        -0x4000_0000_0000_0000_0000_0000_0000_0000 <= (a as int) * (b as int)
            <= 0x4000_0000_0000_0000_0000_0000_0000_0000,
{
    assert(-0x4000_0000_0000_0000_0000_0000_0000_0000 <= (a as int) * (b as int)
        <= 0x4000_0000_0000_0000_0000_0000_0000_0000) by (nonlinear_arith)
        requires
            -0x8000_0000_0000_0000 <= a <= 0x7fff_ffff_ffff_ffff,
            -0x8000_0000_0000_0000 <= b <= 0x7fff_ffff_ffff_ffff,
    ;
}

impl Dist {
    pub open spec fn wf(self) -> bool {
        self.den > 0
    }

    /// `self` lies strictly farther along the ray than `o`.
    pub open spec fn after(self, o: Dist) -> bool {
        (self.num as int) * (o.den as int) > (o.num as int) * (self.den as int)
    }

    /// `self` and `o` name the same rational value.
    pub open spec fn same_value(self, o: Dist) -> bool {
        (self.num as int) * (o.den as int) == (o.num as int) * (self.den as int)
    }

    /// The whole number `n`.
    pub fn whole(n: i64) -> (r: Dist)
        ensures
            r == (Dist { num: n, den: 1 }),
            r.wf(),
    {
        Dist { num: n, den: 1 }
    }

    pub fn is_after(&self, o: &Dist) -> (r: bool)
        ensures
            r == self.after(*o),
    {
        proof {
            lemma_i64_product_fits(self.num, o.den);
            lemma_i64_product_fits(o.num, self.den);
        }
        (self.num as i128) * (o.den as i128) > (o.num as i128) * (self.den as i128)
    }

    pub fn equals_value(&self, o: &Dist) -> (r: bool)
        ensures
            r == self.same_value(*o),
    {
        proof {
            lemma_i64_product_fits(self.num, o.den);
            lemma_i64_product_fits(o.num, self.den);
        }
        (self.num as i128) * (o.den as i128) == (o.num as i128) * (self.den as i128)
    }
}

} // verus!
