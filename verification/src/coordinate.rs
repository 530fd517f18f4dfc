//! 3D coordinates and vectors with exact integer arithmetic.
//!
//! Coordinates are fixed-point integers: callers pick a unit (say, a
//! millimetre per step) and stay within [`COORD_LIMIT`]. Derived lengths are
//! scaled by [`SCALE`], so a vector of squared norm `25` has magnitude
//! `5 * SCALE`. Every geometric comparison in the crate is therefore exact.

use vstd::prelude::*;

use crate::math::sqrt_floor;

verus! {

/// Largest coordinate component (in either direction) for which all of the
/// crate's geometric arithmetic is guaranteed not to overflow.
pub const COORD_LIMIT: i64 = 1048576;

/// Fixed-point scale of every length this crate reports: a geometric
/// distance of one coordinate unit is reported as `SCALE`.
pub const SCALE: u64 = 65536;

/// Components this large (in either direction) are accepted by
/// [`Vector::cross_product`] without overflow.
pub const CROSS_INPUT_LIMIT: i64 = 2000000000;

/// Components this large (in either direction) are accepted by
/// [`Vector::magnitude`] without overflow.
pub const MAGNITUDE_LIMIT: i64 = 100000000000000;

/// A 3D position sample in fixed-point integer units.
#[derive(Clone, Copy, Debug, PartialEq, Eq, Structural, Hash)]
pub struct Coordinate {
    pub x: i64,
    pub y: i64,
    pub z: i64,
}

/// A displacement between two coordinates, in the same integer units.
#[derive(Clone, Copy, Debug, PartialEq, Eq, Structural, Hash)]
pub struct Vector {
    pub x: i64,
    pub y: i64,
    pub z: i64,
}

impl Coordinate {
    /// All components within [`COORD_LIMIT`]; geometric arithmetic over such
    /// coordinates cannot overflow.
    pub open spec fn valid(self) -> bool {
        &&& -COORD_LIMIT <= self.x <= COORD_LIMIT
        &&& -COORD_LIMIT <= self.y <= COORD_LIMIT
        &&& -COORD_LIMIT <= self.z <= COORD_LIMIT
    }

    /// Creates a new coordinate.
    pub fn new(x: i64, y: i64, z: i64) -> (r: Self)
        ensures
            r == (Coordinate { x, y, z }),
    {
        Self { x, y, z }
    }

    /// The displacement from `other` to `self`.
    pub fn minus(&self, other: &Coordinate) -> (r: Vector)
        requires
            self.valid(),
            other.valid(),
        ensures
            r.x == self.x - other.x,
            r.y == self.y - other.y,
            r.z == self.z - other.z,
    {
        Vector { x: self.x - other.x, y: self.y - other.y, z: self.z - other.z }
    }
}

/// The components of the cross product of two integer vectors.
pub open spec fn cross_spec(u: (int, int, int), v: (int, int, int)) -> (int, int, int) {
    (u.1 * v.2 - u.2 * v.1, u.2 * v.0 - u.0 * v.2, u.0 * v.1 - u.1 * v.0)
}

/// The squared Euclidean norm of an integer vector.
pub open spec fn norm_sq_spec(u: (int, int, int)) -> int {
    u.0 * u.0 + u.1 * u.1 + u.2 * u.2
}

impl Vector {
    /// The vector's components as a mathematical integer triple.
    pub open spec fn triple(self) -> (int, int, int) {
        (self.x as int, self.y as int, self.z as int)
    }

    /// What `magnitude` returns: the fixed-point length of the vector.
    pub open spec fn magnitude_spec(self) -> nat {
        sqrt_floor((norm_sq_spec(self.triple()) * SCALE * SCALE) as nat)
    }

    /// Creates a new vector.
    pub fn new(x: i64, y: i64, z: i64) -> (r: Self)
        ensures
            r == (Vector { x, y, z }),
    {
        Self { x, y, z }
    }

    /// The cross product of two vectors, exactly.
    pub fn cross_product(&self, other: &Self) -> (r: Self)
        requires
            -CROSS_INPUT_LIMIT <= self.x <= CROSS_INPUT_LIMIT,
            -CROSS_INPUT_LIMIT <= self.y <= CROSS_INPUT_LIMIT,
            -CROSS_INPUT_LIMIT <= self.z <= CROSS_INPUT_LIMIT,
            -CROSS_INPUT_LIMIT <= other.x <= CROSS_INPUT_LIMIT,
            -CROSS_INPUT_LIMIT <= other.y <= CROSS_INPUT_LIMIT,
            -CROSS_INPUT_LIMIT <= other.z <= CROSS_INPUT_LIMIT,
        ensures
            r.triple() == cross_spec(self.triple(), other.triple()),
    {
        proof {
            lemma_product_bound(self.x as int, other.x as int, CROSS_INPUT_LIMIT as int);
            lemma_product_bound(self.x as int, other.y as int, CROSS_INPUT_LIMIT as int);
            lemma_product_bound(self.x as int, other.z as int, CROSS_INPUT_LIMIT as int);
            lemma_product_bound(self.y as int, other.x as int, CROSS_INPUT_LIMIT as int);
            lemma_product_bound(self.y as int, other.y as int, CROSS_INPUT_LIMIT as int);
            lemma_product_bound(self.y as int, other.z as int, CROSS_INPUT_LIMIT as int);
            lemma_product_bound(self.z as int, other.x as int, CROSS_INPUT_LIMIT as int);
            lemma_product_bound(self.z as int, other.y as int, CROSS_INPUT_LIMIT as int);
            lemma_product_bound(self.z as int, other.z as int, CROSS_INPUT_LIMIT as int);
        }
        Self {
            x: self.y * other.z - self.z * other.y,
            y: self.z * other.x - self.x * other.z,
            z: self.x * other.y - self.y * other.x,
        }
    }

    /// The exact squared Euclidean norm of the vector.
    pub fn norm_sq(&self) -> (r: u128)
        requires
            -MAGNITUDE_LIMIT <= self.x <= MAGNITUDE_LIMIT,
            -MAGNITUDE_LIMIT <= self.y <= MAGNITUDE_LIMIT,
            -MAGNITUDE_LIMIT <= self.z <= MAGNITUDE_LIMIT,
        ensures
            r == norm_sq_spec(self.triple()),
            r <= 3 * (MAGNITUDE_LIMIT as int) * (MAGNITUDE_LIMIT as int),
    {
        proof {
            lemma_product_bound(self.x as int, self.x as int, MAGNITUDE_LIMIT as int);
            lemma_product_bound(self.y as int, self.y as int, MAGNITUDE_LIMIT as int);
            lemma_product_bound(self.z as int, self.z as int, MAGNITUDE_LIMIT as int);
            lemma_square_nonneg(self.x as int);
            lemma_square_nonneg(self.y as int);
            lemma_square_nonneg(self.z as int);
        }
        let xx: i128 = self.x as i128 * self.x as i128;
        let yy: i128 = self.y as i128 * self.y as i128;
        let zz: i128 = self.z as i128 * self.z as i128;
        (xx + yy + zz) as u128
    }

    /// The fixed-point length of the vector: the integer square root of the
    /// squared norm scaled by `SCALE * SCALE`.
    pub fn magnitude(&self) -> (r: u64)
        requires
            -MAGNITUDE_LIMIT <= self.x <= MAGNITUDE_LIMIT,
            -MAGNITUDE_LIMIT <= self.y <= MAGNITUDE_LIMIT,
            -MAGNITUDE_LIMIT <= self.z <= MAGNITUDE_LIMIT,
        ensures
            r as nat == self.magnitude_spec(),
    {
        let nsq: u128 = self.norm_sq();
        proof {
            assert(nsq * (SCALE as int) * (SCALE as int)
                <= 3 * (MAGNITUDE_LIMIT as int) * (MAGNITUDE_LIMIT as int) * (SCALE as int)
                    * (SCALE as int)) by (nonlinear_arith)
                requires
                    0 <= nsq <= 3 * (MAGNITUDE_LIMIT as int) * (MAGNITUDE_LIMIT as int),
                    SCALE > 0;
        }
        let scaled: u128 = nsq * SCALE as u128 * SCALE as u128;
        crate::math::isqrt(scaled)
    }
}

/// The product of two integers bounded by `limit` is bounded by `limit`
/// squared.
pub(crate) proof fn lemma_product_bound(a: int, b: int, limit: int)
    requires
        -limit <= a <= limit,
        -limit <= b <= limit,
        0 <= limit,
    ensures
        -(limit * limit) <= a * b <= limit * limit,
{
    assert(-(limit * limit) <= a * b <= limit * limit) by (nonlinear_arith)
        requires -limit <= a <= limit, -limit <= b <= limit, 0 <= limit;
}

/// A square is never negative.
pub(crate) proof fn lemma_square_nonneg(a: int)
    ensures
        0 <= a * a,
{
    assert(0 <= a * a) by (nonlinear_arith);
}

/// Scaling a squared norm by `SCALE * SCALE` stays within `u128`.
pub(crate) proof fn lemma_scale_no_overflow(x: int)
    requires
        0 <= x <= 3 * (MAGNITUDE_LIMIT as int) * (MAGNITUDE_LIMIT as int),
    ensures
        x * (SCALE as int) * (SCALE as int) <= u128::MAX,
{
    assert(x * (SCALE as int) * (SCALE as int) <= u128::MAX) by (nonlinear_arith)
        requires 0 <= x <= 3 * (MAGNITUDE_LIMIT as int) * (MAGNITUDE_LIMIT as int);
}

} // verus!
