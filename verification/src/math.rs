//! 2D integer vector algebra for track geometry.
//!
//! Coordinates are meters, velocities meters per second.  Squared lengths and
//! dot products are returned as `i128` so that no practical input overflows.
use vstd::prelude::*;
use rand::Rng;

verus! {

/// Components small enough that component sums and differences stay in `i64`
/// and squared lengths stay in `i128`.
pub open spec fn bounded(c: int) -> bool {
    -0x2000_0000_0000_0000 <= c <= 0x2000_0000_0000_0000
}

/// The relaxed bound met by sums and differences of `bounded` components;
/// products of two such values still fit comfortably in `i128`.
pub open spec fn sq_ok(c: int) -> bool {
    -0x4000_0000_0000_0000 <= c <= 0x4000_0000_0000_0000
}

pub proof fn lemma_mul_bounds(a: int, b: int, m: int)
    requires
        0 <= m,
        -m <= a <= m,
        -m <= b <= m,
    ensures
        -(m * m) <= a * b <= m * m,
{
    assert(-(m * m) <= a * b <= m * m) by (nonlinear_arith)
        requires
            0 <= m,
            -m <= a <= m,
            -m <= b <= m,
    ;
}

/// Product bound from separate bounds on the factors.
pub proof fn lemma_mul_le(a: int, b: int, ma: int, mb: int)
    requires
        0 <= ma,
        0 <= mb,
        -ma <= a <= ma,
        -mb <= b <= mb,
    ensures
        -(ma * mb) <= a * b <= ma * mb,
{
    assert(-(ma * mb) <= a * b <= ma * mb) by (nonlinear_arith)
        requires
            0 <= ma,
            0 <= mb,
            -ma <= a <= ma,
            -mb <= b <= mb,
    ;
}

pub proof fn lemma_square_nonneg(a: int)
    ensures
        a * a >= 0,
{
    assert(a * a >= 0) by (nonlinear_arith);
}

/// A 2D vector of integer meters (or meters per second).
#[derive(Clone, Copy, Debug, PartialEq, Eq, Structural)]
pub struct Vector2D {
    pub x: i64,
    pub y: i64,
}

impl Vector2D {
    pub open spec fn wf(self) -> bool {
        bounded(self.x as int) && bounded(self.y as int)
    }

    /// The squared Euclidean length, as unbounded integers.
    pub open spec fn spec_length_sq(self) -> int {
        self.x * self.x + self.y * self.y
    }

    /// The dot product, as unbounded integers.
    pub open spec fn spec_dot(self, other: Vector2D) -> int {
        self.x * other.x + self.y * other.y
    }

    pub open spec fn spec_add(self, other: Vector2D) -> Vector2D {
        Vector2D { x: (self.x + other.x) as i64, y: (self.y + other.y) as i64 }
    }

    pub open spec fn spec_sub(self, other: Vector2D) -> Vector2D {
        Vector2D { x: (self.x - other.x) as i64, y: (self.y - other.y) as i64 }
    }

    pub fn new(x: i64, y: i64) -> (v: Vector2D)
        ensures
            v.x == x,
            v.y == y,
    {
        Vector2D { x, y }
    }

    pub fn add(self, other: Vector2D) -> (v: Vector2D)
        requires
            i64::MIN <= self.x + other.x <= i64::MAX,
            i64::MIN <= self.y + other.y <= i64::MAX,
        ensures
            v == self.spec_add(other),
            v.x == self.x + other.x,
            v.y == self.y + other.y,
    {
        Vector2D { x: self.x + other.x, y: self.y + other.y }
    }

    pub fn sub(self, other: Vector2D) -> (v: Vector2D)
        requires
            i64::MIN <= self.x - other.x <= i64::MAX,
            i64::MIN <= self.y - other.y <= i64::MAX,
        ensures
            v == self.spec_sub(other),
            v.x == self.x - other.x,
            v.y == self.y - other.y,
    {
        Vector2D { x: self.x - other.x, y: self.y - other.y }
    }

    pub fn dot(self, other: Vector2D) -> (d: i128)
        requires
            sq_ok(self.x as int),
            sq_ok(self.y as int),
            sq_ok(other.x as int),
            sq_ok(other.y as int),
        ensures
            d == self.spec_dot(other),
    {
        proof {
            lemma_mul_bounds(self.x as int, other.x as int, 0x4000_0000_0000_0000);
            lemma_mul_bounds(self.y as int, other.y as int, 0x4000_0000_0000_0000);
        }
        (self.x as i128) * (other.x as i128) + (self.y as i128) * (other.y as i128)
    }

    pub fn length_sq(self) -> (d: i128)
        requires
            sq_ok(self.x as int),
            sq_ok(self.y as int),
        ensures
            d == self.spec_length_sq(),
            d >= 0,
    {
        proof {
            lemma_mul_bounds(self.x as int, self.x as int, 0x4000_0000_0000_0000);
            lemma_mul_bounds(self.y as int, self.y as int, 0x4000_0000_0000_0000);
            lemma_square_nonneg(self.x as int);
            lemma_square_nonneg(self.y as int);
        }
        (self.x as i128) * (self.x as i128) + (self.y as i128) * (self.y as i128)
    }

    /// The squared distance to `other`.
    pub fn distance_sq(self, other: Vector2D) -> (d: i128)
        requires
            self.wf(),
            other.wf(),
        ensures
            d == self.spec_sub(other).spec_length_sq(),
            d >= 0,
    {
        self.sub(other).length_sq()
    }
}

/// Relies on rand::Rng::random_range: a uniformly distributed integer in
/// the inclusive range.  Nothing more is promised of the outcome.
#[verifier::external_body]
fn sample_range(lo: i64, hi: i64) -> (r: i64)
    requires
        lo <= hi,
    ensures
        lo <= r <= hi,
{
    rand::rng().random_range(lo..=hi)
}

impl Vector2D {
    /// The vector perturbed by independent uniform noise in
    /// `[-magnitude, magnitude]` on each axis.
    pub fn add_noise(self, magnitude: i64) -> (v: Vector2D)
        requires
            0 <= magnitude <= 0x1_0000,
            self.wf(),
        ensures
            self.x - magnitude <= v.x <= self.x + magnitude,
            self.y - magnitude <= v.y <= self.y + magnitude,
    {
        let dx = sample_range(-magnitude, magnitude);
        let dy = sample_range(-magnitude, magnitude);
        Vector2D { x: self.x + dx, y: self.y + dy }
    }
}

/// Integer square root: the largest `r` with `r * r <= x`.
pub fn isqrt(x: u64) -> (r: u64)
    ensures
        r * r <= x,
        (r + 1) * (r + 1) > x,
{
    let mut lo: u64 = 0;
    let mut hi: u64 = if x < 0x1_0000_0000 {
        x + 1
    } else {
        0x1_0000_0000
    };
    proof {
        if x < 0x1_0000_0000 {
            assert((x + 1) * (x + 1) > x) by (nonlinear_arith);
        }
    }
    while lo + 1 < hi
        invariant
            lo < hi <= 0x1_0000_0000,
            lo * lo <= x,
            hi * hi > x,
        decreases hi - lo,
    {
        let mid: u64 = lo + (hi - lo) / 2;
        proof {
            lemma_mul_bounds(mid as int, mid as int, 0xffff_ffff);
        }
        if mid * mid <= x {
            lo = mid;
        } else {
            hi = mid;
        }
    }
    lo
}

} // verus!
