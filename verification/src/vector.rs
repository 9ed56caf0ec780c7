//! A two-dimensional vector with integer components, used for velocities
//! and positions in a fixed sub-pixel unit.
//!
//! Addition, subtraction, scalar multiplication, dot and cross products are
//! exact. Scalar division truncates toward zero, and the magnitude is the
//! integer square root (floor) of the squared length; both are pinned down
//! exactly by their contracts.

use vstd::prelude::*;

verus! {

/// The absolute value of a mathematical integer.
pub open spec fn abs_int(a: int) -> int {
    if a < 0 {
        -a
    } else {
        a
    }
}

/// Division truncating toward zero (the semantics of `/` on machine
/// integers), defined for any non-zero divisor.
pub open spec fn div_trunc(a: int, b: int) -> int {
    if (a < 0) == (b < 0) {
        abs_int(a) / abs_int(b)
    } else {
        -(abs_int(a) / abs_int(b))
    }
}

/// The truncating quotient is never larger in magnitude than the exact one:
/// `|div_trunc(a, b)| * |b| <= |a|`.
pub proof fn lemma_div_trunc_bound(a: int, b: int)
    requires
        b != 0,
    ensures
        abs_int(div_trunc(a, b)) * abs_int(b) <= abs_int(a),
        abs_int(div_trunc(a, b)) <= abs_int(a),
{
    let q = abs_int(a) / abs_int(b);
    assert(q * abs_int(b) <= abs_int(a) && q <= abs_int(a)) by (nonlinear_arith)
        requires
            q == abs_int(a) / abs_int(b),
            abs_int(b) >= 1,
            abs_int(a) >= 0,
    ;
}

/// Truncating division of `i64` values.
fn div_i64_trunc(a: i64, b: i64) -> (q: i64)
    requires
        b != 0,
        a != i64::MIN,
        b != i64::MIN,
    ensures
        q == div_trunc(a as int, b as int),
{
    proof {
        lemma_div_trunc_bound(a as int, b as int);
    }
    let na: u64 = if a < 0 {
        (-a) as u64
    } else {
        a as u64
    };
    let nb: u64 = if b < 0 {
        (-b) as u64
    } else {
        b as u64
    };
    let nq: u64 = na / nb;
    if (a < 0) == (b < 0) {
        nq as i64
    } else {
        -(nq as i64)
    }
}

/// A 2D vector of integer components.
#[derive(Clone, Copy, PartialEq, Eq, Structural, Debug)]
pub struct Vector {
    pub x: i64,
    pub y: i64,
}

impl Vector {
    pub fn new(x: i64, y: i64) -> (v: Vector)
        ensures
            v == (Vector { x, y }),
    {
        Vector { x, y }
    }

    /// Componentwise sum.
    pub fn add(&self, other: &Vector) -> (v: Vector)
        requires
            i64::MIN <= self.x + other.x <= i64::MAX,
            i64::MIN <= self.y + other.y <= i64::MAX,
        ensures
            v.x == self.x + other.x,
            v.y == self.y + other.y,
    {
        Vector { x: self.x + other.x, y: self.y + other.y }
    }

    /// Componentwise difference.
    pub fn subtract(&self, other: &Vector) -> (v: Vector)
        requires
            i64::MIN <= self.x - other.x <= i64::MAX,
            i64::MIN <= self.y - other.y <= i64::MAX,
        ensures
            v.x == self.x - other.x,
            v.y == self.y - other.y,
    {
        Vector { x: self.x - other.x, y: self.y - other.y }
    }

    /// Componentwise scaling.
    pub fn multiply(&self, scalar: i64) -> (v: Vector)
        requires
            i64::MIN <= self.x * scalar <= i64::MAX,
            i64::MIN <= self.y * scalar <= i64::MAX,
        ensures
            v.x == self.x * scalar,
            v.y == self.y * scalar,
    {
        Vector { x: self.x * scalar, y: self.y * scalar }
    }

    /// Componentwise division by a non-zero scalar, truncating toward zero.
    pub fn divide(&self, scalar: i64) -> (v: Vector)
        requires
            scalar != 0,
            scalar != i64::MIN,
            self.x != i64::MIN,
            self.y != i64::MIN,
        ensures
            v.x == div_trunc(self.x as int, scalar as int),
            v.y == div_trunc(self.y as int, scalar as int),
    {
        proof {
            lemma_div_trunc_bound(self.x as int, scalar as int);
            lemma_div_trunc_bound(self.y as int, scalar as int);
        }
        Vector { x: div_i64_trunc(self.x, scalar), y: div_i64_trunc(self.y, scalar) }
    }

    /// The dot product `x1*x2 + y1*y2`, exact.
    pub fn dot_product(&self, other: &Vector) -> (d: i64)
        requires
            -0x4000_0000 <= self.x <= 0x4000_0000,
            -0x4000_0000 <= self.y <= 0x4000_0000,
            -0x4000_0000 <= other.x <= 0x4000_0000,
            -0x4000_0000 <= other.y <= 0x4000_0000,
        ensures
            d == self.x * other.x + self.y * other.y,
    {
        proof {
            lemma_product_bound(self.x as int, other.x as int, 0x4000_0000);
            lemma_product_bound(self.y as int, other.y as int, 0x4000_0000);
        }
        self.x * other.x + self.y * other.y
    }

    /// The cross product `x1*y2 - y1*x2`, exact.
    pub fn cross_product(&self, other: &Vector) -> (c: i64)
        requires
            -0x4000_0000 <= self.x <= 0x4000_0000,
            -0x4000_0000 <= self.y <= 0x4000_0000,
            -0x4000_0000 <= other.x <= 0x4000_0000,
            -0x4000_0000 <= other.y <= 0x4000_0000,
        ensures
            c == self.x * other.y - self.y * other.x,
    {
        proof {
            lemma_product_bound(self.x as int, other.y as int, 0x4000_0000);
            lemma_product_bound(self.y as int, other.x as int, 0x4000_0000);
        }
        self.x * other.y - self.y * other.x
    }

    /// The floor of the Euclidean length: the largest `m` with
    /// `m * m <= x*x + y*y`.
    pub fn get_magnitude(&self) -> (m: u64)
        requires
            -0x4000_0000 <= self.x <= 0x4000_0000,
            -0x4000_0000 <= self.y <= 0x4000_0000,
        ensures
            m * m <= self.x * self.x + self.y * self.y,
            self.x * self.x + self.y * self.y < (m + 1) * (m + 1),
    {
        proof {
            lemma_product_bound(self.x as int, self.x as int, 0x4000_0000);
            lemma_product_bound(self.y as int, self.y as int, 0x4000_0000);
            assert(self.x * self.x >= 0) by (nonlinear_arith);
            assert(self.y * self.y >= 0) by (nonlinear_arith);
        }
        let sq: u64 = ((self.x * self.x) as u64) + ((self.y * self.y) as u64);
        isqrt_u64(sq)
    }

    pub fn clone(&self) -> (v: Vector)
        ensures
            v == *self,
    {
        Vector { x: self.x, y: self.y }
    }
}

/// `|a|, |b| <= m` bounds their product by `m * m` in both directions.
pub proof fn lemma_product_bound(a: int, b: int, m: int)
    by (nonlinear_arith)
    requires
        0 <= m,
        -m <= a <= m,
        -m <= b <= m,
    ensures
        -(m * m) <= a * b <= m * m,
{
}

/// The integer square root of `n`: the largest `r` with `r * r <= n`.
pub open spec fn sqrt_floor(n: nat) -> nat
    decreases n,
{
    if n == 0 {
        0
    } else {
        let s = sqrt_floor((n - 1) as nat);
        if (s + 1) * (s + 1) <= n {
            s + 1
        } else {
            s
        }
    }
}

/// `sqrt_floor(n)` squares to at most `n`, and is the only natural number
/// whose square and successor's square bracket `n`.
pub proof fn lemma_sqrt_floor_is_sqrt(n: nat)
    ensures
        sqrt_floor(n) * sqrt_floor(n) <= n,
        n < (sqrt_floor(n) + 1) * (sqrt_floor(n) + 1),
    decreases n,
{
    let r = sqrt_floor(n);
    if n == 0 {
        assert(r == 0);
        assert(r * r <= n && n < (r + 1) * (r + 1)) by (nonlinear_arith)
            requires
                r == 0,
                n == 0,
        ;
    } else {
        lemma_sqrt_floor_is_sqrt((n - 1) as nat);
        let s = sqrt_floor((n - 1) as nat);
        assert(s * s <= n - 1);
        assert(n - 1 < (s + 1) * (s + 1));
        if (s + 1) * (s + 1) <= n {
            assert(r == s + 1);
            assert(r * r <= n && n < (r + 1) * (r + 1)) by (nonlinear_arith)
                requires
                    r == s + 1,
                    (s + 1) * (s + 1) <= n,
                    n <= (s + 1) * (s + 1),
            ;
        } else {
            assert(r == s);
            assert(r * r <= n && n < (r + 1) * (r + 1)) by (nonlinear_arith)
                requires
                    r == s,
                    s * s <= n - 1,
                    n < (s + 1) * (s + 1),
                    n >= 1,
            ;
        }
    }
}

/// Any `r` bracketing `n` between `r * r` and `(r + 1) * (r + 1)` is
/// `sqrt_floor(n)`.
pub proof fn lemma_sqrt_floor_unique(n: nat, r: nat)
    requires
        r * r <= n,
        n < (r + 1) * (r + 1),
    ensures
        r == sqrt_floor(n),
{
    lemma_sqrt_floor_is_sqrt(n);
    let s = sqrt_floor(n);
    if r < s {
        assert((r + 1) * (r + 1) <= s * s) by (nonlinear_arith)
            requires
                r + 1 <= s,
        ;
    } else if r > s {
        assert((s + 1) * (s + 1) <= r * r) by (nonlinear_arith)
            requires
                s + 1 <= r,
        ;
    }
}

/// The integer square root: the largest `r` with `r * r <= n`.
pub fn isqrt_u64(n: u64) -> (r: u64)
    ensures
        r * r <= n,
        n < (r + 1) * (r + 1),
        r == sqrt_floor(n as nat),
{
    proof {
        lemma_sqrt_floor_is_sqrt(n as nat);
    }
    let mut lo: u64 = 0;
    let mut hi: u64 = if n < 0xFFFF_FFFF {
        n
    } else {
        0xFFFF_FFFF
    };
    proof {
        assert((hi + 1) * (hi + 1) > n) by (nonlinear_arith)
            requires
                hi == if n < 0xFFFF_FFFF {
                    n as int
                } else {
                    0xFFFF_FFFF
                },
                n <= u64::MAX,
        ;
    }
    while lo < hi
        invariant
            lo <= hi <= 0xFFFF_FFFF,
            lo * lo <= n,
            n < (hi + 1) * (hi + 1),
        decreases hi - lo,
    {
        let mid: u64 = lo + (hi - lo + 1) / 2;
        proof {
            assert(mid * mid <= 0xFFFF_FFFF * 0xFFFF_FFFF) by (nonlinear_arith)
                requires
                    0 <= mid <= 0xFFFF_FFFF,
            ;
        }
        if mid * mid <= n {
            lo = mid;
        } else {
            hi = mid - 1;
        }
    }
    proof {
        lemma_sqrt_floor_unique(n as nat, lo as nat);
    }
    lo
}

} // verus!
