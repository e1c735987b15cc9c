//! Integer vector arithmetic and the fixed-point convention used by the
//! renderer, together with an exact integer square root.

use vstd::prelude::*;

verus! {

/// Scale of fixed-point values: a fixed-point value `v` stands for the real
/// number `v / FIXED_ONE`.
pub const FIXED_ONE: i64 = 65536;

/// Truncating division (rounding toward zero), the semantics of Rust's `/`
/// on signed integers.
pub open spec fn div_trunc(a: int, b: int) -> int {
    if a >= 0 {
        a / b
    } else {
        -((-a) / b)
    }
}

/// A two-dimensional integer vector.
#[derive(Clone, Copy, Debug, PartialEq, Eq, Structural)]
pub struct Vec2 {
    pub x: i64,
    pub y: i64,
}

/// A three-dimensional integer vector.
#[derive(Clone, Copy, Debug, PartialEq, Eq, Structural)]
pub struct Vec3 {
    pub x: i64,
    pub y: i64,
    pub z: i64,
}

impl Vec2 {
    pub fn new(x: i64, y: i64) -> (v: Vec2)
        ensures
            v == (Vec2 { x, y }),
    {
        Vec2 { x, y }
    }

    pub fn add(self, other: Vec2) -> (v: Vec2)
        requires
            i64::MIN <= self.x + other.x <= i64::MAX,
            i64::MIN <= self.y + other.y <= i64::MAX,
        ensures
            v.x == self.x + other.x,
            v.y == self.y + other.y,
    {
        Vec2 { x: self.x + other.x, y: self.y + other.y }
    }

    pub fn sub(self, other: Vec2) -> (v: Vec2)
        requires
            i64::MIN <= self.x - other.x <= i64::MAX,
            i64::MIN <= self.y - other.y <= i64::MAX,
        ensures
            v.x == self.x - other.x,
            v.y == self.y - other.y,
    {
        Vec2 { x: self.x - other.x, y: self.y - other.y }
    }

    pub fn mul(self, scalar: i64) -> (v: Vec2)
        requires
            i64::MIN <= self.x * scalar <= i64::MAX,
            i64::MIN <= self.y * scalar <= i64::MAX,
        ensures
            v.x == self.x * scalar,
            v.y == self.y * scalar,
    {
        Vec2 { x: self.x * scalar, y: self.y * scalar }
    }
}

impl Vec3 {
    pub fn new(x: i64, y: i64, z: i64) -> (v: Vec3)
        ensures
            v == (Vec3 { x, y, z }),
    {
        Vec3 { x, y, z }
    }

    pub fn add(self, other: Vec3) -> (v: Vec3)
        requires
            i64::MIN <= self.x + other.x <= i64::MAX,
            i64::MIN <= self.y + other.y <= i64::MAX,
            i64::MIN <= self.z + other.z <= i64::MAX,
        ensures
            v.x == self.x + other.x,
            v.y == self.y + other.y,
            v.z == self.z + other.z,
    {
        Vec3 { x: self.x + other.x, y: self.y + other.y, z: self.z + other.z }
    }

    pub fn sub(self, other: Vec3) -> (v: Vec3)
        requires
            i64::MIN <= self.x - other.x <= i64::MAX,
            i64::MIN <= self.y - other.y <= i64::MAX,
            i64::MIN <= self.z - other.z <= i64::MAX,
        ensures
            v.x == self.x - other.x,
            v.y == self.y - other.y,
            v.z == self.z - other.z,
    {
        Vec3 { x: self.x - other.x, y: self.y - other.y, z: self.z - other.z }
    }

    pub fn mul(self, scalar: i64) -> (v: Vec3)
        requires
            i64::MIN <= self.x * scalar <= i64::MAX,
            i64::MIN <= self.y * scalar <= i64::MAX,
            i64::MIN <= self.z * scalar <= i64::MAX,
        ensures
            v.x == self.x * scalar,
            v.y == self.y * scalar,
            v.z == self.z * scalar,
    {
        Vec3 { x: self.x * scalar, y: self.y * scalar, z: self.z * scalar }
    }

    /// Converts a fixed-point vector to whole units, rounding toward zero.
    pub fn to_i(&self) -> (v: Vec3)
        ensures
            v.x == div_trunc(self.x as int, FIXED_ONE as int),
            v.y == div_trunc(self.y as int, FIXED_ONE as int),
            v.z == div_trunc(self.z as int, FIXED_ONE as int),
    {
        Vec3 { x: self.x / FIXED_ONE, y: self.y / FIXED_ONE, z: self.z / FIXED_ONE }
    }

    pub fn dot(self, other: Vec3) -> (d: i64)
        requires
            i64::MIN <= self.x * other.x <= i64::MAX,
            i64::MIN <= self.y * other.y <= i64::MAX,
            i64::MIN <= self.z * other.z <= i64::MAX,
            i64::MIN <= self.x * other.x + self.y * other.y <= i64::MAX,
            i64::MIN <= self.x * other.x + self.y * other.y + self.z * other.z <= i64::MAX,
        ensures
            d == self.x * other.x + self.y * other.y + self.z * other.z,
    {
        self.x * other.x + self.y * other.y + self.z * other.z
    }

    pub fn cross(self, other: Vec3) -> (v: Vec3)
        requires
            i64::MIN <= self.y * other.z <= i64::MAX,
            i64::MIN <= self.z * other.y <= i64::MAX,
            i64::MIN <= self.y * other.z - self.z * other.y <= i64::MAX,
            i64::MIN <= self.z * other.x <= i64::MAX,
            i64::MIN <= self.x * other.z <= i64::MAX,
            i64::MIN <= self.z * other.x - self.x * other.z <= i64::MAX,
            i64::MIN <= self.x * other.y <= i64::MAX,
            i64::MIN <= self.y * other.x <= i64::MAX,
            i64::MIN <= self.x * other.y - self.y * other.x <= i64::MAX,
        ensures
            v.x == self.y * other.z - self.z * other.y,
            v.y == self.z * other.x - self.x * other.z,
            v.z == self.x * other.y - self.y * other.x,
    {
        Vec3 {
            x: self.y * other.z - self.z * other.y,
            y: self.z * other.x - self.x * other.z,
            z: self.x * other.y - self.y * other.x,
        }
    }
}

/// The absolute value of an integer.
pub open spec fn abs_i(a: int) -> int {
    if a >= 0 {
        a
    } else {
        -a
    }
}

/// Floor division by a positive divisor (rounding toward negative
/// infinity), the meaning of `/` in specifications.
pub fn div_floor(a: i64, b: i64) -> (q: i64)
    requires
        0 < b,
        -0x4000_0000_0000_0000 < a < 0x4000_0000_0000_0000,
    ensures
        q == a as int / b as int,
        a >= 0 ==> 0 <= q <= a,
        a < 0 ==> a <= q <= 0,
{
    proof {
        vstd::arithmetic::div_mod::lemma_fundamental_div_mod(a as int, b as int);
        vstd::arithmetic::div_mod::lemma_mod_bound(a as int, b as int);
        assert((a >= 0 ==> 0 <= (a as int) / (b as int) <= a) && (a < 0 ==> a <= (a as int) / (
        b as int) <= 0)) by (nonlinear_arith)
            requires
                0 < b,
                a as int == (b as int) * ((a as int) / (b as int)) + ((a as int) % (b as int)),
                0 <= (a as int) % (b as int) < (b as int),
        ;
    }
    let qt = a / b;
    let rt = a % b;
    proof {
        if a >= 0 {
            assert(qt == a as int / b as int);
        } else {
            assert(qt == -((-(a as int)) / (b as int)) && rt == -((-(a as int)) % (b as int)));
            vstd::arithmetic::div_mod::lemma_fundamental_div_mod(-(a as int), b as int);
            vstd::arithmetic::div_mod::lemma_mod_bound(-(a as int), b as int);
            assert(a as int == (b as int) * (qt as int) + rt) by (nonlinear_arith)
                requires
                    -(a as int) == (b as int) * ((-(a as int)) / (b as int)) + (-(a as int)) % (
                    b as int),
                    qt == -((-(a as int)) / (b as int)),
                    rt == -((-(a as int)) % (b as int)),
            ;
            if rt == 0 {
                vstd::arithmetic::div_mod::lemma_fundamental_div_mod_converse(
                    a as int,
                    b as int,
                    qt as int,
                    0,
                );
            } else {
                assert(a as int == (b as int) * (qt as int - 1) + (rt + b)) by (nonlinear_arith)
                    requires
                        a as int == (b as int) * (qt as int) + rt,
                ;
                vstd::arithmetic::div_mod::lemma_fundamental_div_mod_converse(
                    a as int,
                    b as int,
                    qt as int - 1,
                    rt + b as int,
                );
            }
        }
    }
    if rt != 0 && a < 0 {
        qt - 1
    } else {
        qt
    }
}

/// Whether `r` is the integer square root of `n`.
pub open spec fn is_sqrt_floor(n: nat, r: nat) -> bool {
    r * r <= n < (r + 1) * (r + 1)
}

/// The integer square root of `n`: the largest `r` with `r * r <= n`.
pub open spec fn sqrt_floor(n: nat) -> nat {
    choose|r: nat| is_sqrt_floor(n, r)
}

/// Every natural number has an integer square root.
pub proof fn lemma_sqrt_floor_exists(n: nat)
    ensures
        is_sqrt_floor(n, sqrt_floor(n)),
    decreases n,
{
    if n == 0 {
        assert(is_sqrt_floor(n, 0)) by (nonlinear_arith)
            requires
                n == 0,
        ;
    } else {
        lemma_sqrt_floor_exists((n - 1) as nat);
        let r = sqrt_floor((n - 1) as nat);
        if (r + 1) * (r + 1) <= n {
            assert(is_sqrt_floor(n, r + 1)) by (nonlinear_arith)
                requires
                    r * r <= n - 1 < (r + 1) * (r + 1),
                    (r + 1) * (r + 1) <= n,
            ;
        } else {
            assert(is_sqrt_floor(n, r));
        }
    }
}

/// The integer square root is unique.
pub proof fn lemma_sqrt_floor_unique(n: nat, r1: nat, r2: nat)
    requires
        is_sqrt_floor(n, r1),
        is_sqrt_floor(n, r2),
    ensures
        r1 == r2,
{
    assert(r1 == r2) by (nonlinear_arith)
        requires
            r1 * r1 <= n < (r1 + 1) * (r1 + 1),
            r2 * r2 <= n < (r2 + 1) * (r2 + 1),
    ;
}

/// Integer square root by binary search.
pub fn isqrt(n: u128) -> (r: u64)
    ensures
        r == sqrt_floor(n as nat),
        r * r <= n,
        n < (r as u128 + 1) * (r as u128 + 1),
{
    let mut lo: u128 = 0;
    let mut hi: u128 = 0x1_0000_0000_0000_0000;
    proof {
        assert(hi * hi > n) by (nonlinear_arith)
            requires
                hi == 0x1_0000_0000_0000_0000u128,
                n <= u128::MAX,
        ;
    }
    while hi - lo > 1
        invariant
            lo < hi <= 0x1_0000_0000_0000_0000,
            lo * lo <= n,
            n < hi * hi,
        decreases hi - lo,
    {
        let mid = lo + (hi - lo) / 2;
        assert(lo < mid < hi);
        proof {
            assert(mid * mid <= u128::MAX) by (nonlinear_arith)
                requires
                    mid < 0x1_0000_0000_0000_0000u128,
            ;
        }
        if mid * mid <= n {
            lo = mid;
        } else {
            hi = mid;
        }
    }
    proof {
        assert(lo < 0x1_0000_0000_0000_0000) by (nonlinear_arith)
            requires
                lo * lo <= n,
                n < u128::MAX as nat + 1,
                lo <= 0x1_0000_0000_0000_0000u128,
        ;
        lemma_sqrt_floor_exists(n as nat);
        lemma_sqrt_floor_unique(n as nat, lo as nat, sqrt_floor(n as nat));
    }
    lo as u64
}

} // verus!
