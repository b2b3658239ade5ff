//! Fixed-point scalar and small-vector utilities.
//!
//! Every scalar of the simulation is an `i64` measured in fixed-point
//! units: `SCALE` units make one world unit.  Positions, radii, bounds
//! and timesteps all share this representation, so the integration and
//! collision arithmetic below is exact integer arithmetic.

use vstd::prelude::*;

verus! {

/// Fixed-point units per world unit.
pub const SCALE: i64 = 65536;

/// Gravitational acceleration, in world units per second squared.
pub const GRAVITY: i64 = 1000;

/// Why a constructor rejected its configuration.
#[derive(Clone, Copy, PartialEq, Eq, Structural, Debug)]
pub enum ConfigError {
    /// A ball radius must be strictly positive.
    NonPositiveRadius,
    /// A ball radius must not exceed the simulation's radius limit.
    RadiusTooLarge,
    /// A ball position must lie within the simulation's coordinate limit.
    PositionOutOfRange,
    /// Bounds must satisfy `left < right` and `bottom < top`.
    DegenerateBounds,
    /// Bounds coordinates must lie within the simulation's bound limit.
    BoundsTooLarge,
}

/// A 2-D vector of fixed-point scalars.
#[derive(Clone, Copy, PartialEq, Eq, Structural, Debug)]
pub struct Vec2 {
    pub x: i64,
    pub y: i64,
}

/// A 4-component record of fixed-point scalars; the physics world uses
/// it as an axis-aligned rectangle `(x, y, z, w) = (left, right, top, bottom)`.
#[derive(Clone, Copy, PartialEq, Eq, Structural, Debug)]
pub struct Vec4 {
    pub x: i64,
    pub y: i64,
    pub z: i64,
    pub w: i64,
}

/// An (r, g, b) byte colour triple.
#[derive(Clone, Copy, PartialEq, Eq, Structural, Debug)]
pub struct Colour {
    pub r: u8,
    pub g: u8,
    pub b: u8,
}

/// Mathematical image of a `Vec2`: the same point over unbounded integers.
pub struct Vec2V {
    pub x: int,
    pub y: int,
}

/// Mathematical image of a `Vec4`.
pub struct Vec4V {
    pub x: int,
    pub y: int,
    pub z: int,
    pub w: int,
}

impl View for Vec2 {
    type V = Vec2V;

    open spec fn view(&self) -> Vec2V {
        Vec2V { x: self.x as int, y: self.y as int }
    }
}

impl View for Vec4 {
    type V = Vec4V;

    open spec fn view(&self) -> Vec4V {
        Vec4V { x: self.x as int, y: self.y as int, z: self.z as int, w: self.w as int }
    }
}

pub fn vec2(x: i64, y: i64) -> (v: Vec2)
    ensures
        v@.x == x,
        v@.y == y,
{
    Vec2 { x, y }
}

pub fn vec4(x: i64, y: i64, z: i64, w: i64) -> (v: Vec4)
    ensures
        v@.x == x,
        v@.y == y,
        v@.z == z,
        v@.w == w,
{
    Vec4 { x, y, z, w }
}

pub fn colour(r: u8, g: u8, b: u8) -> (c: Colour)
    ensures
        c.r == r,
        c.g == g,
        c.b == b,
{
    Colour { r, g, b }
}

/// Turns a window size into symmetric world bounds
/// `(-w/2, w/2, h/2, -h/2)`: x grows rightward, y grows upward, and the
/// origin sits at the centre of the window.
pub fn size_bounds(width: i64, height: i64) -> (b: Vec4)
    requires
        0 <= width,
        0 <= height,
    ensures
        b@.x == -(width as int / 2),
        b@.y == width as int / 2,
        b@.z == height as int / 2,
        b@.w == -(height as int / 2),
{
    let hw: i64 = width / 2;
    let hh: i64 = height / 2;
    vec4(-hw, hw, hh, -hh)
}

/// Converts a window-space position (origin in the top-left corner,
/// y growing downward) into world space (origin centred, y growing
/// upward), as the host does with pointer events before handing them
/// to the simulation.
pub fn cursor_to_world(p: Vec2, size: Vec2) -> (w: Vec2)
    requires
        0 <= size.x <= 1_000_000_000_000,
        0 <= size.y <= 1_000_000_000_000,
        -1_000_000_000_000 <= p.x <= 1_000_000_000_000,
        -1_000_000_000_000 <= p.y <= 1_000_000_000_000,
    ensures
        w@.x == p@.x - size@.x / 2,
        w@.y == size@.y / 2 - p@.y,
{
    vec2(p.x - size.x / 2, size.y / 2 - p.y)
}

/// The floor of the square root of `n` (0 for nonpositive `n`).
pub open spec fn sqrt_floor(n: int) -> int
    decreases n,
{
    if n <= 0 {
        0
    } else {
        let p = sqrt_floor(n - 1);
        if (p + 1) * (p + 1) <= n {
            p + 1
        } else {
            p
        }
    }
}

/// `sqrt_floor(n)` is the unique nonnegative root whose square brackets `n`.
pub proof fn lemma_sqrt_floor(n: int)
    requires
        0 <= n,
    ensures
        0 <= sqrt_floor(n),
        sqrt_floor(n) * sqrt_floor(n) <= n,
        n < (sqrt_floor(n) + 1) * (sqrt_floor(n) + 1),
    decreases n,
{
    if n == 0 {
    } else {
        lemma_sqrt_floor(n - 1);
        let p = sqrt_floor(n - 1);
        if (p + 1) * (p + 1) <= n {
            assert(n - 1 < (p + 1) * (p + 1));
            assert(n == (p + 1) * (p + 1));
            assert((p + 1) * (p + 1) < (p + 2) * (p + 2)) by (nonlinear_arith)
                requires 0 <= p;
        }
    }
}

/// Any nonnegative `v` whose square is at most `n` is at most `sqrt_floor(n)`.
pub proof fn lemma_sqrt_floor_lower(v: int, n: int)
    requires
        0 <= v,
        v * v <= n,
    ensures
        v <= sqrt_floor(n),
{
    lemma_sqrt_floor(n);
    let s = sqrt_floor(n);
    if s < v {
        assert((s + 1) * (s + 1) <= v * v) by (nonlinear_arith)
            requires 0 <= s, s + 1 <= v;
    }
}

/// If `n` lies strictly below a square, its root lies strictly below the base.
pub proof fn lemma_sqrt_floor_upper(n: int, b: int)
    requires
        0 <= n,
        0 <= b,
        n < b * b,
    ensures
        sqrt_floor(n) < b,
{
    lemma_sqrt_floor(n);
    let s = sqrt_floor(n);
    if b <= s {
        assert(b * b <= s * s) by (nonlinear_arith)
            requires 0 <= b, b <= s;
    }
}

/// Exactly one nonnegative root has a square that brackets `n`.
pub proof fn lemma_sqrt_unique(n: int, r: int)
    requires
        0 <= r,
        r * r <= n,
        n < (r + 1) * (r + 1),
    ensures
        r == sqrt_floor(n),
{
    lemma_sqrt_floor_lower(r, n);
    lemma_sqrt_floor_upper(n, r + 1);
}

/// The floor of the square root of a nonnegative `i64`, by binary search.
pub fn isqrt(n: i64) -> (r: i64)
    requires
        0 <= n,
    ensures
        r == sqrt_floor(n as int),
        0 <= r < 3_037_000_500,
{
    proof {
        lemma_sqrt_floor(n as int);
    }
    let nn = n as u64;
    let mut lo: u64 = 0;
    let mut hi: u64 = 3_037_000_500;
    assert(n < (hi as int) * (hi as int)) by (nonlinear_arith)
        requires n <= 0x7fff_ffff_ffff_ffff, hi == 3_037_000_500int;
    while lo + 1 < hi
        invariant
            lo < hi <= 3_037_000_500,
            (lo as int) * (lo as int) <= n as int,
            (n as int) < (hi as int) * (hi as int),
            nn == n,
            0 <= n,
        decreases hi - lo,
    {
        let mid = lo + (hi - lo) / 2;
        assert(lo < mid < hi);
        assert(mid * mid < 0xffff_ffff_ffff_ffff) by (nonlinear_arith)
            requires 0 <= mid < 3_037_000_500u64;
        if mid * mid <= nn {
            lo = mid;
        } else {
            hi = mid;
        }
    }
    proof {
        assert((n as int) < ((lo + 1) as int) * ((lo + 1) as int)) by (nonlinear_arith)
            requires
                hi <= lo + 1,
                (n as int) < (hi as int) * (hi as int),
                0 <= hi,
                lo + 1 <= 0xffff_ffff_ffff_ffff;
        lemma_sqrt_unique(n as int, lo as int);
    }
    lo as i64
}

} // verus!
