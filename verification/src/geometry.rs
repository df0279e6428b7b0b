//! Fixed-point geometry primitives: vectors in milliblock coordinates,
//! integer block coordinates, and axis-aligned bounding boxes.
use vstd::prelude::*;
use vstd::arithmetic::div_mod::{
    lemma_fundamental_div_mod, lemma_fundamental_div_mod_converse, lemma_div_is_ordered,
    lemma_div_multiples_vanish,
};
use crate::{MILLI, MAX_COORD, MAX_RAY_LENGTH};

verus! {

/// A point or direction in milliblock coordinates.
#[derive(Clone, Copy, PartialEq, Eq, Structural, Debug)]
pub struct Vec3 {
    pub x: i64,
    pub y: i64,
    pub z: i64,
}

/// An integer block coordinate: the unit cube of block `b` spans
/// `[b * MILLI, (b + 1) * MILLI)` on each axis.
#[derive(Clone, Copy, PartialEq, Eq, Structural, Debug)]
pub struct BlockPos {
    pub x: i64,
    pub y: i64,
    pub z: i64,
}

/// An axis-aligned bounding box with closed faces: a point on a face is
/// inside the box.
#[derive(Clone, Copy, PartialEq, Eq, Structural, Debug)]
pub struct Aabb {
    pub min: Vec3,
    pub max: Vec3,
}

impl Vec3 {
    /// The mathematical value of this vector, one integer per axis.
    pub open spec fn m(self) -> (int, int, int) {
        (self.x as int, self.y as int, self.z as int)
    }
}

impl BlockPos {
    /// The mathematical value of this coordinate, one integer per axis.
    pub open spec fn m(self) -> (int, int, int) {
        (self.x as int, self.y as int, self.z as int)
    }
}

/// `c * t / MILLI`, truncated toward zero, for a scale factor `t >= 0`.
pub open spec fn scale_milli(c: int, t: int) -> int {
    if c >= 0 {
        (c * t) / (MILLI as int)
    } else {
        -(((-c) * t) / (MILLI as int))
    }
}

/// The block-axis coordinate that contains milliblock coordinate `p`:
/// the floor of `p / MILLI`.
pub open spec fn block_of(p: int) -> int {
    p / (MILLI as int)
}

/// Whether the point `(px, py, pz)` lies inside the closed box `b`.
pub open spec fn aabb_contains(b: Aabb, p: (int, int, int)) -> bool {
    &&& b.min.x <= p.0 <= b.max.x
    &&& b.min.y <= p.1 <= b.max.y
    &&& b.min.z <= p.2 <= b.max.z
}

/// Whether two closed boxes share at least one point, assuming each has
/// `min <= max` on every axis.
pub open spec fn aabb_intersects(a: Aabb, b: Aabb) -> bool {
    &&& a.min.x <= b.max.x && b.min.x <= a.max.x
    &&& a.min.y <= b.max.y && b.min.y <= a.max.y
    &&& a.min.z <= b.max.z && b.min.z <= a.max.z
}

impl Aabb {
    /// Closed-interval overlap test on all three axes.
    pub fn intersects(&self, other: &Aabb) -> (r: bool)
        ensures
            r == aabb_intersects(*self, *other),
    {
        self.min.x <= other.max.x && other.min.x <= self.max.x
            && self.min.y <= other.max.y && other.min.y <= self.max.y
            && self.min.z <= other.max.z && other.min.z <= self.max.z
    }

    /// The degenerate box holding exactly the point `p`.
    pub fn point(p: Vec3) -> (r: Aabb)
        ensures
            r == (Aabb { min: p, max: p }),
    {
        Aabb { min: p, max: p }
    }
}

/// A degenerate box intersects an ordinary box exactly when the box
/// contains the point.
pub proof fn lemma_point_box_intersection(b: Aabb, p: Vec3)
    ensures
        aabb_intersects(b, (Aabb { min: p, max: p })) == aabb_contains(b, p.m()),
{
}

/// `c * t / MILLI` truncated toward zero, in executable form.
pub fn mul_milli(c: i64, t: i64) -> (r: i64)
    requires
        -MILLI <= c <= MILLI,
        0 <= t <= MAX_RAY_LENGTH,
    ensures
        r as int == scale_milli(c as int, t as int),
        -t <= r <= t,
{
    proof {
        lemma_scale_milli_bound(c as int, t as int);
    }
    if c >= 0 {
        (((c as u64) * (t as u64)) / 1000) as i64
    } else {
        let m = (((-c) as u64) * (t as u64)) / 1000;
        -(m as i64)
    }
}

/// The scaled value never exceeds the scale factor when `|c| <= MILLI`.
pub proof fn lemma_scale_milli_bound(c: int, t: int)
    requires
        -MILLI <= c <= MILLI,
        0 <= t,
    ensures
        -t <= scale_milli(c, t) <= t,
{
    if c >= 0 {
        assert(0 <= c * t <= 1000 * t) by (nonlinear_arith)
            requires 0 <= c <= 1000 && 0 <= t;
        assert(0 <= (c * t) / 1000 <= t) by (nonlinear_arith)
            requires 0 <= c * t <= 1000 * t;
    } else {
        assert(0 <= (-c) * t <= 1000 * t) by (nonlinear_arith)
            requires 0 <= -c <= 1000 && 0 <= t;
        assert(0 <= ((-c) * t) / 1000 <= t) by (nonlinear_arith)
            requires 0 <= (-c) * t <= 1000 * t;
    }
}

/// Floor division of a milliblock coordinate by the block width.
pub fn block_axis(p: i64) -> (r: i64)
    requires
        -2 * MAX_COORD <= p <= 2 * MAX_COORD,
    ensures
        r as int == block_of(p as int),
{
    if p >= 0 {
        (((p as u64) / 1000) as i64)
    } else {
        let m = (((-p) as u64) + 999) / 1000;
        proof {
            lemma_neg_block_axis(p as int);
        }
        -(m as i64)
    }
}

/// For negative coordinates the floor is minus the ceiling of the
/// magnitude.
proof fn lemma_neg_block_axis(p: int)
    requires
        -5_000_000_000 <= p < 0,
    ensures
        block_of(p) == -(((-p) + 999) / 1000),
{
    let a = -p;
    let q = (a + 999) / 1000;
    let r = (a + 999) % 1000;
    lemma_fundamental_div_mod(a + 999, 1000);
    assert(a + 999 == 1000 * q + r);
    assert(p == 1000 * (-q) + (999 - r));
    lemma_fundamental_div_mod_converse(p, 1000, -q, 999 - r);
}

/// The position of a coordinate inside its block: `p - MILLI * block_of(p)`
/// always lies in `[0, MILLI)`.
pub proof fn lemma_block_offset_range(p: int)
    ensures
        0 <= p - (MILLI as int) * block_of(p) < MILLI,
{
    lemma_fundamental_div_mod(p, 1000);
    assert(0 <= p % 1000 < 1000) by {
        vstd::arithmetic::div_mod::lemma_mod_bound(p, 1000);
    }
}

/// Largest component magnitude accepted for a vector handed to `normalize`.
pub const MAX_LOOK: i64 = 1_000_000;

/// Smallest squared magnitude accepted by `normalize`: anything shorter is
/// treated as degenerate and must be kept away by the caller.
pub const MIN_LOOK_SQ: i64 = 10_000;

/// Whether `r` is the integer square root (floor) of `s`.
pub open spec fn is_isqrt(s: int, r: int) -> bool {
    0 <= r && r * r <= s && s < (r + 1) * (r + 1)
}

/// The integer square root of `s`, for `s >= 0`.
pub open spec fn isqrt(s: int) -> int {
    choose|r: int| is_isqrt(s, r)
}

/// The integer square root exists for every nonnegative argument.
pub proof fn lemma_isqrt_exists(s: int)
    requires
        0 <= s,
    ensures
        is_isqrt(s, isqrt(s)),
    decreases s,
{
    if s == 0 {
        assert(is_isqrt(0, 0));
    } else {
        lemma_isqrt_exists(s - 1);
        let r0 = isqrt(s - 1);
        if s < (r0 + 1) * (r0 + 1) {
            assert(is_isqrt(s, r0));
        } else {
            assert(is_isqrt(s, r0 + 1)) by (nonlinear_arith)
                requires is_isqrt(s - 1, r0) && (r0 + 1) * (r0 + 1) <= s;
        }
    }
}

/// No two distinct values are both the integer square root of `s`.
pub proof fn lemma_isqrt_unique(s: int, a: int, b: int)
    requires
        is_isqrt(s, a),
        is_isqrt(s, b),
    ensures
        a == b,
{
    assert(a == b) by (nonlinear_arith)
        requires
            0 <= a && a * a <= s && s < (a + 1) * (a + 1),
            0 <= b && b * b <= s && s < (b + 1) * (b + 1);
}

/// Integer square root by counting up, exact on every input in range.
pub fn isqrt_u64(s: u64) -> (r: u64)
    requires
        s <= 4_000_000_000_000,
    ensures
        r as int == isqrt(s as int),
        is_isqrt(s as int, r as int),
{
    let mut r: u64 = 0;
    let mut sq: u64 = 1;
    while sq <= s
        invariant
            r * r <= s,
            r <= 2_000_000,
            sq == (r + 1) * (r + 1),
            s <= 4_000_000_000_000,
        decreases s - r * r,
    {
        proof {
            assert(r + 1 <= 2_000_000) by (nonlinear_arith)
                requires (r + 1) * (r + 1) <= 4_000_000_000_000int && 0 <= r;
            assert((r + 2) * (r + 2) == (r + 1) * (r + 1) + 2 * (r + 1) + 1) by (nonlinear_arith);
            assert(r * r < (r + 1) * (r + 1)) by (nonlinear_arith)
                requires 0 <= r;
        }
        r = r + 1;
        sq = sq + 2 * r + 1;
    }
    proof {
        lemma_isqrt_exists(s as int);
        lemma_isqrt_unique(s as int, r as int, isqrt(s as int));
    }
    r
}

/// The squared magnitude of a vector.
pub open spec fn norm_sq(v: Vec3) -> int {
    v.x * v.x + v.y * v.y + v.z * v.z
}

/// Division truncated toward zero, for a positive divisor.
pub open spec fn tz_div(a: int, b: int) -> int {
    if a >= 0 {
        a / b
    } else {
        -((-a) / b)
    }
}

/// The direction `v` rescaled to magnitude `MILLI`, rounded toward zero on
/// each axis: each component is `v_i * MILLI / isqrt(norm_sq(v))`.
pub open spec fn normalize_spec(v: Vec3) -> (int, int, int) {
    let n = isqrt(norm_sq(v));
    (
        tz_div(v.x * (MILLI as int), n),
        tz_div(v.y * (MILLI as int), n),
        tz_div(v.z * (MILLI as int), n),
    )
}

/// One scaled axis: `|a| * MILLI / n`, signed, with `|a| <= n`.
fn scale_axis(a: i64, n: u64) -> (r: i64)
    requires
        -MAX_LOOK <= a <= MAX_LOOK,
        0 < n <= 2_000_001,
        -(n as int) <= a <= n as int,
    ensures
        r as int == tz_div(a as int * (MILLI as int), n as int),
        -MILLI <= r <= MILLI,
    {
    proof {
        lemma_div_is_ordered(
            (if a >= 0 { a as int } else { -a as int }) * 1000,
            (n as int) * 1000,
            n as int,
        );
        lemma_div_multiples_vanish(1000, n as int);
        assert((n as int) * 1000 == (n as int) * 1000int);
    }
    if a >= 0 {
        (((a as u64) * 1000) / n) as i64
    } else {
        let m = (((-a) as u64) * 1000) / n;
        -(m as i64)
    }
}

/// Rescale a nonzero vector to magnitude `MILLI` on the integer grid.
///
/// The caller keeps near-zero vectors away, as the squared-magnitude floor
/// demands; directions fed to rays come from here.
pub fn normalize(v: Vec3) -> (d: Vec3)
    requires
        -MAX_LOOK <= v.x <= MAX_LOOK,
        -MAX_LOOK <= v.y <= MAX_LOOK,
        -MAX_LOOK <= v.z <= MAX_LOOK,
        MIN_LOOK_SQ <= norm_sq(v),
    ensures
        d.m() == normalize_spec(v),
        -MILLI <= d.x <= MILLI,
        -MILLI <= d.y <= MILLI,
        -MILLI <= d.z <= MILLI,
{
    proof {
        assert(0 <= v.x * v.x <= 1_000_000_000_000int && 0 <= v.y * v.y <= 1_000_000_000_000int
            && 0 <= v.z * v.z <= 1_000_000_000_000int) by (nonlinear_arith)
            requires
                -1_000_000 <= v.x <= 1_000_000,
                -1_000_000 <= v.y <= 1_000_000,
                -1_000_000 <= v.z <= 1_000_000;
    }
    let sx = v.x * v.x;
    let sy = v.y * v.y;
    let sz = v.z * v.z;
    let s = sx + sy + sz;
    let n = isqrt_u64(s as u64);
    proof {
        assert(n >= 1) by (nonlinear_arith)
            requires is_isqrt(s as int, n as int) && s >= 10_000;
        assert(n <= 2_000_000) by (nonlinear_arith)
            requires
                0 <= n,
                n * n <= s as int,
                s <= 4_000_000_000_000;
        assert(v.x * v.x <= s as int && v.y * v.y <= s as int && v.z * v.z <= s as int);
        lemma_component_within_isqrt(s as int, n as int, v.x as int);
        lemma_component_within_isqrt(s as int, n as int, v.y as int);
        lemma_component_within_isqrt(s as int, n as int, v.z as int);
    }
    Vec3 { x: scale_axis(v.x, n), y: scale_axis(v.y, n), z: scale_axis(v.z, n) }
}

/// A component whose square is at most `s` cannot exceed the integer
/// square root of `s` in magnitude.
proof fn lemma_component_within_isqrt(s: int, n: int, a: int)
    requires
        is_isqrt(s, n),
        a * a <= s,
    ensures
        -n <= a <= n,
{
    assert(-n <= a <= n) by (nonlinear_arith)
        requires 0 <= n && s < (n + 1) * (n + 1) && a * a <= s;
}

impl Vec3 {
    /// Componentwise vector addition.
    pub fn add(self, other: Vec3) -> (r: Vec3)
        requires
            -MAX_COORD <= self.x + other.x <= MAX_COORD,
            -MAX_COORD <= self.y + other.y <= MAX_COORD,
            -MAX_COORD <= self.z + other.z <= MAX_COORD,
        ensures
            r.x as int == self.x + other.x,
            r.y as int == self.y + other.y,
            r.z as int == self.z + other.z,
    {
        Vec3 { x: self.x + other.x, y: self.y + other.y, z: self.z + other.z }
    }

    /// This unit-scale vector stretched to length `t`: each component is
    /// scaled by `t / MILLI`, rounded toward zero.
    pub fn scaled(self, t: i64) -> (r: Vec3)
        requires
            -MILLI <= self.x <= MILLI,
            -MILLI <= self.y <= MILLI,
            -MILLI <= self.z <= MILLI,
            0 <= t <= MAX_RAY_LENGTH,
        ensures
            r.x as int == scale_milli(self.x as int, t as int),
            r.y as int == scale_milli(self.y as int, t as int),
            r.z as int == scale_milli(self.z as int, t as int),
            -t <= r.x <= t,
            -t <= r.y <= t,
            -t <= r.z <= t,
    {
        Vec3 { x: mul_milli(self.x, t), y: mul_milli(self.y, t), z: mul_milli(self.z, t) }
    }
}

} // verus!
