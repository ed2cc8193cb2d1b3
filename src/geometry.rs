//! Points on an integer grid, segment lengths and interpolation.
use vstd::prelude::*;

verus! {

/// Largest absolute value of a coordinate.
pub const COORD_LIMIT: i64 = 0x2000_0000;

/// A point of the plane, in fixed-point grid units.
#[derive(Clone, Copy, Debug, PartialEq, Eq, Structural)]
pub struct Point {
    pub x: i64,
    pub y: i64,
}

/// A straight piece of a path, walked from `from` to `to`.
#[derive(Clone, Copy, Debug, PartialEq, Eq, Structural)]
pub struct Segment {
    pub from: Point,
    pub to: Point,
}

pub open spec fn coord_in_range(c: int) -> bool {
    -(COORD_LIMIT as int) <= c <= COORD_LIMIT as int
}

pub open spec fn point_in_range(p: Point) -> bool {
    coord_in_range(p.x as int) && coord_in_range(p.y as int)
}

pub open spec fn is_floor_sqrt(x: nat, r: nat) -> bool {
    r * r <= x < (r + 1) * (r + 1)
}

/// The largest `r` with `r * r <= x`.
pub open spec fn floor_sqrt(x: nat) -> nat {
    choose|r: nat| is_floor_sqrt(x, r)
}

pub open spec fn dist_squared(a: Point, b: Point) -> nat {
    ((b.x - a.x) * (b.x - a.x) + (b.y - a.y) * (b.y - a.y)) as nat
}

/// Euclidean length of a segment, rounded down to whole grid units.
pub open spec fn seg_len(s: Segment) -> nat {
    floor_sqrt(dist_squared(s.from, s.to))
}

/// The coordinate `num / den` of the way from `a` to `b`, rounded towards `a`.
pub open spec fn lerp_coord(a: int, b: int, num: nat, den: nat) -> int {
    if a <= b {
        a + (b - a) * num / (den as int)
    } else {
        a - (a - b) * num / (den as int)
    }
}

/// The point `num / den` of the way along a segment.
pub open spec fn lerp_point(s: Segment, num: nat, den: nat) -> Point {
    Point {
        x: lerp_coord(s.from.x as int, s.to.x as int, num, den) as i64,
        y: lerp_coord(s.from.y as int, s.to.y as int, num, den) as i64,
    }
}

pub proof fn lemma_floor_sqrt_unique(x: nat, r1: nat, r2: nat)
    requires
        is_floor_sqrt(x, r1),
        is_floor_sqrt(x, r2),
    ensures
        r1 == r2,
{
    if r1 < r2 {
        assert((r1 + 1) * (r1 + 1) <= r2 * r2) by (nonlinear_arith)
            requires r1 + 1 <= r2;
    } else if r2 < r1 {
        assert((r2 + 1) * (r2 + 1) <= r1 * r1) by (nonlinear_arith)
            requires r2 + 1 <= r1;
    }
}

pub proof fn lemma_floor_sqrt_exists(x: nat)
    ensures
        exists|r: nat| #[trigger] is_floor_sqrt(x, r),
    decreases x,
{
    if x == 0 {
        assert(0nat * 0nat == 0 && 1nat * 1nat == 1) by (nonlinear_arith);
        assert(is_floor_sqrt(0, 0));
    } else {
        lemma_floor_sqrt_exists((x - 1) as nat);
        let r = choose|r: nat| #[trigger] is_floor_sqrt((x - 1) as nat, r);
        if (r + 1) * (r + 1) <= x {
            assert((r + 1) * (r + 1) == x);
            assert(x < (r + 2) * (r + 2)) by (nonlinear_arith)
                requires (r + 1) * (r + 1) == x;
            assert(is_floor_sqrt(x, r + 1));
        } else {
            assert(is_floor_sqrt(x, r));
        }
    }
}

/// A segment between in-range points is shorter than `2^31`.
pub proof fn lemma_seg_len_bound(s: Segment)
    requires
        point_in_range(s.from),
        point_in_range(s.to),
    ensures
        seg_len(s) < 0x8000_0000,
{
    let d2 = dist_squared(s.from, s.to);
    let dx = s.to.x - s.from.x;
    let dy = s.to.y - s.from.y;
    assert(dx * dx <= 0x1000_0000_0000_0000) by (nonlinear_arith)
        requires -0x4000_0000 <= dx <= 0x4000_0000;
    assert(dy * dy <= 0x1000_0000_0000_0000) by (nonlinear_arith)
        requires -0x4000_0000 <= dy <= 0x4000_0000;
    assert(dx * dx >= 0 && dy * dy >= 0) by (nonlinear_arith);
    assert(d2 == dx * dx + dy * dy);
    lemma_floor_sqrt_exists(d2);
    let r = seg_len(s);
    assert(is_floor_sqrt(d2, r));
    assert(r < 0x8000_0000) by (nonlinear_arith)
        requires r * r <= d2, d2 <= 0x2000_0000_0000_0000;
}

/// The largest `r` with `r * r <= x`, for `x < 2^62`.
pub fn isqrt(x: u64) -> (r: u64)
    requires
        x < 0x4000_0000_0000_0000,
    ensures
        r as nat == floor_sqrt(x as nat),
        r < 0x8000_0000,
{
    let mut lo: u64 = 0;
    let mut hi: u64 = 0x8000_0000;
    assert(hi * hi == 0x4000_0000_0000_0000u64) by (nonlinear_arith)
        requires hi == 0x8000_0000u64;
    while hi - lo > 1
        invariant
            lo < hi <= 0x8000_0000,
            lo * lo <= x,
            x < hi * hi,
        decreases hi - lo,
    {
        let mid: u64 = lo + (hi - lo) / 2;
        assert(mid * mid < 0x4000_0000_0000_0000) by (nonlinear_arith)
            requires mid < 0x8000_0000u64;
        if mid * mid <= x {
            lo = mid;
        } else {
            hi = mid;
        }
    }
    assert(is_floor_sqrt(x as nat, lo as nat));
    let ghost r = floor_sqrt(x as nat);
    assert(is_floor_sqrt(x as nat, r));
    proof {
        lemma_floor_sqrt_unique(x as nat, lo as nat, r);
    }
    lo
}

/// Length of a segment whose ends lie in range, rounded down.
pub fn segment_length(s: Segment) -> (r: u64)
    requires
        point_in_range(s.from),
        point_in_range(s.to),
    ensures
        r as nat == seg_len(s),
        r < 0x8000_0000,
{
    let dx: i64 = s.to.x - s.from.x;
    let dy: i64 = s.to.y - s.from.y;
    let ax: u64 = if dx >= 0 { dx as u64 } else { (-dx) as u64 };
    let ay: u64 = if dy >= 0 { dy as u64 } else { (-dy) as u64 };
    assert(ax * ax <= 0x1000_0000_0000_0000) by (nonlinear_arith)
        requires ax <= 0x4000_0000u64;
    assert(ay * ay <= 0x1000_0000_0000_0000) by (nonlinear_arith)
        requires ay <= 0x4000_0000u64;
    let d2: u64 = ax * ax + ay * ay;
    assert(d2 as nat == dist_squared(s.from, s.to)) by (nonlinear_arith)
        requires
            d2 == ax * ax + ay * ay,
            ax == dx || ax == -dx,
            ay == dy || ay == -dy,
            dx == s.to.x - s.from.x,
            dy == s.to.y - s.from.y,
    ;
    isqrt(d2)
}

/// The coordinate `num / den` of the way from `a` to `b`, rounded towards `a`.
pub fn lerp_coordinate(a: i64, b: i64, num: u128, den: u128) -> (r: i64)
    requires
        coord_in_range(a as int),
        coord_in_range(b as int),
        0 < den,
        num <= den,
        num < 0x1_0000_0000_0000_0000_0000_0000,
    ensures
        r as int == lerp_coord(a as int, b as int, num as nat, den as nat),
        a <= b ==> a <= r <= b,
        b < a ==> b <= r <= a,
{
    if a <= b {
        let diff: u128 = (b - a) as u128;
        assert(diff * num <= diff * den) by (nonlinear_arith)
            requires num <= den;
        assert(diff * num < 0x4000_0000_0000_0000_0000_0000_0000_0000) by (nonlinear_arith)
            requires diff <= 0x4000_0000u128, num < 0x1_0000_0000_0000_0000_0000_0000u128;
        let prod: u128 = diff * num;
        let q: u128 = prod / den;
        assert(q <= diff) by (nonlinear_arith)
            requires q == prod / den, prod <= diff * den, den > 0;
        a + q as i64
    } else {
        let diff: u128 = (a - b) as u128;
        assert(diff * num <= diff * den) by (nonlinear_arith)
            requires num <= den;
        assert(diff * num < 0x4000_0000_0000_0000_0000_0000_0000_0000) by (nonlinear_arith)
            requires diff <= 0x4000_0000u128, num < 0x1_0000_0000_0000_0000_0000_0000u128;
        let prod: u128 = diff * num;
        let q: u128 = prod / den;
        assert(q <= diff) by (nonlinear_arith)
            requires q == prod / den, prod <= diff * den, den > 0;
        a - q as i64
    }
}

/// The point `num / den` of the way along a segment.
pub fn lerp_segment(s: Segment, num: u128, den: u128) -> (r: Point)
    requires
        point_in_range(s.from),
        point_in_range(s.to),
        0 < den,
        num <= den,
        num < 0x1_0000_0000_0000_0000_0000_0000,
    ensures
        r == lerp_point(s, num as nat, den as nat),
        point_in_range(r),
{
    Point {
        x: lerp_coordinate(s.from.x, s.to.x, num, den),
        y: lerp_coordinate(s.from.y, s.to.y, num, den),
    }
}

} // verus!
