//! World-space and screen-space points, tile coordinates, and the conversions
//! between them.

use vstd::prelude::*;

verus! {

/// Side of one square map tile, in world units.
pub const TILE_WIDTH: u32 = 64;

/// Largest tile coordinate whose whole cell fits in the range of `WorldCoord`.
pub const MAX_TILE_COORD: u32 = 33554431;

/// A coordinate in world space.
#[derive(Clone, Copy, Debug, PartialEq, Eq, Structural)]
pub struct WorldCoord(pub i32);

/// A coordinate in screen (window) space, in pixels.
#[derive(Clone, Copy, Debug, PartialEq, Eq, Structural)]
pub struct ScreenCoord(pub i32);

#[derive(Clone, Copy, Debug, PartialEq, Eq, Structural)]
pub struct WorldPoint {
    pub x: WorldCoord,
    pub y: WorldCoord,
}

#[derive(Clone, Copy, Debug, PartialEq, Eq, Structural)]
pub struct ScreenPoint {
    pub x: ScreenCoord,
    pub y: ScreenCoord,
}

/// The column and row of one map tile.
#[derive(Clone, Copy, Debug, PartialEq, Eq, Structural)]
pub struct TilePoint {
    pub x: u32,
    pub y: u32,
}

/// A closed axis-aligned rectangle in world space: every point (x, y) with
/// `left <= x <= right` and `top <= y <= bottom`. It is empty when
/// `left > right` or `top > bottom`.
#[derive(Clone, Copy, Debug, PartialEq, Eq, Structural)]
pub struct WorldRect {
    pub left: i64,
    pub top: i64,
    pub right: i64,
    pub bottom: i64,
}

/// `v` brought into the range of `i32`.
pub open spec fn clamp_i32(v: int) -> int {
    if v < i32::MIN {
        i32::MIN as int
    } else if v > i32::MAX {
        i32::MAX as int
    } else {
        v
    }
}

/// The tile column (or row) whose cell holds the non-negative world coordinate `c`.
pub open spec fn tile_of(c: int) -> int {
    c / (TILE_WIDTH as int)
}

/// The world coordinate of the first edge of tile column (or row) `t`.
pub open spec fn tile_edge(t: int) -> int {
    t * (TILE_WIDTH as int)
}

/// The world coordinate of the middle of tile column (or row) `t`.
pub open spec fn tile_middle(t: int) -> int {
    t * (TILE_WIDTH as int) + (TILE_WIDTH as int) / 2
}

/// Integer division that rounds toward zero, for a positive divisor.
pub open spec fn trunc_div(a: int, b: int) -> int {
    if a >= 0 {
        a / b
    } else {
        -((-a) / b)
    }
}

/// `r` is the integer square root of `n`, rounded down.
pub open spec fn is_floor_sqrt(n: int, r: int) -> bool {
    0 <= r && r * r <= n && n < (r + 1) * (r + 1)
}

/// The integer square root of `n`, rounded down.
pub open spec fn floor_sqrt_of(n: int) -> int {
    choose|r: int| is_floor_sqrt(n, r)
}

/// There is one rounded-down square root of each number, and `floor_sqrt_of` names it.
pub proof fn lemma_floor_sqrt_unique(n: int, r: int)
    requires
        is_floor_sqrt(n, r),
    ensures
        floor_sqrt_of(n) == r,
{
    let s = floor_sqrt_of(n);
    assert(is_floor_sqrt(n, s));
    if s < r {
        assert((s + 1) * (s + 1) <= r * r) by (nonlinear_arith)
            requires
                0 <= s,
                s + 1 <= r,
        ;
    } else if r < s {
        assert((r + 1) * (r + 1) <= s * s) by (nonlinear_arith)
            requires
                0 <= r,
                r + 1 <= s,
        ;
    }
}

/// The integer square root of `n`, rounded down.
pub fn floor_sqrt(n: u128) -> (r: u128)
    requires
        n < 0x10000000000000000000000000,
    ensures
        is_floor_sqrt(n as int, r as int),
        r as int == floor_sqrt_of(n as int),
        r <= 0x4000000000000,
{
    let mut lo: u128 = 0;
    let mut hi: u128 = 0x4000000000000;
    assert(0x4000000000000 * 0x4000000000000 == 0x10000000000000000000000000) by (nonlinear_arith);
    while hi - lo > 1
        invariant
            lo < hi <= 0x4000000000000,
            lo as int * lo as int <= n as int,
            (n as int) < hi as int * hi as int,
        decreases hi - lo,
    {
        let mid: u128 = lo + (hi - lo) / 2;
        assert((mid as int) * (mid as int) <= 0x4000000000000 * 0x4000000000000) by (nonlinear_arith)
            requires
                0 <= mid <= 0x4000000000000,
        ;
        if mid * mid <= n {
            lo = mid;
        } else {
            hi = mid;
        }
    }
    proof {
        lemma_floor_sqrt_unique(n as int, lo as int);
    }
    lo
}

impl WorldPoint {
    pub fn new(x: WorldCoord, y: WorldCoord) -> (r: WorldPoint)
        ensures
            r.x == x,
            r.y == y,
    {
        WorldPoint { x, y }
    }

    /// The squared length of the vector from the origin to this point.
    pub open spec fn magnitude_sq(self) -> int {
        self.x.0 * self.x.0 + self.y.0 * self.y.0
    }

    /// The length of the vector from the origin to this point, rounded down.
    pub fn magnitude(self) -> (r: u128)
        ensures
            is_floor_sqrt(self.magnitude_sq(), r as int),
    {
        let x = self.x.0 as i64;
        let y = self.y.0 as i64;
        assert(x * x <= 4611686018427387904) by (nonlinear_arith)
            requires
                -2147483648 <= x <= 2147483647,
        ;
        assert(y * y <= 4611686018427387904) by (nonlinear_arith)
            requires
                -2147483648 <= y <= 2147483647,
        ;
        assert(0 <= x * x && 0 <= y * y) by (nonlinear_arith);
        let sq: u128 = (x * x) as u128 + (y * y) as u128;
        floor_sqrt(sq)
    }

    /// The vector from the origin to this point, scaled to length `len`: each
    /// coordinate is multiplied by `len` and divided by the rounded-down
    /// length, rounding toward zero. The zero vector stays as it is.
    pub fn normalized(self, len: u32) -> (r: WorldPoint)
        requires
            len <= i32::MAX,
        ensures
            self.magnitude_sq() == 0 ==> r == self,
            self.magnitude_sq() > 0 ==> {
                let mag = floor_sqrt_of(self.magnitude_sq());
                &&& r.x.0 == trunc_div(self.x.0 * len, mag)
                &&& r.y.0 == trunc_div(self.y.0 * len, mag)
            },
    {
        if self.x.0 == 0 && self.y.0 == 0 {
            return self;
        }
        let mag = self.magnitude();
        proof {
            assert(self.magnitude_sq() > 0) by (nonlinear_arith)
                requires
                    self.x.0 != 0 || self.y.0 != 0,
            ;
            lemma_floor_sqrt_unique(self.magnitude_sq(), mag as int);
            assert(self.x.0 * self.x.0 >= 0 && self.y.0 * self.y.0 >= 0) by (nonlinear_arith);
            assert(mag > 0) by {
                if mag == 0 {
                    assert(self.magnitude_sq() < 1) by (nonlinear_arith)
                        requires
                            mag == 0,
                            self.magnitude_sq() < (mag + 1) * (mag + 1),
                    ;
                }
            }
        }
        WorldPoint {
            x: WorldCoord(scale_coord(self.x.0, len, mag, Ghost(self.magnitude_sq()))),
            y: WorldCoord(scale_coord(self.y.0, len, mag, Ghost(self.magnitude_sq()))),
        }
    }

    /// This point as seen through a camera whose top-left corner is at `camera`.
    /// A coordinate beyond the range of the screen is clamped to it.
    pub fn to_screen(self, camera: WorldPoint) -> (r: ScreenPoint)
        ensures
            r.x.0 == clamp_i32(self.x.0 - camera.x.0),
            r.y.0 == clamp_i32(self.y.0 - camera.y.0),
    {
        ScreenPoint {
            x: ScreenCoord(saturate_i32(self.x.0 as i64 - camera.x.0 as i64)),
            y: ScreenCoord(saturate_i32(self.y.0 as i64 - camera.y.0 as i64)),
        }
    }

    /// The tile whose cell holds this point; `None` when a coordinate is negative.
    pub open spec fn to_tile_point_spec(self) -> Option<TilePoint> {
        if self.x.0 < 0 || self.y.0 < 0 {
            None
        } else {
            Some(TilePoint { x: tile_of(self.x.0 as int) as u32, y: tile_of(self.y.0 as int) as u32 })
        }
    }

    /// The tile whose cell holds this point; `None` when a coordinate is negative,
    /// since no tile lies there.
    pub fn to_tile_point(self) -> (r: Option<TilePoint>)
        ensures
            r == self.to_tile_point_spec(),
            r matches Some(t) ==> t.x <= MAX_TILE_COORD && t.y <= MAX_TILE_COORD,
    {
        if self.x.0 < 0 || self.y.0 < 0 {
            None
        } else {
            Some(TilePoint { x: (self.x.0 as u32) / TILE_WIDTH, y: (self.y.0 as u32) / TILE_WIDTH })
        }
    }
}

impl ScreenPoint {
    pub fn new(x: ScreenCoord, y: ScreenCoord) -> (r: ScreenPoint)
        ensures
            r.x == x,
            r.y == y,
    {
        ScreenPoint { x, y }
    }

    /// The world point under this screen point, for a camera whose top-left corner
    /// is at `camera`. A coordinate beyond the range of the world is clamped to it.
    pub fn to_world(self, camera: WorldPoint) -> (r: WorldPoint)
        ensures
            r.x.0 == clamp_i32(self.x.0 + camera.x.0),
            r.y.0 == clamp_i32(self.y.0 + camera.y.0),
    {
        WorldPoint {
            x: WorldCoord(saturate_i32(self.x.0 as i64 + camera.x.0 as i64)),
            y: WorldCoord(saturate_i32(self.y.0 as i64 + camera.y.0 as i64)),
        }
    }
}

impl TilePoint {
    pub fn new(x: u32, y: u32) -> (r: TilePoint)
        ensures
            r.x == x,
            r.y == y,
    {
        TilePoint { x, y }
    }

    /// The top-left corner of this tile's cell.
    pub fn to_world_point(self) -> (r: WorldPoint)
        requires
            self.x <= MAX_TILE_COORD,
            self.y <= MAX_TILE_COORD,
        ensures
            r.x.0 == tile_edge(self.x as int),
            r.y.0 == tile_edge(self.y as int),
    {
        WorldPoint {
            x: WorldCoord((self.x * TILE_WIDTH) as i32),
            y: WorldCoord((self.y * TILE_WIDTH) as i32),
        }
    }

    /// The middle of this tile's cell.
    pub fn tile_center(self) -> (r: WorldPoint)
        requires
            self.x <= MAX_TILE_COORD,
            self.y <= MAX_TILE_COORD,
        ensures
            r.x.0 == tile_middle(self.x as int),
            r.y.0 == tile_middle(self.y as int),
    {
        WorldPoint {
            x: WorldCoord((self.x * TILE_WIDTH + TILE_WIDTH / 2) as i32),
            y: WorldCoord((self.y * TILE_WIDTH + TILE_WIDTH / 2) as i32),
        }
    }
}

/// `c * len / mag`, rounded toward zero, where `mag` is the rounded-down
/// square root of a sum of squares that includes `c * c`.
fn scale_coord(c: i32, len: u32, mag: u128, Ghost(sq): Ghost<int>) -> (r: i32)
    requires
        len <= i32::MAX,
        c * c <= sq,
        is_floor_sqrt(sq, mag as int),
        mag > 0,
    ensures
        r as int == trunc_div(c * len, mag as int),
{
    let a: u128 = if c >= 0 { c as u128 } else { (-(c as i64)) as u128 };
    proof {
        assert(a * a == c * c) by (nonlinear_arith)
            requires
                a == c || a == -c,
        ;
        if a > mag {
            assert((mag + 1) * (mag + 1) <= a * a) by (nonlinear_arith)
                requires
                    mag + 1 <= a,
                    0 <= mag,
            ;
        }
        assert(a * len <= mag * len) by (nonlinear_arith)
            requires
                a <= mag,
                0 <= len,
        ;
        assert(a * len <= 0x80000000 * 0x80000000) by (nonlinear_arith)
            requires
                a <= 0x80000000,
                0 <= len <= 0x7fffffff,
        ;
        vstd::arithmetic::div_mod::lemma_div_is_ordered(a * len, mag * len, mag as int);
        vstd::arithmetic::div_mod::lemma_div_multiples_vanish(len as int, mag as int);
        assert(mag * len == len * mag) by (nonlinear_arith);
        vstd::arithmetic::div_mod::lemma_div_is_ordered(0, a * len, mag as int);
        assert((-c) * len == -(c * len)) by (nonlinear_arith);
    }
    let q: u128 = (a * (len as u128)) / mag;
    if c >= 0 {
        q as i32
    } else {
        -(q as i32)
    }
}

/// `v` brought into the range of `i32`.
pub fn saturate_i32(v: i64) -> (r: i32)
    ensures
        r as int == clamp_i32(v as int),
{
    if v < i32::MIN as i64 {
        i32::MIN
    } else if v > i32::MAX as i64 {
        i32::MAX
    } else {
        v as i32
    }
}

/// Converting a tile to the middle of its cell and back gives the same tile.
pub proof fn lemma_tile_center_round_trip(t: TilePoint)
    requires
        t.x <= MAX_TILE_COORD,
        t.y <= MAX_TILE_COORD,
    ensures
        tile_middle(t.x as int) >= 0,
        tile_middle(t.y as int) >= 0,
        tile_of(tile_middle(t.x as int)) == t.x,
        tile_of(tile_middle(t.y as int)) == t.y,
{
    vstd::arithmetic::div_mod::lemma_fundamental_div_mod_converse(
        tile_middle(t.x as int),
        TILE_WIDTH as int,
        t.x as int,
        (TILE_WIDTH / 2) as int,
    );
    vstd::arithmetic::div_mod::lemma_fundamental_div_mod_converse(
        tile_middle(t.y as int),
        TILE_WIDTH as int,
        t.y as int,
        (TILE_WIDTH / 2) as int,
    );
}

impl WorldRect {
    /// The rectangle holds at least one point.
    pub open spec fn non_empty(self) -> bool {
        self.left <= self.right && self.top <= self.bottom
    }

    /// The two rectangles share at least one point.
    pub open spec fn meets(self, other: WorldRect) -> bool {
        &&& self.non_empty()
        &&& other.non_empty()
        &&& self.left <= other.right
        &&& other.left <= self.right
        &&& self.top <= other.bottom
        &&& other.top <= self.bottom
    }

    /// The smallest rectangle that holds both points.
    pub fn from_corners(p: WorldPoint, q: WorldPoint) -> (r: WorldRect)
        ensures
            r.left == (if p.x.0 <= q.x.0 { p.x.0 } else { q.x.0 }),
            r.right == (if p.x.0 <= q.x.0 { q.x.0 } else { p.x.0 }),
            r.top == (if p.y.0 <= q.y.0 { p.y.0 } else { q.y.0 }),
            r.bottom == (if p.y.0 <= q.y.0 { q.y.0 } else { p.y.0 }),
    {
        let (left, right) = if p.x.0 <= q.x.0 { (p.x.0, q.x.0) } else { (q.x.0, p.x.0) };
        let (top, bottom) = if p.y.0 <= q.y.0 { (p.y.0, q.y.0) } else { (q.y.0, p.y.0) };
        WorldRect { left: left as i64, top: top as i64, right: right as i64, bottom: bottom as i64 }
    }

    /// Whether the two rectangles share at least one point.
    pub fn intersects(&self, other: &WorldRect) -> (r: bool)
        ensures
            r == self.meets(*other),
    {
        self.left <= self.right && self.top <= self.bottom && other.left <= other.right && other.top
            <= other.bottom && self.left <= other.right && other.left <= self.right && self.top
            <= other.bottom && other.top <= self.bottom
    }
}

} // verus!
