//! One tick of unit motion: the tentative step toward a waypoint and the box
//! that is tested against the map's obstacles.

use vstd::prelude::*;

use crate::dimensions::{floor_sqrt, floor_sqrt_of, is_floor_sqrt, trunc_div, WorldCoord, WorldPoint, WorldRect};

verus! {

/// The squared distance between two points.
pub open spec fn dist_sq(p: WorldPoint, q: WorldPoint) -> int {
    let dx = q.x.0 - p.x.0;
    let dy = q.y.0 - p.y.0;
    dx * dx + dy * dy
}

/// Where a unit at `pos` moving `speed` units per tick toward `target` would be
/// after one tick, and whether that step reaches the target. Closer than one
/// step away, the step lands on the target; a unit that cannot move (speed 0)
/// stays where it is; otherwise the unit moves `speed` units along the line to
/// the target, the length of that line rounded down
/// and each coordinate rounded toward zero.
pub open spec fn tentative_step(pos: WorldPoint, target: WorldPoint, speed: int) -> (WorldPoint, bool) {
    let d2 = dist_sq(pos, target);
    if d2 < speed * speed {
        (target, true)
    } else if d2 == 0 {
        (pos, false)
    } else {
        let mag = floor_sqrt_of(d2);
        (
            WorldPoint {
                x: WorldCoord((pos.x.0 + trunc_div((target.x.0 - pos.x.0) * speed, mag)) as i32),
                y: WorldCoord((pos.y.0 + trunc_div((target.y.0 - pos.y.0) * speed, mag)) as i32),
            },
            false,
        )
    }
}

/// The square of side `2 * radius` centred on `p`.
pub open spec fn box_around(p: WorldPoint, radius: int) -> WorldRect {
    WorldRect {
        left: (p.x.0 - radius) as i64,
        top: (p.y.0 - radius) as i64,
        right: (p.x.0 + radius) as i64,
        bottom: (p.y.0 + radius) as i64,
    }
}

/// The bounding box of a unit of the given radius standing at `p`.
pub fn bounding_box_at(p: WorldPoint, radius: u32) -> (r: WorldRect)
    ensures
        r == box_around(p, radius as int),
{
    WorldRect {
        left: p.x.0 as i64 - radius as i64,
        top: p.y.0 as i64 - radius as i64,
        right: p.x.0 as i64 + radius as i64,
        bottom: p.y.0 as i64 + radius as i64,
    }
}

/// A step of `d * speed / mag`, with `speed <= mag`, lies between 0 and `d`.
proof fn lemma_scaled_step(d: int, speed: int, mag: int)
    requires
        0 <= speed <= mag,
        0 < mag,
    ensures
        d >= 0 ==> 0 <= trunc_div(d * speed, mag) <= d,
        d < 0 ==> d <= trunc_div(d * speed, mag) <= 0,
{
    let a = if d >= 0 {
        d
    } else {
        -d
    };
    assert(0 <= a * speed <= a * mag) by (nonlinear_arith)
        requires
            0 <= speed <= mag,
            a >= 0,
    ;
    vstd::arithmetic::div_mod::lemma_div_is_ordered(a * speed, a * mag, mag);
    vstd::arithmetic::div_mod::lemma_div_multiples_vanish(a, mag);
    assert(a * mag == mag * a) by (nonlinear_arith);
    vstd::arithmetic::div_mod::lemma_div_is_ordered(0, a * speed, mag);
    assert((-d) * speed == -(d * speed)) by (nonlinear_arith);
}

/// `|delta|` rounded down is at least `speed` when `|delta|^2 >= speed^2`.
proof fn lemma_root_at_least(d2: int, speed: int, mag: int)
    requires
        0 <= speed,
        speed * speed <= d2,
        is_floor_sqrt(d2, mag),
    ensures
        speed <= mag,
{
    if mag < speed {
        assert((mag + 1) * (mag + 1) <= speed * speed) by (nonlinear_arith)
            requires
                0 <= mag,
                mag + 1 <= speed,
        ;
    }
}

/// `n * speed / mag`, rounded toward zero, for `mag > 0`.
fn scale(n: i64, speed: u32, mag: u128) -> (r: i64)
    requires
        -0x100000000 <= n <= 0x100000000,
        0 < mag,
        speed as int <= mag,
    ensures
        r as int == trunc_div(n * speed, mag as int),
{
    proof {
        lemma_scaled_step(n as int, speed as int, mag as int);
        assert(-0x100000000 * 0x100000000 <= n * speed <= 0x100000000 * 0x100000000) by (nonlinear_arith)
            requires
                -0x100000000 <= n <= 0x100000000,
                0 <= speed <= 0xffffffff,
        ;
    }
    if n >= 0 {
        let q: u128 = ((n as u128) * (speed as u128)) / mag;
        q as i64
    } else {
        assert(0 <= (-n) * speed <= 0x100000000 * 0x100000000) by (nonlinear_arith)
            requires
                -0x100000000 <= n < 0,
                0 <= speed <= 0xffffffff,
        ;
        let q: u128 = ((-n) as u128 * (speed as u128)) / mag;
        proof {
            assert((-n) * speed == -(n * speed)) by (nonlinear_arith);
        }
        -(q as i64)
    }
}

/// The tentative position after one tick of moving from `pos` toward `target`
/// at `speed` units per tick, and whether it reaches the target.
pub fn next_position(pos: WorldPoint, target: WorldPoint, speed: u32) -> (r: (WorldPoint, bool))
    ensures
        r == tentative_step(pos, target, speed as int),
{
    let dx: i64 = target.x.0 as i64 - pos.x.0 as i64;
    let dy: i64 = target.y.0 as i64 - pos.y.0 as i64;
    proof {
        assert(0 <= dx * dx <= 0x100000000 * 0x100000000) by (nonlinear_arith)
            requires
                -0x100000000 <= dx <= 0x100000000,
        ;
        assert(0 <= dy * dy <= 0x100000000 * 0x100000000) by (nonlinear_arith)
            requires
                -0x100000000 <= dy <= 0x100000000,
        ;
        assert(0 <= speed * speed <= 0x100000000 * 0x100000000) by (nonlinear_arith)
            requires
                0 <= speed <= 0xffffffff,
        ;
    }
    let d2: u128 = (dx as i128 * dx as i128) as u128 + (dy as i128 * dy as i128) as u128;
    let sp: u128 = (speed as u128) * (speed as u128);
    assert(d2 as int == dist_sq(pos, target));
    if d2 < sp {
        return (target, true);
    }
    if d2 == 0 {
        return (pos, false);
    }
    let mag = floor_sqrt(d2);
    proof {
        lemma_root_at_least(d2 as int, speed as int, mag as int);
        assert(mag > 0) by {
            if mag == 0 {
                assert(d2 < 1) by (nonlinear_arith)
                    requires
                        mag == 0,
                        d2 < (mag + 1) * (mag + 1),
                ;
            }
        }
        lemma_scaled_step(dx as int, speed as int, mag as int);
        lemma_scaled_step(dy as int, speed as int, mag as int);
    }
    let sx = scale(dx, speed, mag);
    let sy = scale(dy, speed, mag);
    let nx = (pos.x.0 as i64 + sx) as i32;
    let ny = (pos.y.0 as i64 + sy) as i32;
    (WorldPoint { x: WorldCoord(nx), y: WorldCoord(ny) }, false)
}

} // verus!
