use rts::dimensions::{floor_sqrt, saturate_i32, ScreenCoord, ScreenPoint, WorldCoord, WorldPoint, WorldRect};
use rts::input::{KeyState, Modifier};
use rts::movement::{bounding_box_at, next_position};

fn pt(x: i32, y: i32) -> WorldPoint {
    WorldPoint::new(WorldCoord(x), WorldCoord(y))
}

#[test]
fn floor_sqrt_rounds_down() {
    assert_eq!(floor_sqrt(0), 0);
    assert_eq!(floor_sqrt(1), 1);
    assert_eq!(floor_sqrt(24), 4);
    assert_eq!(floor_sqrt(25), 5);
    assert_eq!(floor_sqrt(u64::MAX as u128), 4294967295);
}

#[test]
fn magnitude_of_a_point() {
    assert_eq!(pt(3, 4).magnitude(), 5);
    assert_eq!(pt(-3, 5).magnitude(), 5);
    assert_eq!(pt(i32::MIN, i32::MIN).magnitude(), 3037000499);
}

#[test]
fn screen_and_world_conversions_clamp() {
    let camera = pt(100, -50);
    let s = pt(130, 10).to_screen(camera);
    assert_eq!((s.x.0, s.y.0), (30, 60));
    let w = ScreenPoint::new(ScreenCoord(30), ScreenCoord(60)).to_world(camera);
    assert_eq!(w, pt(130, 10));
    let far = pt(i32::MAX, 0).to_screen(pt(-10, 0));
    assert_eq!(far.x.0, i32::MAX);
    assert_eq!(saturate_i32(-5_000_000_000), i32::MIN);
}

#[test]
fn step_toward_a_target() {
    assert_eq!(next_position(pt(0, 0), pt(10, 0), 3), (pt(3, 0), false));
    assert_eq!(next_position(pt(0, 0), pt(2, 0), 3), (pt(2, 0), true));
    assert_eq!(next_position(pt(0, 0), pt(-30, -40), 5), (pt(-3, -4), false));
    assert_eq!(next_position(pt(5, 5), pt(5, 5), 0), (pt(5, 5), false));
    assert_eq!(next_position(pt(5, 5), pt(5, 5), 1), (pt(5, 5), true));
    assert_eq!(next_position(pt(i32::MIN, 0), pt(i32::MAX, 0), u32::MAX), (pt(i32::MAX, 0), false));
}

#[test]
fn box_around_a_unit() {
    let r = bounding_box_at(pt(100, 50), 16);
    assert_eq!(r, WorldRect { left: 84, top: 34, right: 116, bottom: 66 });
}

#[test]
fn rectangles_from_corners_and_intersection() {
    let a = WorldRect::from_corners(pt(10, 40), pt(0, 20));
    assert_eq!(a, WorldRect { left: 0, top: 20, right: 10, bottom: 40 });
    assert!(a.intersects(&WorldRect { left: 10, top: 40, right: 20, bottom: 50 }));
    assert!(!a.intersects(&WorldRect { left: 11, top: 0, right: 20, bottom: 50 }));
    assert!(!a.intersects(&WorldRect { left: 5, top: 30, right: 4, bottom: 35 }));
}

#[test]
fn modifier_keys() {
    let mut k = KeyState::new();
    assert!(!k.ctrl() && !k.shift() && !k.alt());
    k.set(Modifier::RightShift, true);
    assert!(k.shift() && !k.ctrl());
    k.set(Modifier::LeftCtrl, true);
    k.set(Modifier::RightShift, false);
    assert!(k.ctrl() && !k.shift());
    k.set(Modifier::LeftAlt, true);
    assert!(k.alt());
}

#[test]
fn normalized_scales_to_the_given_length() {
    assert_eq!(pt(30, -40).normalized(10), pt(6, -8));
    assert_eq!(pt(3, 3).normalized(100), pt(75, 75));
    assert_eq!(pt(0, 0).normalized(5), pt(0, 0));
    assert_eq!(pt(i32::MIN, 0).normalized(1), pt(-1, 0));
}
