use std::collections::VecDeque;

use rts::ability::{AbilityTrain, CastError, NonTargetedAbility};
use rts::dimensions::{TilePoint, WorldCoord, WorldPoint};
use rts::game::{Building, BuildingType, GameDur, State, Unit, UnitTraining, UnitType, TICKS_PER_SEC, TRAIN_SECS};
use rts::map::{GridMap, GridTile};

fn grid(width: u32, height: u32, obstacles: &[(u32, u32)]) -> GridMap {
    let mut tiles = vec![GridTile::Empty; (width * height) as usize];
    for &(x, y) in obstacles {
        tiles[(y * width + x) as usize] = GridTile::Obstacle;
    }
    GridMap::new(width, height, tiles).expect("well-formed map")
}

fn pt(x: i32, y: i32) -> WorldPoint {
    WorldPoint::new(WorldCoord(x), WorldCoord(y))
}

fn newt() -> UnitType {
    UnitType { name: "Newt", sprite_key: "newt", radius: 16, base_speed: 4 }
}

fn barracks(max_len: usize) -> BuildingType {
    BuildingType { name: "Barracks", width: 1, height: 1, train_queue_max_len: max_len }
}

fn state_with(map: GridMap) -> State {
    State {
        units: vec![],
        unit_types: vec![newt()],
        building_types: vec![barracks(5)],
        buildings: vec![],
        map,
        next_uid: 0,
        ticks_per_sec: TICKS_PER_SEC,
    }
}

fn positions(s: &State) -> Vec<WorldPoint> {
    s.units.iter().map(|u| u.pos).collect()
}

#[test]
fn unit_walks_toward_its_waypoint_at_its_speed() {
    let mut s = state_with(grid(10, 10, &[]));
    let uid = s.make_unit(newt(), pt(100, 100)).unwrap();
    s.units[0].queue_move(pt(200, 100));
    s.tick();
    assert_eq!(s.units[0].pos, pt(104, 100));
    assert_eq!(s.units[0].uid, uid);
    assert_eq!(s.units[0].waypoints.len(), 1);
}

#[test]
fn diagonal_step_rounds_toward_zero() {
    let mut s = state_with(grid(10, 10, &[]));
    s.make_unit(newt(), pt(100, 100)).unwrap();
    s.units[0].queue_move(pt(130, 140));
    s.tick();
    // |delta| = 50, so the step is (30 * 4 / 50, 40 * 4 / 50) = (2, 3).
    assert_eq!(s.units[0].pos, pt(102, 103));
}

#[test]
fn final_step_lands_on_the_waypoint_and_drops_it() {
    let mut s = state_with(grid(10, 10, &[]));
    s.make_unit(newt(), pt(100, 100)).unwrap();
    s.units[0].queue_move(pt(102, 101));
    s.units[0].queue_move(pt(300, 101));
    s.tick();
    assert_eq!(s.units[0].pos, pt(102, 101));
    let w: Vec<WorldPoint> = s.units[0].waypoints.iter().copied().collect();
    assert_eq!(w, vec![pt(300, 101)]);
}

#[test]
fn unit_blocked_by_obstacle_does_not_move() {
    // Obstacle at tile (2, 1): cells x in [128, 191], y in [64, 127].
    let mut s = state_with(grid(5, 5, &[(2, 1)]));
    s.make_unit(newt(), pt(108, 96)).unwrap();
    s.units[0].queue_move(pt(300, 96));
    let before = s.units[0].pos;
    for _ in 0..10 {
        s.tick();
    }
    // At x = 112 the box [96, 128] would touch column 2, so the unit stops at 108.
    assert_eq!(s.units[0].pos, before);
    assert_eq!(s.units[0].waypoints.len(), 1);
}

#[test]
fn unit_stops_one_step_short_of_the_wall() {
    let mut s = state_with(grid(5, 5, &[(2, 1)]));
    s.make_unit(newt(), pt(100, 96)).unwrap();
    s.units[0].queue_move(pt(300, 96));
    for _ in 0..10 {
        s.tick();
    }
    assert_eq!(s.units[0].pos, pt(108, 96));
}

#[test]
fn units_overlap_freely() {
    let mut s = state_with(grid(5, 5, &[]));
    s.make_unit(newt(), pt(100, 100)).unwrap();
    s.make_unit(newt(), pt(104, 100)).unwrap();
    s.units[0].queue_move(pt(104, 100));
    s.tick();
    assert_eq!(positions(&s), vec![pt(104, 100), pt(104, 100)]);
}

fn state_with_barracks(max_len: usize) -> (State, u32) {
    let mut s = state_with(grid(6, 6, &[]));
    let uid = s.make_building(barracks(max_len), TilePoint::new(1, 1)).unwrap();
    (s, uid)
}

#[test]
fn second_train_into_a_queue_of_one_is_rejected() {
    let (mut s, uid) = state_with_barracks(1);
    let train = AbilityTrain { caster: uid, unit_type: newt() };
    assert_eq!(train.cast(&mut s), Ok(()));
    assert_eq!(train.cast(&mut s), Err(CastError::QueueFull));
    assert_eq!(s.buildings[0].train_queue.len(), 1);
}

#[test]
fn train_into_a_full_queue_leaves_it_unchanged() {
    let (mut s, uid) = state_with_barracks(3);
    for _ in 0..3 {
        assert_eq!(s.train(uid, newt()), Ok(()));
    }
    s.tick();
    let before: Vec<u64> = s.buildings[0].train_queue.iter().map(|t| t.dur_left.0).collect();
    assert_eq!(s.train(uid, newt()), Err(CastError::QueueFull));
    let after: Vec<u64> = s.buildings[0].train_queue.iter().map(|t| t.dur_left.0).collect();
    assert_eq!(before, after);
    assert_eq!(after.len(), 3);
}

#[test]
fn train_takes_three_seconds_of_ticks() {
    let (mut s, uid) = state_with_barracks(5);
    s.train(uid, newt()).unwrap();
    let t = s.buildings[0].train_queue[0];
    assert_eq!(t.dur_total, GameDur((TRAIN_SECS * TICKS_PER_SEC) as u64));
    assert_eq!(t.dur_left, GameDur(360));
}

#[test]
fn train_for_a_missing_caster_fails() {
    let (mut s, uid) = state_with_barracks(5);
    assert_eq!(s.train(uid + 7, newt()), Err(CastError::CasterNotFound));
    assert!(s.buildings[0].train_queue.is_empty());
}

#[test]
fn only_the_front_entry_counts_down() {
    let (mut s, uid) = state_with_barracks(5);
    s.train(uid, newt()).unwrap();
    s.train(uid, newt()).unwrap();
    s.tick();
    assert_eq!(s.buildings[0].train_queue[0].dur_left, GameDur(359));
    assert_eq!(s.buildings[0].train_queue[1].dur_left, GameDur(360));
}

#[test]
fn last_tick_of_training_spawns_one_unit_and_pops_one_entry() {
    let (mut s, _) = state_with_barracks(5);
    let one = UnitTraining { unit_type: newt(), dur_total: GameDur(5), dur_left: GameDur(1) };
    let two = UnitTraining { unit_type: newt(), dur_total: GameDur(5), dur_left: GameDur(5) };
    s.buildings[0].train_queue.push_back(one);
    s.buildings[0].train_queue.push_back(two);
    let units_before = s.units.len();
    let next_uid = s.next_uid;
    s.tick();
    assert_eq!(s.units.len(), units_before + 1);
    assert_eq!(s.buildings[0].train_queue.len(), 1);
    let spawned = &s.units[units_before];
    assert_eq!(spawned.uid, next_uid);
    // The tile just below the building at (1, 1).
    assert_eq!(spawned.pos, pt(96, 160));
    assert!(spawned.waypoints.is_empty());
}

#[test]
fn full_training_cycle_spawns_after_its_duration() {
    let (mut s, uid) = state_with_barracks(5);
    s.ticks_per_sec = 2;
    s.train(uid, newt()).unwrap();
    for _ in 0..5 {
        s.tick();
    }
    assert_eq!(s.units.len(), 0);
    s.tick();
    assert_eq!(s.units.len(), 1);
    assert!(s.buildings[0].train_queue.is_empty());
}

#[test]
fn uids_are_issued_in_order_and_never_reused() {
    let mut s = state_with(grid(2, 2, &[]));
    assert_eq!(s.make_unit(newt(), pt(0, 0)), Some(0));
    assert_eq!(s.make_building(barracks(5), TilePoint::new(0, 0)), Ok(1));
    assert_eq!(s.make_unit(newt(), pt(0, 0)), Some(2));
    assert_eq!(s.next_uid, 3);
    assert_eq!(s.get_unit(2).map(|u| u.uid), Some(2));
    assert!(s.get_unit(1).is_none());
    assert_eq!(s.get_building(1).map(|b| b.uid), Some(1));
    assert!(s.get_building(0).is_none());
}

#[test]
fn uid_exhaustion_stops_new_entities() {
    let mut s = state_with(grid(2, 2, &[]));
    s.next_uid = u32::MAX - 1;
    assert_eq!(s.make_unit(newt(), pt(0, 0)), Some(u32::MAX - 1));
    assert_eq!(s.make_unit(newt(), pt(0, 0)), None);
    assert_eq!(s.make_building(barracks(5), TilePoint::new(0, 0)), Err(CastError::UidsExhausted));
    assert_eq!(s.units.len(), 1);
}

#[test]
fn building_beyond_world_space_is_refused() {
    let mut s = state_with(grid(2, 2, &[]));
    assert_eq!(
        s.make_building(barracks(5), TilePoint::new(40_000_000, 0)),
        Err(CastError::OutOfWorld)
    );
    assert!(s.buildings.is_empty());
}

#[test]
fn new_entities_get_their_default_abilities() {
    let mut s = state_with(grid(4, 4, &[]));
    let u = s.make_unit(newt(), pt(10, 10)).unwrap();
    let b = s.make_building(barracks(5), TilePoint::new(2, 2)).unwrap();
    assert_eq!(s.units[0].abilities.len(), 1);
    assert_eq!(s.buildings[0].abilities.len(), 1);
    assert!(s.buildings[0].train_queue.is_empty());
    assert_eq!(s.buildings[0].train_queue_max_len, 5);
    assert_ne!(u, b);
}

#[test]
fn blank_and_level1_worlds() {
    let s = State::blank();
    assert_eq!((s.map.width, s.map.height), (14, 10));
    assert_eq!(s.map.grid_tiles.len(), 140);
    assert_eq!(s.map.get_tile(TilePoint::new(5, 2)), Some(GridTile::Obstacle));
    assert!(s.units.is_empty() && s.buildings.is_empty());
    let l = State::level1();
    assert_eq!(l.units.len(), 1);
    assert_eq!(l.units[0].pos, pt(300, 250));
    assert_eq!(l.buildings[0].top_left_pos, TilePoint::new(1, 1));
    assert_eq!(l.next_uid, 2);
}

#[test]
fn move_order_replaces_or_queues_the_route() {
    let mut s = state_with(grid(4, 4, &[(3, 3)]));
    s.make_unit(newt(), TilePoint::new(0, 0).tile_center()).unwrap();
    s.make_unit(newt(), TilePoint::new(0, 0).tile_center()).unwrap();
    s.units[0].selected = true;
    s.units[0].queue_move(pt(5, 5));
    s.order_move(TilePoint::new(1, 0).tile_center(), true);
    let w: Vec<WorldPoint> = s.units[0].waypoints.iter().copied().collect();
    assert_eq!(w, vec![pt(5, 5), TilePoint::new(1, 0).tile_center()]);
    s.order_move(TilePoint::new(0, 1).tile_center(), false);
    let w: Vec<WorldPoint> = s.units[0].waypoints.iter().copied().collect();
    assert_eq!(w, vec![TilePoint::new(0, 1).tile_center()]);
    assert!(s.units[1].waypoints.is_empty());
}

#[test]
fn move_order_without_a_path_heads_straight_for_the_point() {
    let mut s = state_with(grid(4, 4, &[(3, 3)]));
    s.make_unit(newt(), TilePoint::new(0, 0).tile_center()).unwrap();
    s.units[0].selected = true;
    let target = TilePoint::new(3, 3).tile_center();
    s.order_move(target, false);
    let w: Vec<WorldPoint> = s.units[0].waypoints.iter().copied().collect();
    assert_eq!(w, vec![target]);
}

#[test]
fn box_selection_picks_what_it_touches() {
    let mut s = state_with(grid(6, 6, &[]));
    s.make_unit(newt(), pt(50, 50)).unwrap();
    s.make_unit(newt(), pt(300, 300)).unwrap();
    s.make_building(barracks(5), TilePoint::new(2, 0)).unwrap();
    let area = rts::dimensions::WorldRect::from_corners(pt(130, 0), pt(60, 60));
    s.select_in_rect(area);
    assert!(s.units[0].selected);
    assert!(!s.units[1].selected);
    assert!(s.buildings[0].selected);
    s.select_in_rect(rts::dimensions::WorldRect::from_corners(pt(290, 290), pt(290, 290)));
    assert!(!s.units[0].selected);
    assert!(s.units[1].selected);
    assert!(!s.buildings[0].selected);
}

#[test]
fn building_accessors() {
    let b = Building {
        uid: 3,
        top_left_pos: TilePoint::new(2, 1),
        building_type: BuildingType { name: "Hall", width: 2, height: 3, train_queue_max_len: 5 },
        selected: false,
        train_queue: VecDeque::new(),
        train_queue_max_len: 5,
        abilities: vec![],
    };
    assert_eq!((b.width(), b.height()), (2, 3));
    assert_eq!(b.spawn_point(), TilePoint::new(2, 4).tile_center());
    let r = b.bounds();
    assert_eq!((r.left, r.top, r.right, r.bottom), (128, 64, 255, 255));
    let u = Unit {
        uid: 1,
        pos: pt(10, 20),
        unit_type: newt(),
        selected: false,
        waypoints: VecDeque::new(),
        abilities: vec![],
    };
    assert_eq!((u.speed(), u.rad(), u.window_rad()), (4, 16, 16));
    assert!(!u.move_queued());
    let bb = u.bounding_box();
    assert_eq!((bb.left, bb.top, bb.right, bb.bottom), (-6, 4, 26, 36));
}

#[test]
fn unit_of_speed_zero_keeps_the_waypoint_it_stands_on() {
    let mut s = state_with(grid(5, 5, &[]));
    let still = UnitType { name: "Rock", sprite_key: "rock", radius: 4, base_speed: 0 };
    s.make_unit(still, pt(100, 100)).unwrap();
    s.units[0].queue_move(pt(100, 100));
    s.tick();
    assert_eq!(s.units[0].pos, pt(100, 100));
    assert_eq!(s.units[0].waypoints.len(), 1);
}

#[test]
fn level1_holds_a_newt_and_a_barracks() {
    let l = State::level1();
    assert_eq!(l.units[0].uid, 0);
    assert_eq!(l.buildings[0].uid, 1);
    assert_eq!(l.unit_types[0].name, "Newt");
    assert_eq!((l.unit_types[0].radius, l.unit_types[0].base_speed), (16, 1));
    assert_eq!(l.units[0].unit_type.name, "Newt");
    assert_eq!(l.building_types[0].name, "Barracks");
    assert_eq!(l.map.grid_tiles, State::blank().map.grid_tiles);
}
