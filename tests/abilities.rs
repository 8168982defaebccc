use rts::ability::{
    Ability, AbilityBuild, AbilityCommon, AbilityTrain, CastError, Keycode, NonTargetedAbility,
    PointTargetedAbility,
};
use rts::dimensions::{TilePoint, WorldCoord, WorldPoint};
use rts::game::{BuildingType, State, UnitType, TICKS_PER_SEC};
use rts::map::{GridMap, GridTile};

fn pt(x: i32, y: i32) -> WorldPoint {
    WorldPoint::new(WorldCoord(x), WorldCoord(y))
}

fn newt() -> UnitType {
    UnitType { name: "Newt", sprite_key: "newt", radius: 16, base_speed: 1 }
}

fn hall(width: u32, height: u32) -> BuildingType {
    BuildingType { name: "Hall", width, height, train_queue_max_len: 5 }
}

fn world() -> State {
    State {
        units: vec![],
        unit_types: vec![newt()],
        building_types: vec![hall(2, 2)],
        buildings: vec![],
        map: GridMap::new(8, 8, vec![GridTile::Empty; 64]).unwrap(),
        next_uid: 0,
        ticks_per_sec: TICKS_PER_SEC,
    }
}

#[test]
fn abilities_report_key_name_and_caster() {
    let b = AbilityBuild::new(4, hall(1, 1));
    let t = AbilityTrain::new(9, newt());
    assert_eq!(b.keycode(), Keycode('B'));
    assert_eq!(b.name(), "Build");
    assert_eq!(b.caster(), 4);
    assert_eq!(t.keycode(), Keycode('T'));
    assert_eq!(t.name(), "Train unit");
    assert_eq!(t.caster(), 9);
    assert!(matches!(b, Ability::PointTargeted(_)));
    assert!(matches!(t, Ability::NonTargeted(_)));
}

#[test]
fn build_site_centres_the_footprint() {
    let odd = AbilityBuild { caster: 0, building_type: hall(3, 3) };
    assert_eq!(odd.where_to_build(pt(200, 200)), Some(TilePoint::new(2, 2)));
    let even = AbilityBuild { caster: 0, building_type: hall(2, 2) };
    assert_eq!(even.where_to_build(pt(200, 200)), Some(TilePoint::new(2, 2)));
    let one = AbilityBuild { caster: 0, building_type: hall(1, 1) };
    assert_eq!(one.where_to_build(pt(200, 130)), Some(TilePoint::new(3, 2)));
}

#[test]
fn build_site_off_the_top_left_is_none() {
    let b = AbilityBuild { caster: 0, building_type: hall(4, 4) };
    assert_eq!(b.where_to_build(pt(100, 500)), None);
    assert_eq!(b.where_to_build(pt(500, 127)), None);
    assert_eq!(b.where_to_build(pt(128, 128)), Some(TilePoint::new(0, 0)));
}

#[test]
fn build_cast_places_a_building() {
    let mut s = world();
    let worker = s.make_unit(newt(), pt(50, 50)).unwrap();
    let ability = AbilityBuild { caster: worker, building_type: hall(2, 2) };
    let uid = ability.cast(&mut s, pt(200, 200)).unwrap();
    assert_eq!(s.buildings.len(), 1);
    assert_eq!(s.buildings[0].uid, uid);
    assert_eq!(s.buildings[0].top_left_pos, TilePoint::new(2, 2));
}

#[test]
fn build_cast_errors() {
    let mut s = world();
    let ability = AbilityBuild { caster: 42, building_type: hall(2, 2) };
    assert_eq!(ability.cast(&mut s, pt(200, 200)), Err(CastError::CasterNotFound));
    let worker = s.make_unit(newt(), pt(50, 50)).unwrap();
    let ability = AbilityBuild { caster: worker, building_type: hall(2, 2) };
    assert_eq!(ability.cast(&mut s, pt(10, 200)), Err(CastError::InvalidTarget));
    assert!(s.buildings.is_empty());
}

#[test]
fn train_cast_needs_a_building_caster() {
    let mut s = world();
    let worker = s.make_unit(newt(), pt(50, 50)).unwrap();
    let ability = AbilityTrain { caster: worker, unit_type: newt() };
    assert_eq!(ability.cast(&mut s), Err(CastError::CasterNotFound));
}

#[test]
fn key_finds_the_ability_of_a_selected_unit_first() {
    let mut s = world();
    s.make_unit(newt(), pt(50, 50)).unwrap();
    let b = s.make_building(hall(1, 1), TilePoint::new(3, 3)).unwrap();
    assert!(s.ability_for_key(Keycode('B')).is_none());
    s.buildings[0].selected = true;
    assert!(s.ability_for_key(Keycode('B')).is_none());
    match s.ability_for_key(Keycode('T')) {
        Some(Ability::NonTargeted(t)) => assert_eq!(t.caster, b),
        _ => panic!("expected the building's train ability"),
    }
    s.units[0].selected = true;
    assert!(matches!(s.ability_for_key(Keycode('B')), Some(Ability::PointTargeted(_))));
    assert!(matches!(s.ability_for_key(Keycode('T')), Some(Ability::NonTargeted(_))));
    assert!(s.ability_for_key(Keycode('X')).is_none());
}
