use std::collections::VecDeque;

use rts::dimensions::{TilePoint, WorldCoord, WorldPoint};
use rts::game::{Unit, UnitType};
use rts::map::{GridMap, GridTile};
use rts::pathfind::find_path;

fn grid(width: u32, height: u32, obstacles: &[(u32, u32)]) -> GridMap {
    let mut tiles = vec![GridTile::Empty; (width * height) as usize];
    for &(x, y) in obstacles {
        tiles[(y * width + x) as usize] = GridTile::Obstacle;
    }
    GridMap::new(width, height, tiles).expect("well-formed map")
}

fn pt(x: i32, y: i32) -> WorldPoint {
    WorldPoint::new(WorldCoord(x), WorldCoord(y))
}

fn center(x: u32, y: u32) -> WorldPoint {
    TilePoint::new(x, y).tile_center()
}

fn unit_at(pos: WorldPoint) -> Unit {
    Unit {
        uid: 0,
        pos,
        unit_type: UnitType { name: "Newt", sprite_key: "newt", radius: 16, base_speed: 1 },
        selected: false,
        waypoints: VecDeque::new(),
        abilities: vec![],
    }
}

fn manhattan(a: TilePoint, b: TilePoint) -> usize {
    (a.x.abs_diff(b.x) + a.y.abs_diff(b.y)) as usize
}

#[test]
fn three_by_three_corner_to_corner_takes_four_steps() {
    let m = grid(3, 3, &[]);
    let mut u = unit_at(center(0, 0));
    assert!(u.pathfind(&m, center(2, 2)));
    let w: Vec<WorldPoint> = u.waypoints.iter().copied().collect();
    assert_eq!(w.len(), 4);
    assert_eq!(w[3], center(2, 2));
    let mut prev = center(0, 0);
    for p in &w {
        let dx = (p.x.0 - prev.x.0).abs();
        let dy = (p.y.0 - prev.y.0).abs();
        assert!((dx == 64 && dy == 0) || (dx == 0 && dy == 64));
        prev = *p;
    }
}

#[test]
fn open_grid_path_length_is_manhattan_distance() {
    let m = grid(6, 5, &[]);
    let tiles = [(0, 0), (5, 4), (2, 3), (4, 1), (3, 3)];
    for &(sx, sy) in &tiles {
        for &(dx, dy) in &tiles {
            let src = TilePoint::new(sx, sy);
            let dst = TilePoint::new(dx, dy);
            let path = find_path(&m, src, dst).expect("open grid is connected");
            assert_eq!(path.len(), manhattan(src, dst));
            if let Some(last) = path.last() {
                assert_eq!(*last, dst);
            }
        }
    }
}

#[test]
fn path_goes_around_a_wall() {
    // A wall across column 2 with a gap at the bottom row.
    let m = grid(5, 4, &[(2, 0), (2, 1), (2, 2)]);
    let path = find_path(&m, TilePoint::new(0, 0), TilePoint::new(4, 0)).unwrap();
    assert_eq!(path.len(), 10);
    assert!(path.contains(&TilePoint::new(2, 3)));
    assert!(path.iter().all(|t| m.get_tile(*t) == Some(GridTile::Empty)));
}

#[test]
fn obstacle_destination_has_no_path_and_keeps_waypoints() {
    let m = grid(4, 4, &[(3, 3)]);
    let mut u = unit_at(center(0, 0));
    u.queue_move(pt(100, 40));
    assert!(!u.pathfind(&m, center(3, 3)));
    let w: Vec<WorldPoint> = u.waypoints.iter().copied().collect();
    assert_eq!(w, vec![pt(100, 40)]);
}

#[test]
fn walled_off_destination_has_no_path_and_keeps_waypoints() {
    let m = grid(5, 3, &[(2, 0), (2, 1), (2, 2)]);
    let mut u = unit_at(center(0, 1));
    assert!(!u.pathfind(&m, center(4, 1)));
    assert!(u.waypoints.is_empty());
    assert!(find_path(&m, TilePoint::new(0, 1), TilePoint::new(4, 1)).is_none());
}

#[test]
fn path_chains_from_the_last_waypoint() {
    let m = grid(4, 4, &[]);
    let mut u = unit_at(center(0, 0));
    assert!(u.pathfind(&m, center(2, 0)));
    assert!(u.pathfind(&m, center(2, 2)));
    let w: Vec<WorldPoint> = u.waypoints.iter().copied().collect();
    assert_eq!(w, vec![center(1, 0), center(2, 0), center(2, 1), center(2, 2)]);
}

#[test]
fn path_to_own_tile_is_empty() {
    let m = grid(2, 2, &[]);
    assert_eq!(find_path(&m, TilePoint::new(1, 1), TilePoint::new(1, 1)), Some(vec![]));
}

#[test]
fn off_map_endpoints_have_no_path() {
    let m = grid(2, 2, &[]);
    assert!(find_path(&m, TilePoint::new(2, 0), TilePoint::new(0, 0)).is_none());
    assert!(find_path(&m, TilePoint::new(0, 0), TilePoint::new(0, 2)).is_none());
    let mut u = unit_at(pt(-5, 10));
    assert!(!u.pathfind(&m, center(1, 1)));
}

#[test]
fn neighbours_are_tried_west_north_east_south() {
    // From the middle of a 3x3 grid to a corner, two shortest paths exist; the
    // search reaches (0,1) before (1,0), so the path goes west first.
    let m = grid(3, 3, &[]);
    let path = find_path(&m, TilePoint::new(1, 1), TilePoint::new(0, 0)).unwrap();
    assert_eq!(path, vec![TilePoint::new(0, 1), TilePoint::new(0, 0)]);
}
