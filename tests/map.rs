use rts::dimensions::{TilePoint, WorldPoint, WorldCoord, WorldRect, MAX_TILE_COORD, TILE_WIDTH};
use rts::map::{GridMap, GridTile, MapTile};

fn grid(width: u32, height: u32, obstacles: &[(u32, u32)]) -> GridMap {
    let mut tiles = vec![GridTile::Empty; (width * height) as usize];
    for &(x, y) in obstacles {
        tiles[(y * width + x) as usize] = GridTile::Obstacle;
    }
    GridMap::new(width, height, tiles).expect("well-formed map")
}

#[test]
fn get_tile_returns_stored_value_in_bounds() {
    let m = grid(4, 3, &[(2, 1), (0, 2)]);
    for y in 0..3 {
        for x in 0..4 {
            let expected = if (x, y) == (2, 1) || (x, y) == (0, 2) { GridTile::Obstacle } else { GridTile::Empty };
            assert_eq!(m.get_tile(TilePoint::new(x, y)), Some(expected));
        }
    }
}

#[test]
fn get_tile_is_none_out_of_bounds() {
    let m = grid(4, 3, &[]);
    assert_eq!(m.get_tile(TilePoint::new(4, 0)), None);
    assert_eq!(m.get_tile(TilePoint::new(0, 3)), None);
    assert_eq!(m.get_tile(TilePoint::new(u32::MAX, u32::MAX)), None);
}

#[test]
fn new_rejects_mismatched_tile_count() {
    assert!(GridMap::new(3, 3, vec![GridTile::Empty; 8]).is_none());
    assert!(GridMap::new(3, 3, vec![GridTile::Empty; 9]).is_some());
    assert!(GridMap::new(MAX_TILE_COORD + 2, 0, vec![]).is_none());
}

#[test]
fn tiles_lists_every_tile_row_by_row() {
    let m = grid(3, 2, &[(1, 0)]);
    let tiles = m.tiles();
    assert_eq!(tiles.len(), 6);
    assert_eq!(tiles[0], MapTile { pos: TilePoint::new(0, 0), tile: GridTile::Empty });
    assert_eq!(tiles[1], MapTile { pos: TilePoint::new(1, 0), tile: GridTile::Obstacle });
    assert_eq!(tiles[3].pos, TilePoint::new(0, 1));
    assert_eq!(tiles[5].pos, TilePoint::new(2, 1));
}

#[test]
fn rect_outside_map_meets_no_tile() {
    let m = grid(5, 5, &[]);
    let w = (5 * TILE_WIDTH) as i64;
    assert!(m.tiles_overlapping_rect(WorldRect { left: -100, top: -100, right: -1, bottom: 50 }).is_empty());
    assert!(m.tiles_overlapping_rect(WorldRect { left: w, top: 0, right: w + 10, bottom: 10 }).is_empty());
    assert!(m.tiles_overlapping_rect(WorldRect { left: 0, top: w, right: 10, bottom: w + 100 }).is_empty());
    assert!(m.tiles_overlapping_rect(WorldRect { left: 10, top: 10, right: 5, bottom: 20 }).is_empty());
}

#[test]
fn rect_over_whole_map_meets_each_tile_once() {
    let m = grid(5, 4, &[(3, 3)]);
    let r = WorldRect { left: 0, top: 0, right: (5 * TILE_WIDTH) as i64, bottom: (4 * TILE_WIDTH) as i64 };
    let tiles = m.tiles_overlapping_rect(r);
    assert_eq!(tiles, m.tiles());
    assert_eq!(tiles.len(), 20);
    for y in 0..4 {
        for x in 0..5 {
            assert_eq!(tiles.iter().filter(|t| t.pos == TilePoint::new(x, y)).count(), 1);
        }
    }
}

#[test]
fn rect_on_tile_boundary_includes_both_tiles() {
    let m = grid(4, 4, &[]);
    // The closed rectangle [60, 64] touches column 0 and column 1.
    let tiles = m.tiles_overlapping_rect(WorldRect { left: 60, top: 10, right: 64, bottom: 10 });
    let cols: Vec<u32> = tiles.iter().map(|t| t.pos.x).collect();
    assert_eq!(cols, vec![0, 1]);
    let tiles = m.tiles_overlapping_rect(WorldRect { left: 0, top: 0, right: 63, bottom: 63 });
    assert_eq!(tiles.len(), 1);
}

#[test]
fn rect_is_clamped_to_the_map() {
    let m = grid(3, 3, &[(2, 2)]);
    let tiles = m.tiles_overlapping_rect(WorldRect { left: 100, top: 100, right: 10_000, bottom: 10_000 });
    let pos: Vec<(u32, u32)> = tiles.iter().map(|t| (t.pos.x, t.pos.y)).collect();
    assert_eq!(pos, vec![(1, 1), (2, 1), (1, 2), (2, 2)]);
    assert!(m.rect_has_obstacle(WorldRect { left: 100, top: 100, right: 10_000, bottom: 10_000 }));
    assert!(!m.rect_has_obstacle(WorldRect { left: 0, top: 0, right: 127, bottom: 127 }));
}

#[test]
fn tile_center_round_trips_for_every_tile_of_a_ten_by_ten_map() {
    for y in 0..10 {
        for x in 0..10 {
            let t = TilePoint::new(x, y);
            let c = t.tile_center();
            assert_eq!(c, WorldPoint::new(WorldCoord(64 * x as i32 + 32), WorldCoord(64 * y as i32 + 32)));
            assert_eq!(c.to_tile_point(), Some(t));
        }
    }
}

#[test]
fn negative_world_point_has_no_tile() {
    assert_eq!(WorldPoint::new(WorldCoord(-1), WorldCoord(5)).to_tile_point(), None);
    assert_eq!(WorldPoint::new(WorldCoord(5), WorldCoord(-64)).to_tile_point(), None);
    assert_eq!(WorldPoint::new(WorldCoord(63), WorldCoord(64)).to_tile_point(), Some(TilePoint::new(0, 1)));
}

use rts::map::MapParseError;

#[test]
fn map_text_reads_header_and_symbols() {
    let m = GridMap::parse("3 2\n.#.\n..#\n").unwrap();
    assert_eq!((m.width, m.height), (3, 2));
    assert_eq!(m.get_tile(TilePoint::new(1, 0)), Some(GridTile::Obstacle));
    assert_eq!(m.get_tile(TilePoint::new(2, 1)), Some(GridTile::Obstacle));
    assert_eq!(m.get_tile(TilePoint::new(0, 1)), Some(GridTile::Empty));
    let flat = GridMap::parse("2 2\n.#\r\n.#").unwrap();
    assert_eq!(flat.grid_tiles, vec![GridTile::Empty, GridTile::Obstacle, GridTile::Empty, GridTile::Obstacle]);
}

#[test]
fn map_text_errors() {
    assert_eq!(GridMap::parse("3\n...").err(), Some(MapParseError::BadHeader));
    assert_eq!(GridMap::parse("3 1 1\n...").err(), Some(MapParseError::BadHeader));
    assert_eq!(GridMap::parse("x 1\n...").err(), Some(MapParseError::BadHeader));
    assert_eq!(GridMap::parse("3 1\n.x.").err(), Some(MapParseError::BadSymbol));
    assert_eq!(GridMap::parse("3 1\n. .").err(), Some(MapParseError::BadSymbol));
    assert_eq!(GridMap::parse("3 2\n...").err(), Some(MapParseError::WrongTileCount));
    assert_eq!(GridMap::parse("40000000 0\n").err(), Some(MapParseError::TooLarge));
    assert_eq!(GridMap::parse("0 0").map(|m| m.grid_tiles.len()), Ok(0));
}
