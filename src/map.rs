//! The static tile grid of the world: bounds checks, tile lookup, and the
//! enumeration of the tiles under a world-space rectangle.

use vstd::prelude::*;

use vstd::string::StringSliceAdditionalSpecFns;
use vstd::utf8::{encode_utf8_valid_utf8, is_char_boundary_iff_not_is_continuation_byte, is_char_boundary_start_end_of_seq};

use crate::dimensions::{tile_edge, tile_of, TilePoint, WorldRect, MAX_TILE_COORD, TILE_WIDTH};
use crate::text::{decimal_u32, fields_from, fields_of, find_space, lemma_next_space_bounds, parse_decimal_u32};

verus! {

#[derive(Clone, Copy, Debug, PartialEq, Eq, Structural)]
pub enum GridTile {
    Empty,
    Obstacle,
}

/// One tile of the map together with its position.
#[derive(Clone, Copy, Debug, PartialEq, Eq, Structural)]
pub struct MapTile {
    pub pos: TilePoint,
    pub tile: GridTile,
}

/// A grid of `width` by `height` tiles, stored row by row.
pub struct GridMap {
    pub width: u32,
    pub height: u32,
    pub grid_tiles: Vec<GridTile>,
}

/// `y * w + x < w * h` for a tile (x, y) inside a `w` by `h` grid.
pub proof fn lemma_index_in_grid(w: int, h: int, x: int, y: int)
    requires
        0 <= x < w,
        0 <= y < h,
    ensures
        0 <= y * w + x < w * h,
        y * w <= w * h,
{
    assert(0 <= y * w + x < w * h && y * w <= w * h) by (nonlinear_arith)
        requires
            0 <= x < w,
            0 <= y < h,
    ;
}

impl GridMap {
    /// The tile count matches the dimensions, and every cell fits in world space.
    pub open spec fn wf(&self) -> bool {
        &&& self.grid_tiles@.len() == self.width as int * self.height as int
        &&& self.width <= MAX_TILE_COORD + 1
        &&& self.height <= MAX_TILE_COORD + 1
    }

    pub open spec fn in_bounds(&self, x: int, y: int) -> bool {
        0 <= x < self.width && 0 <= y < self.height
    }

    /// The world point (x, y) lies in the cell of some tile of the map.
    pub open spec fn covers_point(&self, x: int, y: int) -> bool {
        0 <= x < tile_edge(self.width as int) && 0 <= y < tile_edge(self.height as int)
    }

    /// Where tile (x, y) is stored in `grid_tiles`.
    pub open spec fn index_of(&self, x: int, y: int) -> int {
        y * self.width + x
    }

    /// The tile at (x, y), or `None` outside the map.
    pub open spec fn tile_at(&self, x: int, y: int) -> Option<GridTile> {
        if self.in_bounds(x, y) {
            Some(self.grid_tiles@[self.index_of(x, y)])
        } else {
            None
        }
    }

    /// Tile (x, y) with its position.
    pub open spec fn map_tile(&self, x: int, y: int) -> MapTile {
        MapTile {
            pos: TilePoint { x: x as u32, y: y as u32 },
            tile: self.grid_tiles@[self.index_of(x, y)],
        }
    }

    /// The tiles of columns `x0..=x1` and rows `y0..=y1`, row by row.
    pub open spec fn tiles_in(&self, x0: int, y0: int, x1: int, y1: int) -> Seq<MapTile> {
        let cw = x1 - x0 + 1;
        Seq::new(
            ((y1 - y0 + 1) * cw) as nat,
            |k: int| self.map_tile(x0 + k % cw, y0 + k / cw),
        )
    }

    /// Every tile of the map, row by row.
    pub open spec fn all_tiles(&self) -> Seq<MapTile> {
        self.tiles_in(0, 0, self.width - 1, self.height - 1)
    }

    /// The rectangle has no point on the map.
    pub open spec fn rect_outside(&self, r: WorldRect) -> bool {
        ||| self.width == 0
        ||| self.height == 0
        ||| r.left > r.right
        ||| r.top > r.bottom
        ||| r.right < 0
        ||| r.bottom < 0
        ||| r.left >= tile_edge(self.width as int)
        ||| r.top >= tile_edge(self.height as int)
    }

    /// The first and last column and row of the tiles under `r`, after `r` is
    /// clamped to the map.
    pub open spec fn overlap_range(&self, r: WorldRect) -> (int, int, int, int) {
        let max_x = tile_edge(self.width as int) - 1;
        let max_y = tile_edge(self.height as int) - 1;
        (
            tile_of(if r.left < 0 { 0 } else { r.left as int }),
            tile_of(if r.top < 0 { 0 } else { r.top as int }),
            tile_of(if r.right > max_x { max_x } else { r.right as int }),
            tile_of(if r.bottom > max_y { max_y } else { r.bottom as int }),
        )
    }

    /// The tiles whose cells meet the closed rectangle `r`, row by row.
    pub open spec fn tiles_overlapping(&self, r: WorldRect) -> Seq<MapTile> {
        if self.rect_outside(r) {
            Seq::empty()
        } else {
            let (x0, y0, x1, y1) = self.overlap_range(r);
            self.tiles_in(x0, y0, x1, y1)
        }
    }

    /// Some tile under `r` is an obstacle.
    pub open spec fn rect_blocked(&self, r: WorldRect) -> bool {
        exists|k: int|
            0 <= k < self.tiles_overlapping(r).len() && (#[trigger] self.tiles_overlapping(r)[k]).tile
                == GridTile::Obstacle
    }

    /// A map of the given size, or `None` when the tile count does not match the
    /// size or the map would reach beyond world space.
    pub fn new(width: u32, height: u32, grid_tiles: Vec<GridTile>) -> (r: Option<GridMap>)
        ensures
            r is Some <==> (grid_tiles@.len() == width as int * height as int && width
                <= MAX_TILE_COORD + 1 && height <= MAX_TILE_COORD + 1),
            r matches Some(m) ==> m.wf() && m.width == width && m.height == height
                && m.grid_tiles@ == grid_tiles@,
    {
        if width > MAX_TILE_COORD + 1 || height > MAX_TILE_COORD + 1 {
            return None;
        }
        assert((width as int) * (height as int) <= u64::MAX) by (nonlinear_arith)
            requires
                width <= MAX_TILE_COORD + 1,
                height <= MAX_TILE_COORD + 1,
        ;
        if (grid_tiles.len() as u64) != (width as u64) * (height as u64) {
            return None;
        }
        Some(GridMap { width, height, grid_tiles })
    }

    /// The tile at `p`, or `None` outside the map.
    pub fn get_tile(&self, p: TilePoint) -> (r: Option<GridTile>)
        requires
            self.wf(),
        ensures
            r == self.tile_at(p.x as int, p.y as int),
    {
        if p.x < self.width && p.y < self.height {
            proof {
                lemma_index_in_grid(self.width as int, self.height as int, p.x as int, p.y as int);
                assert(self.grid_tiles@.len() == self.grid_tiles.len());
            }
            Some(self.grid_tiles[(p.y as usize) * (self.width as usize) + (p.x as usize)])
        } else {
            None
        }
    }

    /// The tiles of columns `x0..=x1` and rows `y0..=y1`, row by row.
    fn tiles_in_range(&self, x0: u32, y0: u32, x1: u32, y1: u32) -> (r: Vec<MapTile>)
        requires
            self.wf(),
            x0 <= x1 < self.width,
            y0 <= y1 < self.height,
        ensures
            r@ == self.tiles_in(x0 as int, y0 as int, x1 as int, y1 as int),
    {
        let ghost cw = x1 - x0 + 1;
        let mut r: Vec<MapTile> = Vec::new();
        let mut y: u32 = y0;
        while y <= y1
            invariant
                self.wf(),
                x0 <= x1 < self.width,
                y0 <= y1 < self.height,
                cw == x1 - x0 + 1,
                y0 <= y <= y1 + 1,
                r@.len() == (y - y0) * cw,
                forall|k: int|
                    0 <= k < r@.len() ==> #[trigger] r@[k] == self.map_tile(
                        x0 + k % cw,
                        y0 + k / cw,
                    ),
            decreases y1 + 1 - y,
        {
            let mut x: u32 = x0;
            while x <= x1
                invariant
                    self.wf(),
                    x0 <= x1 < self.width,
                    y0 <= y <= y1 < self.height,
                    cw == x1 - x0 + 1,
                    x0 <= x <= x1 + 1,
                    r@.len() == (y - y0) * cw + (x - x0),
                    forall|k: int|
                        0 <= k < r@.len() ==> #[trigger] r@[k] == self.map_tile(
                            x0 + k % cw,
                            y0 + k / cw,
                        ),
                decreases x1 + 1 - x,
            {
                proof {
                    lemma_index_in_grid(self.width as int, self.height as int, x as int, y as int);
                    assert(self.grid_tiles@.len() == self.grid_tiles.len());
                    vstd::arithmetic::div_mod::lemma_fundamental_div_mod_converse(
                        r@.len() as int,
                        cw,
                        y - y0,
                        x - x0,
                    );
                }
                let idx = (y as usize) * (self.width as usize) + (x as usize);
                r.push(MapTile { pos: TilePoint { x, y }, tile: self.grid_tiles[idx] });
                x = x + 1;
            }
            assert((y - y0) * cw + cw == (y + 1 - y0) * cw) by (nonlinear_arith);
            y = y + 1;
        }
        assert(r@ =~= self.tiles_in(x0 as int, y0 as int, x1 as int, y1 as int));
        r
    }

    /// Every tile of the map with its position, row by row.
    pub fn tiles(&self) -> (r: Vec<MapTile>)
        requires
            self.wf(),
        ensures
            r@ == self.all_tiles(),
    {
        if self.width == 0 || self.height == 0 {
            let r: Vec<MapTile> = Vec::new();
            assert(r@ =~= self.all_tiles()) by {
                assert((self.height - 1 - 0 + 1) * (self.width - 1 - 0 + 1) == 0) by (nonlinear_arith)
                    requires
                        self.width == 0 || self.height == 0,
                ;
            }
            r
        } else {
            self.tiles_in_range(0, 0, self.width - 1, self.height - 1)
        }
    }

    /// Every tile whose cell meets the closed rectangle `r`, row by row: the
    /// rectangle is clamped to the map, and its corners give an inclusive range
    /// of columns and rows.
    pub fn tiles_overlapping_rect(&self, r: WorldRect) -> (res: Vec<MapTile>)
        requires
            self.wf(),
        ensures
            res@ == self.tiles_overlapping(r),
    {
        let max_x: i64 = (self.width as i64) * (TILE_WIDTH as i64) - 1;
        let max_y: i64 = (self.height as i64) * (TILE_WIDTH as i64) - 1;
        if self.width == 0 || self.height == 0 || r.left > r.right || r.top > r.bottom || r.right < 0
            || r.bottom < 0 || r.left > max_x || r.top > max_y {
            return Vec::new();
        }
        let left: i64 = if r.left < 0 { 0 } else { r.left };
        let top: i64 = if r.top < 0 { 0 } else { r.top };
        let right: i64 = if r.right > max_x { max_x } else { r.right };
        let bottom: i64 = if r.bottom > max_y { max_y } else { r.bottom };
        assert(max_x == tile_edge(self.width as int) - 1);
        assert(max_x >= 63) by (nonlinear_arith)
            requires
                max_x == (self.width as int) * 64 - 1,
                self.width >= 1,
        ;
        assert(0 <= left);
        assert(left <= right);
        assert(right <= max_x);
        assert(0 <= top <= bottom <= max_y);
        proof {
            vstd::arithmetic::div_mod::lemma_div_is_ordered(left as int, right as int, TILE_WIDTH as int);
            vstd::arithmetic::div_mod::lemma_div_is_ordered(top as int, bottom as int, TILE_WIDTH as int);
            vstd::arithmetic::div_mod::lemma_div_is_ordered(right as int, max_x as int, TILE_WIDTH as int);
            vstd::arithmetic::div_mod::lemma_div_is_ordered(bottom as int, max_y as int, TILE_WIDTH as int);
            vstd::arithmetic::div_mod::lemma_fundamental_div_mod_converse(
                max_x as int,
                TILE_WIDTH as int,
                self.width - 1,
                TILE_WIDTH - 1,
            );
            vstd::arithmetic::div_mod::lemma_fundamental_div_mod_converse(
                max_y as int,
                TILE_WIDTH as int,
                self.height - 1,
                TILE_WIDTH - 1,
            );
        }
        let x0 = (left / (TILE_WIDTH as i64)) as u32;
        let y0 = (top / (TILE_WIDTH as i64)) as u32;
        let x1 = (right / (TILE_WIDTH as i64)) as u32;
        let y1 = (bottom / (TILE_WIDTH as i64)) as u32;
        self.tiles_in_range(x0, y0, x1, y1)
    }

    /// Whether any tile whose cell meets the closed rectangle `r` is an obstacle.
    pub fn rect_has_obstacle(&self, r: WorldRect) -> (res: bool)
        requires
            self.wf(),
        ensures
            res == self.rect_blocked(r),
    {
        let tiles = self.tiles_overlapping_rect(r);
        let mut i: usize = 0;
        while i < tiles.len()
            invariant
                tiles@ == self.tiles_overlapping(r),
                0 <= i <= tiles@.len(),
                forall|k: int| 0 <= k < i ==> (#[trigger] tiles@[k]).tile != GridTile::Obstacle,
            decreases tiles.len() - i,
        {
            if tiles[i].tile == GridTile::Obstacle {
                return true;
            }
            i = i + 1;
        }
        false
    }
}

/// Why a map description was rejected.
#[derive(Clone, Copy, Debug, PartialEq, Eq, Structural)]
pub enum MapParseError {
    /// The first line is not a width and a height separated by one space.
    BadHeader,
    /// A tile symbol is neither `.` (empty) nor `#` (obstacle).
    BadSymbol,
    /// The map would reach beyond world space.
    TooLarge,
    /// The number of tile symbols is not width times height.
    WrongTileCount,
}

pub const NEWLINE: u8 = 10;

/// Where the first line of `b` ends: its first newline, or the end of `b`.
pub open spec fn first_newline(b: Seq<u8>, i: int) -> int
    decreases b.len() - i,
{
    if i >= b.len() {
        b.len() as int
    } else if b[i] == NEWLINE {
        i
    } else {
        first_newline(b, i + 1)
    }
}

/// The width and height that the first line of a map description gives.
pub open spec fn map_header(b: Seq<u8>) -> Option<(u32, u32)> {
    let f = fields_of(b.subrange(0, first_newline(b, 0)));
    if f.len() == 2 && decimal_u32(f[0]) is Some && decimal_u32(f[1]) is Some {
        Some((decimal_u32(f[0])->Some_0, decimal_u32(f[1])->Some_0))
    } else {
        None
    }
}

/// The tiles that the symbols of `b` spell, row by row: `.` is empty, `#` an
/// obstacle, and line breaks are skipped; `None` at any other byte.
pub open spec fn tiles_of_text(b: Seq<u8>) -> Option<Seq<GridTile>>
    decreases b.len(),
{
    if b.len() == 0 {
        Some(Seq::empty())
    } else {
        match tiles_of_text(b.drop_last()) {
            None => None,
            Some(t) => {
                let c = b.last();
                if c == 46 {
                    Some(t.push(GridTile::Empty))
                } else if c == 35 {
                    Some(t.push(GridTile::Obstacle))
                } else if c == NEWLINE || c == 13 {
                    Some(t)
                } else {
                    None
                }
            },
        }
    }
}

pub(crate) proof fn lemma_first_newline_bounds(b: Seq<u8>, i: int)
    requires
        0 <= i <= b.len(),
    ensures
        i <= first_newline(b, i) <= b.len(),
        first_newline(b, i) < b.len() ==> b[first_newline(b, i)] == NEWLINE,
    decreases b.len() - i,
{
    if i < b.len() && b[i] != NEWLINE {
        lemma_first_newline_bounds(b, i + 1);
    }
}

/// The tiles spelled by the symbols of `b`.
fn read_tiles(b: &[u8]) -> (r: Option<Vec<GridTile>>)
    ensures
        match tiles_of_text(b@) {
            None => r is None,
            Some(t) => r is Some && r->Some_0@ == t,
        },
{
    let mut tiles: Vec<GridTile> = Vec::new();
    let mut k: usize = 0;
    while k < b.len()
        invariant
            k <= b@.len(),
            tiles_of_text(b@.subrange(0, k as int)) == Some(tiles@),
        decreases b@.len() - k,
    {
        let ghost pre = b@.subrange(0, k + 1);
        assert(pre.drop_last() =~= b@.subrange(0, k as int));
        let c = b[k];
        if c == 46 {
            tiles.push(GridTile::Empty);
        } else if c == 35 {
            tiles.push(GridTile::Obstacle);
        } else if c != NEWLINE && c != 13 {
            proof {
                lemma_tiles_of_text_stays_none(b@, k as int + 1);
            }
            return None;
        }
        k = k + 1;
    }
    assert(b@.subrange(0, k as int) =~= b@);
    Some(tiles)
}

/// Once a prefix holds a bad symbol, so does every longer prefix.
proof fn lemma_tiles_of_text_stays_none(b: Seq<u8>, k: int)
    requires
        0 <= k <= b.len(),
        tiles_of_text(b.subrange(0, k)) is None,
    ensures
        tiles_of_text(b) is None,
    decreases b.len() - k,
{
    if k < b.len() {
        assert(b.subrange(0, k + 1).drop_last() =~= b.subrange(0, k));
        lemma_tiles_of_text_stays_none(b, k + 1);
    } else {
        assert(b.subrange(0, k) =~= b);
    }
}

impl GridMap {
    /// Reads a map description: a first line `WIDTH HEIGHT`, then one symbol
    /// per tile, row by row, `.` for empty and `#` for an obstacle; line breaks
    /// between symbols are skipped.
    pub fn parse(text: &str) -> (r: Result<GridMap, MapParseError>)
        ensures
            ({
                let b = text.spec_bytes();
                match map_header(b) {
                    None => r == Err::<GridMap, MapParseError>(MapParseError::BadHeader),
                    Some((w, h)) => match tiles_of_text(b.subrange(first_newline(b, 0), b.len() as int)) {
                        None => r == Err::<GridMap, MapParseError>(MapParseError::BadSymbol),
                        Some(t) => if w > MAX_TILE_COORD + 1 || h > MAX_TILE_COORD + 1 {
                            r == Err::<GridMap, MapParseError>(MapParseError::TooLarge)
                        } else if t.len() != w as int * h as int {
                            r == Err::<GridMap, MapParseError>(MapParseError::WrongTileCount)
                        } else {
                            &&& r is Ok
                            &&& r->Ok_0.wf()
                            &&& r->Ok_0.width == w
                            &&& r->Ok_0.height == h
                            &&& r->Ok_0.grid_tiles@ == t
                        },
                    },
                }
            }),
    {
        let b = text.as_bytes();
        let ghost bs = b@;
        let mut nl: usize = 0;
        while nl < b.len() && b[nl] != NEWLINE
            invariant
                nl <= b@.len(),
                first_newline(bs, 0) == first_newline(bs, nl as int),
                bs == b@,
            decreases b@.len() - nl,
        {
            nl = nl + 1;
        }
        proof {
            lemma_first_newline_bounds(bs, 0);
            encode_utf8_valid_utf8(text@);
            if nl < bs.len() {
                is_char_boundary_iff_not_is_continuation_byte(bs, nl as int);
            } else {
                is_char_boundary_start_end_of_seq(bs);
            }
        }
        let (header, body) = text.split_at(nl);
        let hb = header.as_bytes();
        let n = hb.len();
        let ghost hs = hb@;
        assert(hs =~= bs.subrange(0, nl as int));
        let j0 = find_space(hb, 0);
        proof {
            lemma_next_space_bounds(hs, 0);
            assert(fields_of(hs) == (if j0 >= n {
                seq![hs.subrange(0, n as int)]
            } else {
                seq![hs.subrange(0, j0 as int)] + fields_from(hs, j0 + 1)
            }));
        }
        if j0 == n {
            assert(fields_of(hs).len() == 1);
            return Err(MapParseError::BadHeader);
        }
        let j1 = find_space(hb, j0 + 1);
        proof {
            lemma_next_space_bounds(hs, j0 + 1);
            let f1 = fields_from(hs, j0 + 1);
            if j1 < n {
                assert(f1 == seq![hs.subrange(j0 + 1, j1 as int)] + fields_from(hs, j1 + 1));
                assert(fields_from(hs, j1 + 1).len() >= 1);
            } else {
                assert(f1 =~= seq![hs.subrange(j0 + 1, n as int)]);
            }
        }
        if j1 < n {
            return Err(MapParseError::BadHeader);
        }
        let width = match parse_decimal_u32(hb, 0, j0) {
            Some(w) => w,
            None => return Err(MapParseError::BadHeader),
        };
        let height = match parse_decimal_u32(hb, j0 + 1, n) {
            Some(h) => h,
            None => return Err(MapParseError::BadHeader),
        };
        let bb = body.as_bytes();
        assert(bb@ =~= bs.subrange(nl as int, bs.len() as int));
        let grid_tiles = match read_tiles(bb) {
            Some(t) => t,
            None => return Err(MapParseError::BadSymbol),
        };
        if width > MAX_TILE_COORD + 1 || height > MAX_TILE_COORD + 1 {
            return Err(MapParseError::TooLarge);
        }
        assert((width as int) * (height as int) <= u64::MAX) by (nonlinear_arith)
            requires
                width <= MAX_TILE_COORD + 1,
                height <= MAX_TILE_COORD + 1,
        ;
        if (grid_tiles.len() as u64) != (width as u64) * (height as u64) {
            return Err(MapParseError::WrongTileCount);
        }
        Ok(GridMap { width, height, grid_tiles })
    }
}

/// A rectangle that holds no point of the map meets no tile.
pub proof fn lemma_rect_off_map_meets_no_tile(m: GridMap, r: WorldRect)
    requires
        m.wf(),
        forall|x: int, y: int| r.left <= x <= r.right && r.top <= y <= r.bottom ==> !#[trigger] m.covers_point(x, y),
    ensures
        m.tiles_overlapping(r).len() == 0,
{
    if !m.rect_outside(r) {
        let x = if r.left < 0 { 0 } else { r.left as int };
        let y = if r.top < 0 { 0 } else { r.top as int };
        assert(r.left <= x <= r.right && r.top <= y <= r.bottom);
        assert(m.covers_point(x, y));
    }
}

/// A rectangle that covers the whole map meets every tile, in row-major order,
/// each exactly once.
pub proof fn lemma_rect_over_map_meets_each_tile_once(m: GridMap, r: WorldRect)
    requires
        m.wf(),
        m.width > 0,
        m.height > 0,
        r.left <= 0,
        r.top <= 0,
        r.right >= tile_edge(m.width as int) - 1,
        r.bottom >= tile_edge(m.height as int) - 1,
    ensures
        m.tiles_overlapping(r) == m.all_tiles(),
        m.all_tiles().len() == m.width * m.height,
        forall|x: int, y: int|
            m.in_bounds(x, y) ==> #[trigger] m.all_tiles()[m.index_of(x, y)] == m.map_tile(x, y),
        forall|x: int, y: int|
            m.in_bounds(x, y) ==> (#[trigger] m.all_tiles()[m.index_of(x, y)]).pos == (TilePoint {
                x: x as u32,
                y: y as u32,
            }),
        forall|k1: int, k2: int|
            0 <= k1 < m.all_tiles().len() && 0 <= k2 < m.all_tiles().len() && (
            #[trigger] m.all_tiles()[k1]).pos == (#[trigger] m.all_tiles()[k2]).pos ==> k1 == k2,
{
    let w = m.width as int;
    let h = m.height as int;
    vstd::arithmetic::div_mod::lemma_fundamental_div_mod_converse(
        tile_edge(w) - 1,
        TILE_WIDTH as int,
        w - 1,
        TILE_WIDTH - 1,
    );
    vstd::arithmetic::div_mod::lemma_fundamental_div_mod_converse(
        tile_edge(h) - 1,
        TILE_WIDTH as int,
        h - 1,
        TILE_WIDTH - 1,
    );
    assert(m.overlap_range(r) == (0int, 0int, w - 1, h - 1));
    assert(w * h >= 0 && h * w == w * h) by (nonlinear_arith)
        requires
            w > 0,
            h > 0,
    ;
    assert(m.all_tiles().len() == w * h);
    assert forall|x: int, y: int| m.in_bounds(x, y) implies #[trigger] m.all_tiles()[m.index_of(
        x,
        y,
    )] == m.map_tile(x, y) by {
        lemma_index_in_grid(w, h, x, y);
        vstd::arithmetic::div_mod::lemma_fundamental_div_mod_converse(y * w + x, w, y, x);
    }
    assert forall|k1: int, k2: int|
        0 <= k1 < m.all_tiles().len() && 0 <= k2 < m.all_tiles().len() && (
        #[trigger] m.all_tiles()[k1]).pos == (#[trigger] m.all_tiles()[k2]).pos implies k1
        == k2 by {
        lemma_position_of_index(w, h, k1);
        lemma_position_of_index(w, h, k2);
        vstd::arithmetic::div_mod::lemma_fundamental_div_mod(k1, w);
        vstd::arithmetic::div_mod::lemma_fundamental_div_mod(k2, w);
    }
}

/// Entry `k` of a `w` by `h` grid lies in column `k % w` and row `k / w`, both in range.
pub proof fn lemma_position_of_index(w: int, h: int, k: int)
    requires
        0 < w,
        0 <= k < w * h,
    ensures
        0 <= k % w < w,
        0 <= k / w < h,
{
    vstd::arithmetic::div_mod::lemma_fundamental_div_mod(k, w);
    assert(0 <= k % w < w);
    assert(0 <= k / w < h) by (nonlinear_arith)
        requires
            0 < w,
            0 <= k < w * h,
            k == w * (k / w) + k % w,
            0 <= k % w < w,
    ;
}

} // verus!
