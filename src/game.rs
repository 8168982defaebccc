//! The world state: the entity registry, units and buildings, and what one
//! tick of motion and production does to them.

use vstd::prelude::*;

use std::collections::VecDeque;

use crate::ability::{build_site, Ability, AbilityBuild, AbilityTrain, CastError};
use crate::dimensions::{tile_middle, TilePoint, WorldCoord, WorldPoint, WorldRect, MAX_TILE_COORD};
use crate::map::{GridMap, GridTile};
use crate::movement::{bounding_box_at, box_around, next_position, tentative_step};
use crate::pathfind::{find_path, is_shortest_path, lemma_open_map_path_is_manhattan, manhattan, obstacle_free, tile_in_map};

verus! {

/// Identifies one unit or building for the whole session.
pub type UID = u32;

/// Simulation ticks per second of game time, unless a state is set otherwise.
pub const TICKS_PER_SEC: u32 = 120;

/// Seconds of game time that training one unit takes.
pub const TRAIN_SECS: u32 = 3;

/// Entries a training queue holds, unless a building type says otherwise.
pub const TRAIN_QUEUE_MAX_LEN: usize = 5;

/// A span of game time, in ticks.
#[derive(Clone, Copy, Debug, PartialEq, Eq, Structural)]
pub struct GameDur(pub u64);

impl GameDur {
    /// `secs` seconds at `ticks_per_sec` ticks per second.
    pub fn from_secs(secs: u32, ticks_per_sec: u32) -> (r: GameDur)
        ensures
            r.0 == secs * ticks_per_sec,
    {
        proof {
            assert(secs * ticks_per_sec <= 0xffffffff * 0xffffffff) by (nonlinear_arith)
                requires
                    secs <= 0xffffffff,
                    ticks_per_sec <= 0xffffffff,
            ;
        }
        GameDur((secs as u64) * (ticks_per_sec as u64))
    }
}

/// What all units of one kind share.
#[derive(Clone, Copy, Debug)]
pub struct UnitType {
    pub name: &'static str,
    pub sprite_key: &'static str,
    pub radius: u32,
    /// World units walked per tick.
    pub base_speed: u32,
}

/// What all buildings of one kind share.
#[derive(Clone, Copy, Debug)]
pub struct BuildingType {
    pub name: &'static str,
    /// Footprint, in tiles.
    pub width: u32,
    pub height: u32,
    pub train_queue_max_len: usize,
}

/// One unit in a building's training queue.
#[derive(Clone, Copy, Debug)]
pub struct UnitTraining {
    pub unit_type: UnitType,
    pub dur_total: GameDur,
    pub dur_left: GameDur,
}

/// A unit that training finished, to be placed at `pos`.
#[derive(Clone, Copy, Debug)]
pub struct Spawn {
    pub unit_type: UnitType,
    pub pos: WorldPoint,
}

pub struct Unit {
    pub uid: UID,
    pub pos: WorldPoint,
    pub unit_type: UnitType,
    pub selected: bool,
    /// Points still to walk to, the next one first.
    pub waypoints: VecDeque<WorldPoint>,
    pub abilities: Vec<Ability>,
}

pub struct Building {
    pub uid: UID,
    pub top_left_pos: TilePoint,
    pub building_type: BuildingType,
    pub selected: bool,
    pub train_queue: VecDeque<UnitTraining>,
    pub train_queue_max_len: usize,
    pub abilities: Vec<Ability>,
}

pub struct State {
    pub units: Vec<Unit>,
    pub unit_types: Vec<UnitType>,
    pub building_types: Vec<BuildingType>,
    pub buildings: Vec<Building>,
    pub map: GridMap,
    /// The UID the registry issues next.
    pub next_uid: UID,
    pub ticks_per_sec: u32,
}

/// A path over empty tiles leads from the tile under `start` to the tile under `dest`.
pub open spec fn route_found(map: &GridMap, start: WorldPoint, dest: WorldPoint) -> bool {
    match (start.to_tile_point_spec(), dest.to_tile_point_spec()) {
        (Some(s), Some(d)) => crate::pathfind::path_exists(map, s, d),
        _ => false,
    }
}

/// The tiles of the path that the breadth-first search finds from the tile
/// under `start` to the tile under `dest`, when `route_found` holds.
pub open spec fn route_path(map: &GridMap, start: WorldPoint, dest: WorldPoint) -> Seq<TilePoint> {
    crate::pathfind::bfs_path(map, start.to_tile_point_spec()->Some_0, dest.to_tile_point_spec()->Some_0)->Some_0
}

/// The middle of tile `t`'s cell.
pub open spec fn center_of(t: TilePoint) -> WorldPoint {
    WorldPoint { x: WorldCoord(tile_middle(t.x as int) as i32), y: WorldCoord(tile_middle(t.y as int) as i32) }
}

/// The middles of the cells of the tiles of `p`, in order.
pub open spec fn tile_centers(p: Seq<TilePoint>) -> Seq<WorldPoint> {
    p.map_values(|t: TilePoint| center_of(t))
}

/// A training queue one tick later: the front entry counts down, and leaves the
/// queue when it is done.
pub open spec fn training_after_tick(q: Seq<UnitTraining>) -> Seq<UnitTraining> {
    if q.len() == 0 {
        q
    } else if q[0].dur_left.0 <= 1 {
        q.drop_first()
    } else {
        q.update(0, UnitTraining { dur_left: GameDur((q[0].dur_left.0 - 1) as u64), ..q[0] })
    }
}

impl UnitTraining {
    pub open spec fn wf(self) -> bool {
        self.dur_left.0 <= self.dur_total.0
    }
}

/// Appends the middles of the cells of the tiles of `path` to `waypoints`.
fn append_centers(waypoints: &mut VecDeque<WorldPoint>, path: &Vec<TilePoint>)
    requires
        forall|j: int| 0 <= j < path@.len() ==> (#[trigger] path@[j]).x <= MAX_TILE_COORD && path@[j].y
            <= MAX_TILE_COORD,
    ensures
        final(waypoints)@ == old(waypoints)@ + tile_centers(path@),
{
    let ghost w0 = waypoints@;
    let mut i: usize = 0;
    while i < path.len()
        invariant
            i <= path@.len(),
            forall|j: int| 0 <= j < path@.len() ==> (#[trigger] path@[j]).x <= MAX_TILE_COORD && path@[j].y
                <= MAX_TILE_COORD,
            waypoints@ == w0 + tile_centers(path@.subrange(0, i as int)),
        decreases path@.len() - i,
    {
        let t = path[i];
        waypoints.push_back(t.tile_center());
        assert(tile_centers(path@.subrange(0, i + 1)) =~= tile_centers(path@.subrange(0, i as int)).push(
            center_of(t),
        ));
        i = i + 1;
    }
    assert(path@.subrange(0, path@.len() as int) =~= path@);
}

impl Unit {
    /// This unit's position after one tick: it steps toward its first waypoint
    /// unless its box there would touch an obstacle.
    pub open spec fn moved_pos(self, map: &GridMap) -> WorldPoint {
        if self.waypoints@.len() == 0 {
            self.pos
        } else {
            let (next, _) = tentative_step(self.pos, self.waypoints@[0], self.unit_type.base_speed as int);
            if map.rect_blocked(box_around(next, self.unit_type.radius as int)) {
                self.pos
            } else {
                next
            }
        }
    }

    /// This unit's waypoints after one tick: the first is dropped once reached.
    pub open spec fn moved_waypoints(self, map: &GridMap) -> Seq<WorldPoint> {
        if self.waypoints@.len() == 0 {
            self.waypoints@
        } else {
            let (next, last) = tentative_step(self.pos, self.waypoints@[0], self.unit_type.base_speed as int);
            if !map.rect_blocked(box_around(next, self.unit_type.radius as int)) && last {
                self.waypoints@.drop_first()
            } else {
                self.waypoints@
            }
        }
    }

    /// `self` is `old` after one tick of motion on `map`.
    pub open spec fn advanced_from(self, old: Unit, map: &GridMap) -> bool {
        &&& self.pos == old.moved_pos(map)
        &&& self.waypoints@ == old.moved_waypoints(map)
        &&& self.uid == old.uid
        &&& self.unit_type == old.unit_type
        &&& self.selected == old.selected
        &&& self.abilities@ == old.abilities@
    }

    pub fn speed(&self) -> (r: u32)
        ensures
            r == self.unit_type.base_speed,
    {
        self.unit_type.base_speed
    }

    pub fn rad(&self) -> (r: u32)
        ensures
            r == self.unit_type.radius,
    {
        self.unit_type.radius
    }

    /// The square the unit takes up where it stands.
    pub fn bounding_box(&self) -> (r: WorldRect)
        ensures
            r == box_around(self.pos, self.unit_type.radius as int),
    {
        bounding_box_at(self.pos, self.unit_type.radius)
    }

    /// The radius of the unit on screen, in pixels.
    pub fn window_rad(&self) -> (r: u32)
        ensures
            r == self.unit_type.radius,
    {
        self.unit_type.radius
    }

    /// Adds `p` after the unit's last waypoint.
    pub fn queue_move(&mut self, p: WorldPoint)
        ensures
            final(self).waypoints@ == old(self).waypoints@.push(p),
            final(self).pos == old(self).pos,
            final(self).uid == old(self).uid,
            final(self).unit_type == old(self).unit_type,
            final(self).selected == old(self).selected,
            final(self).abilities@ == old(self).abilities@,
    {
        self.waypoints.push_back(p);
    }

    /// Whether the unit has somewhere to walk.
    pub fn move_queued(&self) -> (r: bool)
        ensures
            r == (self.waypoints@.len() > 0),
    {
        self.waypoints.len() > 0
    }

    /// Moves the unit one tick toward its first waypoint. The move is refused
    /// outright, leaving the unit where it is, when the unit's box at the new
    /// position would touch an obstacle tile; a waypoint that is reached is dropped.
    pub fn advance(&mut self, map: &GridMap)
        requires
            map.wf(),
        ensures
            final(self).advanced_from(*old(self), map),
    {
        if self.waypoints.len() == 0 {
            return;
        }
        let target = self.waypoints[0];
        let (next, last) = next_position(self.pos, target, self.unit_type.base_speed);
        let bounds = bounding_box_at(next, self.unit_type.radius);
        if map.rect_has_obstacle(bounds) {
            return;
        }
        self.pos = next;
        if last {
            let _ = self.waypoints.pop_front();
            assert(self.waypoints@ =~= old(self).waypoints@.drop_first());
        }
    }

    /// The point a new path starts from: the last waypoint, or the unit's
    /// position when it has none.
    pub open spec fn path_start(self) -> WorldPoint {
        if self.waypoints@.len() == 0 {
            self.pos
        } else {
            self.waypoints@.last()
        }
    }

    /// Finds a shortest path over empty tiles from the end of the unit's current
    /// route to `dest` and appends the middles of its tiles, after the start
    /// tile, to the waypoints. Returns whether such a path exists; without one
    /// the waypoints are left as they were.
    pub fn pathfind(&mut self, map: &GridMap, dest: WorldPoint) -> (r: bool)
        requires
            map.wf(),
        ensures
            r == route_found(map, old(self).path_start(), dest),
            r ==> is_shortest_path(
                map,
                old(self).path_start().to_tile_point_spec()->Some_0,
                dest.to_tile_point_spec()->Some_0,
                route_path(map, old(self).path_start(), dest),
            ),
            r ==> final(self).waypoints@ == old(self).waypoints@ + tile_centers(
                route_path(map, old(self).path_start(), dest),
            ),
            !r ==> final(self).waypoints@ == old(self).waypoints@,
            final(self).pos == old(self).pos,
            final(self).uid == old(self).uid,
            final(self).unit_type == old(self).unit_type,
            final(self).selected == old(self).selected,
            final(self).abilities@ == old(self).abilities@,
    {
        let start = if self.waypoints.len() == 0 {
            self.pos
        } else {
            self.waypoints[self.waypoints.len() - 1]
        };
        let src = match start.to_tile_point() {
            Some(t) => t,
            None => return false,
        };
        let dst = match dest.to_tile_point() {
            Some(t) => t,
            None => return false,
        };
        let path = match find_path(map, src, dst) {
            Some(p) => p,
            None => return false,
        };
        proof {
            assert forall|j: int| 0 <= j < path@.len() implies (#[trigger] path@[j]).x <= MAX_TILE_COORD
                && path@[j].y <= MAX_TILE_COORD by {
                assert(crate::pathfind::tile_passable(map, path@[j]));
            }
        }
        append_centers(&mut self.waypoints, &path);
        true
    }
}

impl Building {
    /// The queue holds no more than its bound, and every entry is well formed.
    pub open spec fn wf(self) -> bool {
        &&& self.train_queue@.len() <= self.train_queue_max_len
        &&& forall|i: int| 0 <= i < self.train_queue@.len() ==> (#[trigger] self.train_queue@[i]).wf()
        &&& self.top_left_pos.x <= MAX_TILE_COORD
        &&& self.top_left_pos.y + self.building_type.height <= MAX_TILE_COORD
    }

    /// Where units trained here appear: the middle of the tile just below the
    /// building's top-left tile.
    pub open spec fn spawn_point_spec(self) -> WorldPoint {
        center_of(TilePoint { x: self.top_left_pos.x, y: (self.top_left_pos.y + self.building_type.height) as u32 })
    }

    /// The unit that finishes training on this tick, if any.
    pub open spec fn due_spawn(self) -> Option<Spawn> {
        if self.train_queue@.len() > 0 && self.train_queue@[0].dur_left.0 <= 1 {
            Some(Spawn { unit_type: self.train_queue@[0].unit_type, pos: self.spawn_point_spec() })
        } else {
            None
        }
    }

    /// `self` is `old` after one tick of training.
    pub open spec fn trained_from(self, old: Building) -> bool {
        &&& self.train_queue@ == training_after_tick(old.train_queue@)
        &&& self.uid == old.uid
        &&& self.top_left_pos == old.top_left_pos
        &&& self.building_type == old.building_type
        &&& self.selected == old.selected
        &&& self.train_queue_max_len == old.train_queue_max_len
        &&& self.abilities@ == old.abilities@
    }

    pub fn width(&self) -> (r: u32)
        ensures
            r == self.building_type.width,
    {
        self.building_type.width
    }

    pub fn height(&self) -> (r: u32)
        ensures
            r == self.building_type.height,
    {
        self.building_type.height
    }

    pub fn spawn_point(&self) -> (r: WorldPoint)
        requires
            self.wf(),
        ensures
            r == self.spawn_point_spec(),
    {
        TilePoint { x: self.top_left_pos.x, y: self.top_left_pos.y + self.building_type.height }.tile_center()
    }

    /// Counts the front training entry down by one tick; when it is done it
    /// leaves the queue and the unit to place is returned. Entries behind the
    /// front wait their turn.
    pub fn progress_training(&mut self) -> (r: Option<Spawn>)
        requires
            old(self).wf(),
        ensures
            final(self).wf(),
            final(self).trained_from(*old(self)),
            r == old(self).due_spawn(),
    {
        if self.train_queue.len() == 0 {
            return None;
        }
        let front = self.train_queue[0];
        if front.dur_left.0 <= 1 {
            let _ = self.train_queue.pop_front();
            assert(self.train_queue@ =~= old(self).train_queue@.drop_first());
            assert forall|i: int| 0 <= i < self.train_queue@.len() implies (#[trigger] self.train_queue@[i]).wf() by {
                assert(self.train_queue@[i] == old(self).train_queue@[i + 1]);
            }
            Some(Spawn { unit_type: front.unit_type, pos: self.spawn_point() })
        } else {
            let _ = self.train_queue.pop_front();
            self.train_queue.push_front(UnitTraining { dur_left: GameDur(front.dur_left.0 - 1), ..front });
            assert(self.train_queue@ =~= training_after_tick(old(self).train_queue@));
            assert forall|i: int| 0 <= i < self.train_queue@.len() implies (#[trigger] self.train_queue@[i]).wf() by {
                assert(old(self).train_queue@[i].wf());
            }
            None
        }
    }
}

/// The units that the buildings `bs` finish training on one tick, in building order.
pub open spec fn spawns_of(bs: Seq<Building>) -> Seq<Spawn>
    decreases bs.len(),
{
    if bs.len() == 0 {
        Seq::empty()
    } else {
        let rest = spawns_of(bs.drop_last());
        match bs.last().due_spawn() {
            Some(sp) => rest.push(sp),
            None => rest,
        }
    }
}

/// How many of `wanted` new entities can still get a UID when `next` is issued next.
pub open spec fn issuable(wanted: int, next: UID) -> int {
    if wanted <= UID::MAX - next {
        wanted
    } else {
        UID::MAX - next
    }
}

/// `u` is a freshly made unit with the given identity, type, place and abilities.
pub open spec fn is_new_unit(u: Unit, uid: int, unit_type: UnitType, pos: WorldPoint, abilities: Seq<Ability>) -> bool {
    &&& u.uid == uid
    &&& u.unit_type == unit_type
    &&& u.pos == pos
    &&& !u.selected
    &&& u.waypoints@.len() == 0
    &&& u.abilities@ == abilities
}

/// `b` is a freshly made building with the given identity, type, place and abilities.
pub open spec fn is_new_building(
    b: Building,
    uid: int,
    building_type: BuildingType,
    top_left_pos: TilePoint,
    abilities: Seq<Ability>,
) -> bool {
    &&& b.uid == uid
    &&& b.building_type == building_type
    &&& b.top_left_pos == top_left_pos
    &&& !b.selected
    &&& b.train_queue@.len() == 0
    &&& b.train_queue_max_len == building_type.train_queue_max_len
    &&& b.abilities@ == abilities
}

impl State {
    /// Every UID in use was issued, and no two entities share one.
    pub open spec fn uids_ok(&self) -> bool {
        &&& forall|i: int| 0 <= i < self.units@.len() ==> (#[trigger] self.units@[i]).uid < self.next_uid
        &&& forall|i: int| 0 <= i < self.buildings@.len() ==> (#[trigger] self.buildings@[i]).uid < self.next_uid
        &&& forall|i: int, j: int|
            0 <= i < j < self.units@.len() ==> (#[trigger] self.units@[i]).uid != (#[trigger] self.units@[j]).uid
        &&& forall|i: int, j: int|
            0 <= i < j < self.buildings@.len() ==> (#[trigger] self.buildings@[i]).uid != (
            #[trigger] self.buildings@[j]).uid
        &&& forall|i: int, j: int|
            0 <= i < self.units@.len() && 0 <= j < self.buildings@.len() ==> (#[trigger] self.units@[i]).uid
                != (#[trigger] self.buildings@[j]).uid
    }

    pub open spec fn wf(&self) -> bool {
        &&& self.map.wf()
        &&& self.uids_ok()
        &&& forall|i: int| 0 <= i < self.buildings@.len() ==> (#[trigger] self.buildings@[i]).wf()
    }

    /// The map, the type catalogs and the tick rate are the same in both states.
    pub open spec fn same_world(&self, other: &State) -> bool {
        &&& self.map == other.map
        &&& self.unit_types@ == other.unit_types@
        &&& self.building_types@ == other.building_types@
        &&& self.ticks_per_sec == other.ticks_per_sec
    }

    /// The abilities a new unit with UID `uid` starts with.
    pub open spec fn unit_abilities_for(&self, uid: UID) -> Seq<Ability> {
        if self.building_types@.len() > 0 {
            seq![Ability::PointTargeted(AbilityBuild { caster: uid, building_type: self.building_types@[0] })]
        } else {
            Seq::empty()
        }
    }

    /// The abilities a new building with UID `uid` starts with.
    pub open spec fn building_abilities_for(&self, uid: UID) -> Seq<Ability> {
        if self.unit_types@.len() > 0 {
            seq![Ability::NonTargeted(AbilityTrain { caster: uid, unit_type: self.unit_types@[0] })]
        } else {
            Seq::empty()
        }
    }

    fn unit_abilities(&self, uid: UID) -> (r: Vec<Ability>)
        ensures
            r@ == self.unit_abilities_for(uid),
    {
        let mut r: Vec<Ability> = Vec::new();
        if self.building_types.len() > 0 {
            r.push(AbilityBuild::new(uid, self.building_types[0]));
        }
        assert(r@ =~= self.unit_abilities_for(uid));
        r
    }

    fn building_abilities(&self, uid: UID) -> (r: Vec<Ability>)
        ensures
            r@ == self.building_abilities_for(uid),
    {
        let mut r: Vec<Ability> = Vec::new();
        if self.unit_types.len() > 0 {
            r.push(AbilityTrain::new(uid, self.unit_types[0]));
        }
        assert(r@ =~= self.building_abilities_for(uid));
        r
    }

    /// Adds a unit of type `unit_type` at `pos`, with the next UID and the
    /// default abilities of a unit. Returns its UID, or `None` once every UID
    /// has been issued, in which case nothing changes.
    pub fn make_unit(&mut self, unit_type: UnitType, pos: WorldPoint) -> (r: Option<UID>)
        requires
            old(self).wf(),
        ensures
            final(self).wf(),
            final(self).same_world(old(self)),
            old(self).next_uid == UID::MAX ==> r is None && *final(self) == *old(self),
            old(self).next_uid < UID::MAX ==> {
                &&& r == Some(old(self).next_uid)
                &&& final(self).next_uid == old(self).next_uid + 1
                &&& final(self).units@.len() == old(self).units@.len() + 1
                &&& final(self).units@.drop_last() == old(self).units@
                &&& is_new_unit(
                    final(self).units@.last(),
                    old(self).next_uid as int,
                    unit_type,
                    pos,
                    old(self).unit_abilities_for(old(self).next_uid),
                )
                &&& final(self).buildings@ == old(self).buildings@
            },
    {
        if self.next_uid == UID::MAX {
            return None;
        }
        let uid = self.next_uid;
        let abilities = self.unit_abilities(uid);
        self.units.push(
            Unit { uid, pos, unit_type, selected: false, waypoints: VecDeque::new(), abilities },
        );
        self.next_uid = uid + 1;
        assert(self.units@.drop_last() =~= old(self).units@);
        Some(uid)
    }

    /// Adds a building of type `building_type` whose top-left tile is
    /// `top_left_pos`, with the next UID, an empty training queue and the
    /// default abilities of a building. Fails, changing nothing, when the
    /// building or the point below it would reach beyond world space, or once
    /// every UID has been issued.
    pub fn make_building(&mut self, building_type: BuildingType, top_left_pos: TilePoint) -> (r: Result<
        UID,
        CastError,
    >)
        requires
            old(self).wf(),
        ensures
            final(self).wf(),
            final(self).same_world(old(self)),
            building_placed(*old(self), *final(self), building_type, top_left_pos, r),
    {
        if top_left_pos.x > MAX_TILE_COORD || (top_left_pos.y as u64) + (building_type.height as u64)
            > MAX_TILE_COORD as u64 {
            return Err(CastError::OutOfWorld);
        }
        if self.next_uid == UID::MAX {
            return Err(CastError::UidsExhausted);
        }
        let uid = self.next_uid;
        let abilities = self.building_abilities(uid);
        self.buildings.push(
            Building {
                uid,
                top_left_pos,
                building_type,
                selected: false,
                train_queue: VecDeque::new(),
                train_queue_max_len: building_type.train_queue_max_len,
                abilities,
            },
        );
        self.next_uid = uid + 1;
        assert(self.buildings@.drop_last() =~= old(self).buildings@);
        assert forall|i: int| 0 <= i < self.buildings@.len() implies (#[trigger] self.buildings@[i]).wf() by {
            if i < old(self).buildings@.len() {
                assert(self.buildings@[i] == old(self).buildings@[i]);
            }
        }
        Ok(uid)
    }

    /// Where the unit with UID `uid` is stored, if there is one.
    pub fn find_unit(&self, uid: UID) -> (r: Option<usize>)
        ensures
            match r {
                Some(i) => i < self.units@.len() && self.units@[i as int].uid == uid,
                None => forall|i: int| 0 <= i < self.units@.len() ==> (#[trigger] self.units@[i]).uid != uid,
            },
    {
        let mut i: usize = 0;
        while i < self.units.len()
            invariant
                i <= self.units@.len(),
                forall|j: int| 0 <= j < i ==> (#[trigger] self.units@[j]).uid != uid,
            decreases self.units@.len() - i,
        {
            if self.units[i].uid == uid {
                return Some(i);
            }
            i = i + 1;
        }
        None
    }

    /// Where the building with UID `uid` is stored, if there is one.
    pub fn find_building(&self, uid: UID) -> (r: Option<usize>)
        ensures
            match r {
                Some(i) => i < self.buildings@.len() && self.buildings@[i as int].uid == uid,
                None => forall|i: int|
                    0 <= i < self.buildings@.len() ==> (#[trigger] self.buildings@[i]).uid != uid,
            },
    {
        let mut i: usize = 0;
        while i < self.buildings.len()
            invariant
                i <= self.buildings@.len(),
                forall|j: int| 0 <= j < i ==> (#[trigger] self.buildings@[j]).uid != uid,
            decreases self.buildings@.len() - i,
        {
            if self.buildings[i].uid == uid {
                return Some(i);
            }
            i = i + 1;
        }
        None
    }

    /// The unit with UID `uid`, or `None` when there is none.
    pub fn get_unit(&self, uid: UID) -> (r: Option<&Unit>)
        ensures
            r is None <==> forall|i: int| 0 <= i < self.units@.len() ==> (#[trigger] self.units@[i]).uid != uid,
            r matches Some(u) ==> u.uid == uid && exists|i: int| 0 <= i < self.units@.len() && self.units@[i] == *u,
    {
        match self.find_unit(uid) {
            Some(i) => Some(&self.units[i]),
            None => None,
        }
    }

    /// The building with UID `uid`, or `None` when there is none.
    pub fn get_building(&self, uid: UID) -> (r: Option<&Building>)
        ensures
            r is None <==> forall|i: int|
                0 <= i < self.buildings@.len() ==> (#[trigger] self.buildings@[i]).uid != uid,
            r matches Some(b) ==> b.uid == uid && exists|i: int|
                0 <= i < self.buildings@.len() && self.buildings@[i] == *b,
    {
        match self.find_building(uid) {
            Some(i) => Some(&self.buildings[i]),
            None => None,
        }
    }
}

/// `after` is `before` one tick later: every unit moved, every building's
/// training advanced, and the units that finished training placed while UIDs last.
pub open spec fn ticked(before: State, after: State) -> bool {
    let sp = spawns_of(before.buildings@);
    let k = issuable(sp.len() as int, before.next_uid);
    &&& after.same_world(&before)
    &&& after.buildings@.len() == before.buildings@.len()
    &&& forall|i: int|
        0 <= i < before.buildings@.len() ==> (#[trigger] after.buildings@[i]).trained_from(
            before.buildings@[i],
        )
    &&& forall|i: int|
        0 <= i < before.units@.len() ==> (#[trigger] after.units@[i]).advanced_from(
            before.units@[i],
            &before.map,
        )
    &&& after.next_uid == before.next_uid + k
    &&& after.units@.len() == before.units@.len() + k
    &&& forall|t: int|
        0 <= t < k ==> is_new_unit(
            #[trigger] after.units@[before.units@.len() + t],
            before.next_uid + t,
            sp[t].unit_type,
            sp[t].pos,
            before.unit_abilities_for((before.next_uid + t) as UID),
        )
}

impl State {
    /// Moves every unit one tick, in registry order.
    fn move_units(&mut self)
        requires
            old(self).wf(),
        ensures
            final(self).wf(),
            final(self).same_world(old(self)),
            final(self).next_uid == old(self).next_uid,
            final(self).buildings@ == old(self).buildings@,
            final(self).units@.len() == old(self).units@.len(),
            forall|i: int|
                0 <= i < old(self).units@.len() ==> (#[trigger] final(self).units@[i]).advanced_from(
                    old(self).units@[i],
                    &old(self).map,
                ),
    {
        let mut i: usize = 0;
        while i < self.units.len()
            invariant
                self.map == old(self).map,
                self.map.wf(),
                self.unit_types@ == old(self).unit_types@,
                self.building_types@ == old(self).building_types@,
                self.ticks_per_sec == old(self).ticks_per_sec,
                self.next_uid == old(self).next_uid,
                self.buildings@ == old(self).buildings@,
                self.units@.len() == old(self).units@.len(),
                i <= self.units@.len(),
                forall|j: int|
                    0 <= j < i ==> (#[trigger] self.units@[j]).advanced_from(old(self).units@[j], &old(self).map),
                forall|j: int| i <= j < self.units@.len() ==> #[trigger] self.units@[j] == old(self).units@[j],
            decreases self.units@.len() - i,
        {
            self.units[i].advance(&self.map);
            i = i + 1;
        }
        assert forall|j: int| 0 <= j < self.units@.len() implies (#[trigger] self.units@[j]).uid == old(
            self,
        ).units@[j].uid by {
            if j < i {
                assert(self.units@[j].advanced_from(old(self).units@[j], &old(self).map));
            }
        }
    }

    /// Advances every building's training by one tick and returns the units
    /// that are done, in building order.
    fn progress_buildings(&mut self) -> (spawns: Vec<Spawn>)
        requires
            old(self).wf(),
        ensures
            final(self).wf(),
            final(self).same_world(old(self)),
            final(self).next_uid == old(self).next_uid,
            final(self).units@ == old(self).units@,
            final(self).buildings@.len() == old(self).buildings@.len(),
            forall|i: int|
                0 <= i < old(self).buildings@.len() ==> (#[trigger] final(self).buildings@[i]).trained_from(
                    old(self).buildings@[i],
                ),
            spawns@ == spawns_of(old(self).buildings@),
    {
        let mut spawns: Vec<Spawn> = Vec::new();
        let mut i: usize = 0;
        while i < self.buildings.len()
            invariant
                self.map == old(self).map,
                self.unit_types@ == old(self).unit_types@,
                self.building_types@ == old(self).building_types@,
                self.ticks_per_sec == old(self).ticks_per_sec,
                self.next_uid == old(self).next_uid,
                self.units@ == old(self).units@,
                self.buildings@.len() == old(self).buildings@.len(),
                i <= self.buildings@.len(),
                forall|j: int| 0 <= j < self.buildings@.len() ==> (#[trigger] self.buildings@[j]).wf(),
                forall|j: int|
                    0 <= j < i ==> (#[trigger] self.buildings@[j]).trained_from(old(self).buildings@[j]),
                forall|j: int|
                    i <= j < self.buildings@.len() ==> #[trigger] self.buildings@[j] == old(self).buildings@[j],
                spawns@ == spawns_of(old(self).buildings@.subrange(0, i as int)),
            decreases self.buildings@.len() - i,
        {
            let done = self.buildings[i].progress_training();
            proof {
                let pre = old(self).buildings@.subrange(0, i + 1);
                assert(pre.drop_last() =~= old(self).buildings@.subrange(0, i as int));
                assert(pre.last() == old(self).buildings@[i as int]);
            }
            match done {
                Some(sp) => {
                    spawns.push(sp);
                },
                None => {},
            }
            i = i + 1;
        }
        assert(old(self).buildings@.subrange(0, i as int) =~= old(self).buildings@);
        assert forall|j: int| 0 <= j < self.buildings@.len() implies (#[trigger] self.buildings@[j]).uid == old(
            self,
        ).buildings@[j].uid by {
            assert(self.buildings@[j].trained_from(old(self).buildings@[j]));
        }
        spawns
    }

    /// Places the units of `spawns`, in order, while UIDs last.
    fn place_spawns(&mut self, spawns: &Vec<Spawn>)
        requires
            old(self).wf(),
        ensures
            final(self).wf(),
            final(self).same_world(old(self)),
            final(self).buildings@ == old(self).buildings@,
            ({
                let k = issuable(spawns@.len() as int, old(self).next_uid);
                &&& final(self).next_uid == old(self).next_uid + k
                &&& final(self).units@.len() == old(self).units@.len() + k
                &&& final(self).units@.subrange(0, old(self).units@.len() as int) == old(self).units@
                &&& forall|t: int|
                    0 <= t < k ==> is_new_unit(
                        #[trigger] final(self).units@[old(self).units@.len() + t],
                        old(self).next_uid + t,
                        spawns@[t].unit_type,
                        spawns@[t].pos,
                        old(self).unit_abilities_for((old(self).next_uid + t) as UID),
                    )
            }),
    {
        let ghost n0 = old(self).units@.len();
        let ghost u0 = old(self).next_uid;
        let mut j: usize = 0;
        while j < spawns.len()
            invariant
                self.wf(),
                self.same_world(old(self)),
                self.buildings@ == old(self).buildings@,
                j <= spawns@.len(),
                self.next_uid == u0 + issuable(j as int, u0),
                self.units@.len() == n0 + issuable(j as int, u0),
                self.units@.subrange(0, n0 as int) == old(self).units@,
                forall|t: int|
                    0 <= t < issuable(j as int, u0) ==> is_new_unit(
                        #[trigger] self.units@[n0 + t],
                        u0 + t,
                        spawns@[t].unit_type,
                        spawns@[t].pos,
                        old(self).unit_abilities_for((u0 + t) as UID),
                    ),
            decreases spawns@.len() - j,
        {
            let sp = spawns[j];
            let ghost before = self.units@;
            let _ = self.make_unit(sp.unit_type, sp.pos);
            proof {
                assert(self.units@.subrange(0, n0 as int) =~= old(self).units@) by {
                    assert forall|t: int| 0 <= t < n0 implies self.units@[t] == before[t] by {
                        if self.units@.len() > before.len() {
                            assert(self.units@.drop_last()[t] == before[t]);
                        }
                    }
                    assert(before.subrange(0, n0 as int) == old(self).units@);
                }
                assert forall|t: int| 0 <= t < issuable(j + 1, u0) implies is_new_unit(
                    #[trigger] self.units@[n0 + t],
                    u0 + t,
                    spawns@[t].unit_type,
                    spawns@[t].pos,
                    old(self).unit_abilities_for((u0 + t) as UID),
                ) by {
                    if t < issuable(j as int, u0) {
                        if self.units@.len() > before.len() {
                            assert(self.units@.drop_last()[n0 + t] == before[n0 + t]);
                        }
                    }
                }
            }
            j = j + 1;
        }
    }

    /// Advances the world by one tick: every unit moves, then every building's
    /// training advances, then the units whose training finished are placed.
    pub fn tick(&mut self)
        requires
            old(self).wf(),
        ensures
            final(self).wf(),
            ticked(*old(self), *final(self)),
    {
        self.move_units();
        let ghost moved = self.units@;
        let spawns = self.progress_buildings();
        self.place_spawns(&spawns);
        assert forall|i: int| 0 <= i < old(self).units@.len() implies (#[trigger] self.units@[i]).advanced_from(
            old(self).units@[i],
            &old(self).map,
        ) by {
            assert(self.units@[i] == self.units@.subrange(0, moved.len() as int)[i]);
            assert(moved[i].advanced_from(old(self).units@[i], &old(self).map));
        }
    }
}

/// The tiles of the starting map, row by row, 14 to a row: `o` is empty and
/// `l` an obstacle.
pub open spec fn starting_tiles() -> Seq<GridTile> {
    let o = GridTile::Empty;
    let l = GridTile::Obstacle;
    seq![
        o, o, o, o, o, o, o, o, o, o, o, o, o, o,
        o, o, o, o, o, o, o, o, o, o, o, o, o, o,
        o, o, o, o, o, l, l, l, l, l, l, o, o, o,
        o, o, o, o, o, o, o, o, o, o, l, o, o, o,
        o, o, o, o, o, o, o, o, l, o, l, o, o, o,
        o, o, o, o, o, l, l, l, l, o, l, o, o, o,
        o, o, o, o, o, l, o, o, o, o, l, o, o, o,
        o, o, o, o, o, l, l, l, l, l, l, o, o, o,
        o, o, o, o, o, o, o, o, o, o, o, o, o, o,
        o, o, o, o, o, o, o, o, o, o, o, o, o, o,
    ]
}

impl State {
    /// The starting world: a 14 by 10 map with a few walls, and nothing on it.
    pub fn blank() -> (r: State)
        ensures
            r.wf(),
            r.map.width == 14,
            r.map.height == 10,
            r.map.grid_tiles@ == starting_tiles(),
            r.units@.len() == 0,
            r.buildings@.len() == 0,
            r.unit_types@.len() == 0,
            r.building_types@.len() == 0,
            r.next_uid == 0,
            r.ticks_per_sec == TICKS_PER_SEC,
    {
        let o = GridTile::Empty;
        let l = GridTile::Obstacle;
        let grid_tiles = vec![
            o, o, o, o, o, o, o, o, o, o, o, o, o, o,
            o, o, o, o, o, o, o, o, o, o, o, o, o, o,
            o, o, o, o, o, l, l, l, l, l, l, o, o, o,
            o, o, o, o, o, o, o, o, o, o, l, o, o, o,
            o, o, o, o, o, o, o, o, l, o, l, o, o, o,
            o, o, o, o, o, l, l, l, l, o, l, o, o, o,
            o, o, o, o, o, l, o, o, o, o, l, o, o, o,
            o, o, o, o, o, l, l, l, l, l, l, o, o, o,
            o, o, o, o, o, o, o, o, o, o, o, o, o, o,
            o, o, o, o, o, o, o, o, o, o, o, o, o, o,
        ];
        assert(grid_tiles@ =~= starting_tiles());
        let r = State {
            units: Vec::new(),
            unit_types: Vec::new(),
            building_types: Vec::new(),
            buildings: Vec::new(),
            map: GridMap { width: 14, height: 10, grid_tiles },
            next_uid: 0,
            ticks_per_sec: TICKS_PER_SEC,
        };
        assert(r.map.grid_tiles@.len() == r.map.width as int * r.map.height as int) by (nonlinear_arith)
            requires
                r.map.grid_tiles@.len() == 140,
                r.map.width == 14,
                r.map.height == 10,
        ;
        r
    }

    /// The first level: the blank world with one worker unit and one
    /// production building.
    pub fn level1() -> (r: State)
        ensures
            r.wf(),
            r.map.width == 14,
            r.map.height == 10,
            r.unit_types@.len() == 1,
            r.building_types@.len() == 1,
            r.units@.len() == 1,
            r.buildings@.len() == 1,
            r.units@[0].pos == (WorldPoint { x: WorldCoord(300), y: WorldCoord(250) }),
            r.buildings@[0].top_left_pos == (TilePoint { x: 1, y: 1 }),
            r.next_uid == 2,
            r.map.grid_tiles@ == starting_tiles(),
            r.unit_types@[0].name@ == "Newt"@,
            r.unit_types@[0].sprite_key@ == "newt_gingrich"@,
            r.unit_types@[0].radius == 16,
            r.unit_types@[0].base_speed == 1,
            r.building_types@[0].name@ == "Barracks"@,
            r.building_types@[0].width == 1,
            r.building_types@[0].height == 1,
            r.building_types@[0].train_queue_max_len == TRAIN_QUEUE_MAX_LEN,
            is_new_unit(
                r.units@[0],
                0,
                r.unit_types@[0],
                WorldPoint { x: WorldCoord(300), y: WorldCoord(250) },
                seq![Ability::PointTargeted(AbilityBuild { caster: 0, building_type: r.building_types@[0] })],
            ),
            is_new_building(
                r.buildings@[0],
                1,
                r.building_types@[0],
                TilePoint { x: 1, y: 1 },
                seq![Ability::NonTargeted(AbilityTrain { caster: 1, unit_type: r.unit_types@[0] })],
            ),
    {
        let mut state = State::blank();
        let newt_type = UnitType { name: "Newt", sprite_key: "newt_gingrich", radius: 16, base_speed: 1 };
        let barracks_type = BuildingType {
            name: "Barracks",
            width: 1,
            height: 1,
            train_queue_max_len: TRAIN_QUEUE_MAX_LEN,
        };
        state.unit_types.push(newt_type);
        state.building_types.push(barracks_type);
        let _ = state.make_unit(newt_type, WorldPoint { x: WorldCoord(300), y: WorldCoord(250) });
        let _ = state.make_building(barracks_type, TilePoint { x: 1, y: 1 });
        state
    }
}

/// `after` is `before` once a building of type `bt` was asked for at tile `t`,
/// with outcome `r`: it fails, changing nothing, when the building or the
/// point below it would reach beyond world space, or once every UID has been
/// issued; otherwise the building is added with the next UID.
pub open spec fn building_placed(
    before: State,
    after: State,
    bt: BuildingType,
    t: TilePoint,
    r: Result<UID, CastError>,
) -> bool {
    let in_world = t.x <= MAX_TILE_COORD && t.y + bt.height <= MAX_TILE_COORD;
    &&& !in_world ==> r == Err::<UID, CastError>(CastError::OutOfWorld) && after == before
    &&& in_world && before.next_uid == UID::MAX ==> r == Err::<UID, CastError>(CastError::UidsExhausted)
        && after == before
    &&& in_world && before.next_uid < UID::MAX ==> {
        &&& r == Ok::<UID, CastError>(before.next_uid)
        &&& after.same_world(&before)
        &&& after.next_uid == before.next_uid + 1
        &&& after.buildings@.len() == before.buildings@.len() + 1
        &&& after.buildings@.drop_last() == before.buildings@
        &&& is_new_building(
            after.buildings@.last(),
            before.next_uid as int,
            bt,
            t,
            before.building_abilities_for(before.next_uid),
        )
        &&& after.units@ == before.units@
    }
}

/// `after` is `before` once the building `caster` was asked to train a unit of
/// type `ut`, with outcome `r`: without such a building, or with its queue
/// full, nothing changes; otherwise a training of `TRAIN_SECS` seconds joins
/// the back of its queue.
pub open spec fn training_queued(
    before: State,
    after: State,
    caster: UID,
    ut: UnitType,
    r: Result<(), CastError>,
) -> bool {
    let dur = GameDur((TRAIN_SECS * before.ticks_per_sec) as u64);
    &&& (forall|i: int| 0 <= i < before.buildings@.len() ==> (#[trigger] before.buildings@[i]).uid != caster)
        ==> r == Err::<(), CastError>(CastError::CasterNotFound) && after == before
    &&& forall|i: int|
        0 <= i < before.buildings@.len() && (#[trigger] before.buildings@[i]).uid == caster ==> {
            let b = before.buildings@[i];
            if b.train_queue@.len() >= b.train_queue_max_len {
                r == Err::<(), CastError>(CastError::QueueFull) && after == before
            } else {
                &&& r == Ok::<(), CastError>(())
                &&& after.same_world(&before)
                &&& after.units@ == before.units@
                &&& after.next_uid == before.next_uid
                &&& after.buildings@.len() == before.buildings@.len()
                &&& forall|j: int|
                    0 <= j < before.buildings@.len() && j != i ==> #[trigger] after.buildings@[j]
                        == before.buildings@[j]
                &&& after.buildings@[i].train_queue@ == b.train_queue@.push(
                    UnitTraining { unit_type: ut, dur_total: dur, dur_left: dur },
                )
                &&& after.buildings@[i].uid == b.uid
                &&& after.buildings@[i].top_left_pos == b.top_left_pos
                &&& after.buildings@[i].building_type == b.building_type
                &&& after.buildings@[i].selected == b.selected
                &&& after.buildings@[i].train_queue_max_len == b.train_queue_max_len
                &&& after.buildings@[i].abilities@ == b.abilities@
            }
        }
}

/// `after` is `before` once the unit `caster` was asked to build a building of
/// type `bt` centred on `target`, with outcome `r`.
pub open spec fn building_ordered(
    before: State,
    after: State,
    caster: UID,
    bt: BuildingType,
    target: WorldPoint,
    r: Result<UID, CastError>,
) -> bool {
    if forall|i: int| 0 <= i < before.units@.len() ==> (#[trigger] before.units@[i]).uid != caster {
        r == Err::<UID, CastError>(CastError::CasterNotFound) && after == before
    } else {
        match build_site(bt, target) {
            None => r == Err::<UID, CastError>(CastError::InvalidTarget) && after == before,
            Some(t) => building_placed(before, after, bt, t, r),
        }
    }
}

impl State {
    /// Queues a unit of type `unit_type` for training in the building `caster`.
    pub fn train(&mut self, caster: UID, unit_type: UnitType) -> (r: Result<(), CastError>)
        requires
            old(self).wf(),
        ensures
            final(self).wf(),
            training_queued(*old(self), *final(self), caster, unit_type, r),
    {
        let i = match self.find_building(caster) {
            Some(i) => i,
            None => return Err(CastError::CasterNotFound),
        };
        if self.buildings[i].train_queue.len() >= self.buildings[i].train_queue_max_len {
            return Err(CastError::QueueFull);
        }
        let dur = GameDur::from_secs(TRAIN_SECS, self.ticks_per_sec);
        let ghost b0 = self.buildings@;
        self.buildings[i].train_queue.push_back(UnitTraining { unit_type, dur_total: dur, dur_left: dur });
        proof {
            assert forall|j: int| 0 <= j < self.buildings@.len() implies (#[trigger] self.buildings@[j]).wf() by {
                if j == i {
                    let q = self.buildings@[j].train_queue@;
                    assert forall|k: int| 0 <= k < q.len() implies (#[trigger] q[k]).wf() by {
                        if k < q.len() - 1 {
                            assert(q[k] == b0[j].train_queue@[k]);
                        }
                    }
                }
            }
            assert forall|j: int|
                0 <= j < old(self).buildings@.len() && (#[trigger] old(self).buildings@[j]).uid == caster
                implies j == i by {
                if j != i {
                    assert(old(self).uids_ok());
                    if j < i {
                        assert(old(self).buildings@[j].uid != old(self).buildings@[i as int].uid);
                    } else {
                        assert(old(self).buildings@[i as int].uid != old(self).buildings@[j].uid);
                    }
                }
            }
        }
        Ok(())
    }

    /// Places a building of type `building_type` centred on `target`, on behalf
    /// of the unit `caster`.
    pub fn build(&mut self, caster: UID, building_type: BuildingType, target: WorldPoint) -> (r: Result<
        UID,
        CastError,
    >)
        requires
            old(self).wf(),
        ensures
            final(self).wf(),
            building_ordered(*old(self), *final(self), caster, building_type, target, r),
    {
        if self.find_unit(caster).is_none() {
            return Err(CastError::CasterNotFound);
        }
        let site = AbilityBuild { caster, building_type }.where_to_build(target);
        match site {
            None => Err(CastError::InvalidTarget),
            Some(t) => self.make_building(building_type, t),
        }
    }
}

/// A unit whose box at its tentative next position touches an obstacle tile
/// does not move on that tick: its position stays exactly the same, and so do
/// its waypoints.
pub proof fn lemma_blocked_unit_stays(u: Unit, map: &GridMap)
    requires
        map.wf(),
        u.waypoints@.len() > 0,
        map.rect_blocked(
            box_around(
                tentative_step(u.pos, u.waypoints@[0], u.unit_type.base_speed as int).0,
                u.unit_type.radius as int,
            ),
        ),
    ensures
        u.moved_pos(map) == u.pos,
        u.moved_waypoints(map) == u.waypoints@,
{
}

/// Asking a building whose training queue is full to train changes nothing:
/// the queue keeps its contents and its length, and the cast reports the full
/// queue.
pub proof fn lemma_full_queue_unchanged(
    before: State,
    after: State,
    caster: UID,
    ut: UnitType,
    r: Result<(), CastError>,
    i: int,
)
    requires
        before.wf(),
        0 <= i < before.buildings@.len(),
        before.buildings@[i].uid == caster,
        before.buildings@[i].train_queue@.len() == before.buildings@[i].train_queue_max_len,
        training_queued(before, after, caster, ut, r),
    ensures
        r == Err::<(), CastError>(CastError::QueueFull),
        after == before,
        after.buildings@[i].train_queue@ == before.buildings@[i].train_queue@,
{
    assert(before.buildings@[i].uid == caster);
}

/// A front entry with one tick left finishes on the next tick: exactly one unit
/// is due, and exactly that entry leaves the queue.
pub proof fn lemma_last_tick_spawns_once(b: Building)
    requires
        b.train_queue@.len() > 0,
        b.train_queue@[0].dur_left.0 == 1,
    ensures
        b.due_spawn() is Some,
        training_after_tick(b.train_queue@) == b.train_queue@.drop_first(),
        training_after_tick(b.train_queue@).len() == b.train_queue@.len() - 1,
        spawns_of(seq![b]).len() == 1,
{
    assert(seq![b].drop_last() =~= Seq::<Building>::empty());
    assert(seq![b].last() == b);
    assert(spawns_of(Seq::<Building>::empty()).len() == 0);
    assert(spawns_of(seq![b]) == spawns_of(Seq::<Building>::empty()).push(b.due_spawn()->Some_0));
}

/// On a map without obstacles, a path is found between any two points over
/// tiles of the map, and the waypoints it adds are as many as the Manhattan
/// distance between the two tiles: one per single step, no diagonals.
pub proof fn lemma_open_map_route_length(
    map: &GridMap,
    start: WorldPoint,
    dest: WorldPoint,
    p: Seq<TilePoint>,
)
    requires
        map.wf(),
        obstacle_free(map),
        start.to_tile_point_spec() matches Some(s) && tile_in_map(map, s),
        dest.to_tile_point_spec() matches Some(d) && tile_in_map(map, d),
    ensures
        route_found(map, start, dest),
        is_shortest_path(map, start.to_tile_point_spec()->Some_0, dest.to_tile_point_spec()->Some_0, p)
            ==> tile_centers(p).len() == manhattan(
            start.to_tile_point_spec()->Some_0,
            dest.to_tile_point_spec()->Some_0,
        ),
{
    let s = start.to_tile_point_spec()->Some_0;
    let d = dest.to_tile_point_spec()->Some_0;
    lemma_open_map_path_is_manhattan(map, s, d, p);
}

/// When only building `j` has a unit due, the buildings `bs[..k]` finish that
/// unit if they include `j`, and nothing otherwise.
proof fn lemma_spawns_of_single(bs: Seq<Building>, j: int, k: int)
    requires
        0 <= j < bs.len(),
        0 <= k <= bs.len(),
        bs[j].due_spawn() is Some,
        forall|i: int| 0 <= i < bs.len() && i != j ==> (#[trigger] bs[i]).due_spawn() is None,
    ensures
        spawns_of(bs.subrange(0, k)) == (if k > j {
            seq![bs[j].due_spawn()->Some_0]
        } else {
            Seq::<Spawn>::empty()
        }),
    decreases k,
{
    let pre = bs.subrange(0, k);
    if k > 0 {
        lemma_spawns_of_single(bs, j, k - 1);
        assert(pre.drop_last() =~= bs.subrange(0, k - 1));
        assert(pre.last() == bs[k - 1]);
        if k - 1 == j {
            assert(Seq::<Spawn>::empty().push(bs[j].due_spawn()->Some_0) =~= seq![bs[j].due_spawn()->Some_0]);
        }
    } else {
        assert(pre =~= Seq::<Building>::empty());
    }
}

/// A tick on which a single building's front entry has one tick left, while
/// UIDs remain, spawns exactly one unit, of that entry's type at that
/// building's spawn point, and drops exactly that entry from its queue.
pub proof fn lemma_last_tick_of_training(before: State, after: State, j: int)
    requires
        before.wf(),
        ticked(before, after),
        0 <= j < before.buildings@.len(),
        before.buildings@[j].train_queue@.len() > 0,
        before.buildings@[j].train_queue@[0].dur_left.0 == 1,
        forall|i: int|
            0 <= i < before.buildings@.len() && i != j ==> (#[trigger] before.buildings@[i]).due_spawn() is None,
        before.next_uid < UID::MAX,
    ensures
        after.buildings@[j].train_queue@ == before.buildings@[j].train_queue@.drop_first(),
        after.buildings@[j].train_queue@.len() == before.buildings@[j].train_queue@.len() - 1,
        after.units@.len() == before.units@.len() + 1,
        after.units@.last().unit_type == before.buildings@[j].train_queue@[0].unit_type,
        after.units@.last().pos == before.buildings@[j].spawn_point_spec(),
        after.units@.last().uid == before.next_uid,
{
    let bs = before.buildings@;
    lemma_spawns_of_single(bs, j, bs.len() as int);
    assert(bs.subrange(0, bs.len() as int) =~= bs);
    assert(after.buildings@[j].trained_from(bs[j]));
    let n = before.units@.len() as int;
    assert(is_new_unit(
        after.units@[n + 0],
        before.next_uid + 0,
        spawns_of(bs)[0].unit_type,
        spawns_of(bs)[0].pos,
        before.unit_abilities_for((before.next_uid + 0) as UID),
    ));
}

} // verus!
