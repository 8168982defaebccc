//! The commands the input layer issues: move orders, box selection, and
//! finding the ability that a key activates.

use vstd::prelude::*;

use crate::ability::{Ability, AbilityCommon, Keycode};
use crate::dimensions::{tile_edge, TilePoint, WorldPoint, WorldRect, TILE_WIDTH};
use crate::game::{route_found, route_path, tile_centers, Building, State, Unit};
use crate::map::GridMap;
use crate::movement::box_around;
use crate::pathfind::is_shortest_path;

verus! {

/// The first ability of `abs` that `key` activates.
pub open spec fn first_with_key(abs: Seq<Ability>, key: Keycode) -> Option<Ability>
    decreases abs.len(),
{
    if abs.len() == 0 {
        None
    } else if abs[0].spec_keycode() == key {
        Some(abs[0])
    } else {
        first_with_key(abs.drop_first(), key)
    }
}

/// The ability that `key` activates on the first selected unit of `us` that has one.
pub open spec fn first_unit_ability(us: Seq<Unit>, key: Keycode) -> Option<Ability>
    decreases us.len(),
{
    if us.len() == 0 {
        None
    } else if us[0].selected && first_with_key(us[0].abilities@, key) is Some {
        first_with_key(us[0].abilities@, key)
    } else {
        first_unit_ability(us.drop_first(), key)
    }
}

/// The ability that `key` activates on the first selected building of `bs` that has one.
pub open spec fn first_building_ability(bs: Seq<Building>, key: Keycode) -> Option<Ability>
    decreases bs.len(),
{
    if bs.len() == 0 {
        None
    } else if bs[0].selected && first_with_key(bs[0].abilities@, key) is Some {
        first_with_key(bs[0].abilities@, key)
    } else {
        first_building_ability(bs.drop_first(), key)
    }
}

/// The first ability of `abs` that `key` activates.
fn find_with_key(abs: &Vec<Ability>, key: Keycode) -> (r: Option<Ability>)
    ensures
        r == first_with_key(abs@, key),
{
    let mut i: usize = 0;
    assert(abs@.subrange(0, abs@.len() as int) =~= abs@);
    while i < abs.len()
        invariant
            i <= abs@.len(),
            first_with_key(abs@, key) == first_with_key(abs@.subrange(i as int, abs@.len() as int), key),
        decreases abs@.len() - i,
    {
        let ghost rest = abs@.subrange(i as int, abs@.len() as int);
        assert(rest.drop_first() =~= abs@.subrange(i + 1, abs@.len() as int));
        assert(rest[0] == abs@[i as int]);
        if abs[i].keycode() == key {
            return Some(abs[i]);
        }
        i = i + 1;
    }
    None
}

/// The footprint of building `b` as a closed world rectangle.
pub open spec fn footprint(b: Building) -> WorldRect {
    WorldRect {
        left: tile_edge(b.top_left_pos.x as int) as i64,
        top: tile_edge(b.top_left_pos.y as int) as i64,
        right: (tile_edge(b.top_left_pos.x + b.building_type.width) - 1) as i64,
        bottom: (tile_edge(b.top_left_pos.y + b.building_type.height) - 1) as i64,
    }
}

impl Building {
    /// The tiles the building stands on, as a closed world rectangle.
    pub fn bounds(&self) -> (r: WorldRect)
        ensures
            r == footprint(*self),
    {
        let x = self.top_left_pos.x as i64;
        let y = self.top_left_pos.y as i64;
        let w = self.building_type.width as i64;
        let h = self.building_type.height as i64;
        WorldRect {
            left: x * TILE_WIDTH as i64,
            top: y * TILE_WIDTH as i64,
            right: (x + w) * TILE_WIDTH as i64 - 1,
            bottom: (y + h) * TILE_WIDTH as i64 - 1,
        }
    }
}

impl Unit {
    /// The route a move order keeps: all of it when queueing, else none.
    pub open spec fn order_base(self, queue: bool) -> Seq<WorldPoint> {
        if queue {
            self.waypoints@
        } else {
            Seq::empty()
        }
    }

    /// Where the path of a move order starts: the end of the kept route, or
    /// the unit's position.
    pub open spec fn order_start(self, queue: bool) -> WorldPoint {
        if self.order_base(queue).len() == 0 {
            self.pos
        } else {
            self.order_base(queue).last()
        }
    }

    /// `self` is `old` after a move order to `dest`: the route is cleared first
    /// unless `queue` is set, then a path from the route's end is appended, or
    /// `dest` itself when no path exists.
    pub open spec fn ordered_from(self, old: Unit, map: &GridMap, dest: WorldPoint, queue: bool) -> bool {
        let w0 = old.order_base(queue);
        let found = route_found(map, old.order_start(queue), dest);
        &&& found ==> is_shortest_path(
            map,
            old.order_start(queue).to_tile_point_spec()->Some_0,
            dest.to_tile_point_spec()->Some_0,
            route_path(map, old.order_start(queue), dest),
        )
        &&& found ==> self.waypoints@ == w0 + tile_centers(route_path(map, old.order_start(queue), dest))
        &&& !found ==> self.waypoints@ == w0.push(dest)
        &&& self.pos == old.pos
        &&& self.uid == old.uid
        &&& self.unit_type == old.unit_type
        &&& self.selected == old.selected
        &&& self.abilities@ == old.abilities@
    }

    /// Orders the unit to `dest`, keeping its current route when `queue` is set.
    /// Returns whether a path was found; without one the unit is sent straight
    /// at `dest`.
    pub fn order_move(&mut self, map: &GridMap, dest: WorldPoint, queue: bool) -> (r: bool)
        requires
            map.wf(),
        ensures
            final(self).ordered_from(*old(self), map, dest, queue),
    {
        if !queue {
            self.waypoints.clear();
        }
        assert(self.waypoints@ == old(self).order_base(queue));
        assert(self.path_start() == old(self).order_start(queue));
        let found = self.pathfind(map, dest);
        if !found {
            self.waypoints.push_back(dest);
        }
        found
    }
}

impl State {
    /// Orders every selected unit to `dest`; see `Unit::order_move`.
    pub fn order_move(&mut self, dest: WorldPoint, queue: bool)
        requires
            old(self).wf(),
        ensures
            final(self).wf(),
            final(self).same_world(old(self)),
            final(self).next_uid == old(self).next_uid,
            final(self).buildings@ == old(self).buildings@,
            final(self).units@.len() == old(self).units@.len(),
            forall|i: int|
                0 <= i < old(self).units@.len() ==> if old(self).units@[i].selected {
                    (#[trigger] final(self).units@[i]).ordered_from(old(self).units@[i], &old(self).map, dest, queue)
                } else {
                    final(self).units@[i] == old(self).units@[i]
                },
    {
        let mut i: usize = 0;
        while i < self.units.len()
            invariant
                self.map == old(self).map,
                self.map.wf(),
                self.unit_types@ == old(self).unit_types@,
                self.building_types@ == old(self).building_types@,
                self.ticks_per_sec == old(self).ticks_per_sec,
                self.next_uid == old(self).next_uid,
                self.buildings@ == old(self).buildings@,
                self.units@.len() == old(self).units@.len(),
                i <= self.units@.len(),
                forall|j: int|
                    0 <= j < i ==> if old(self).units@[j].selected {
                        (#[trigger] self.units@[j]).ordered_from(old(self).units@[j], &old(self).map, dest, queue)
                    } else {
                        self.units@[j] == old(self).units@[j]
                    },
                forall|j: int| i <= j < self.units@.len() ==> #[trigger] self.units@[j] == old(self).units@[j],
            decreases self.units@.len() - i,
        {
            if self.units[i].selected {
                let _ = self.units[i].order_move(&self.map, dest, queue);
            }
            i = i + 1;
        }
        assert forall|j: int| 0 <= j < self.units@.len() implies (#[trigger] self.units@[j]).uid == old(
            self,
        ).units@[j].uid by {
            if old(self).units@[j].selected {
                assert(self.units@[j].ordered_from(old(self).units@[j], &old(self).map, dest, queue));
            }
        }
    }

    /// Selects exactly the units and buildings that meet `area`.
    pub fn select_in_rect(&mut self, area: WorldRect)
        requires
            old(self).wf(),
        ensures
            final(self).wf(),
            final(self).same_world(old(self)),
            final(self).next_uid == old(self).next_uid,
            final(self).units@.len() == old(self).units@.len(),
            final(self).buildings@.len() == old(self).buildings@.len(),
            forall|i: int|
                0 <= i < old(self).units@.len() ==> {
                    let u = old(self).units@[i];
                    let v = #[trigger] final(self).units@[i];
                    &&& v.selected == box_around(u.pos, u.unit_type.radius as int).meets(area)
                    &&& v.uid == u.uid && v.pos == u.pos && v.unit_type == u.unit_type
                    &&& v.waypoints@ == u.waypoints@ && v.abilities@ == u.abilities@
                },
            forall|i: int|
                0 <= i < old(self).buildings@.len() ==> {
                    let b = old(self).buildings@[i];
                    let c = #[trigger] final(self).buildings@[i];
                    &&& c.selected == footprint(b).meets(area)
                    &&& c.uid == b.uid && c.top_left_pos == b.top_left_pos && c.building_type == b.building_type
                    &&& c.train_queue@ == b.train_queue@ && c.train_queue_max_len == b.train_queue_max_len
                    &&& c.abilities@ == b.abilities@
                },
    {
        let mut i: usize = 0;
        while i < self.units.len()
            invariant
                self.map == old(self).map,
                self.unit_types@ == old(self).unit_types@,
                self.building_types@ == old(self).building_types@,
                self.ticks_per_sec == old(self).ticks_per_sec,
                self.next_uid == old(self).next_uid,
                self.buildings@ == old(self).buildings@,
                self.units@.len() == old(self).units@.len(),
                i <= self.units@.len(),
                forall|j: int|
                    0 <= j < i ==> {
                        let u = old(self).units@[j];
                        let v = #[trigger] self.units@[j];
                        &&& v.selected == box_around(u.pos, u.unit_type.radius as int).meets(area)
                        &&& v.uid == u.uid && v.pos == u.pos && v.unit_type == u.unit_type
                        &&& v.waypoints@ == u.waypoints@ && v.abilities@ == u.abilities@
                    },
                forall|j: int| i <= j < self.units@.len() ==> #[trigger] self.units@[j] == old(self).units@[j],
            decreases self.units@.len() - i,
        {
            let b = self.units[i].bounding_box();
            self.units[i].selected = b.intersects(&area);
            i = i + 1;
        }
        let ghost mid = self.units@;
        let mut i: usize = 0;
        while i < self.buildings.len()
            invariant
                self.map == old(self).map,
                self.unit_types@ == old(self).unit_types@,
                self.building_types@ == old(self).building_types@,
                self.ticks_per_sec == old(self).ticks_per_sec,
                self.next_uid == old(self).next_uid,
                self.units@ == mid,
                self.buildings@.len() == old(self).buildings@.len(),
                i <= self.buildings@.len(),
                forall|j: int|
                    0 <= j < i ==> {
                        let b = old(self).buildings@[j];
                        let c = #[trigger] self.buildings@[j];
                        &&& c.selected == footprint(b).meets(area)
                        &&& c.uid == b.uid && c.top_left_pos == b.top_left_pos && c.building_type
                            == b.building_type
                        &&& c.train_queue@ == b.train_queue@ && c.train_queue_max_len == b.train_queue_max_len
                        &&& c.abilities@ == b.abilities@
                    },
                forall|j: int|
                    i <= j < self.buildings@.len() ==> #[trigger] self.buildings@[j] == old(self).buildings@[j],
            decreases self.buildings@.len() - i,
        {
            let r = self.buildings[i].bounds();
            self.buildings[i].selected = r.intersects(&area);
            i = i + 1;
        }
        assert forall|j: int| 0 <= j < self.buildings@.len() implies (#[trigger] self.buildings@[j]).wf() by {
            assert(old(self).buildings@[j].wf());
            assert(self.buildings@[j].train_queue@ == old(self).buildings@[j].train_queue@);
        }
    }

    /// The ability that `key` activates: on the first selected unit that has
    /// one, else on the first selected building that has one.
    pub fn ability_for_key(&self, key: Keycode) -> (r: Option<Ability>)
        ensures
            r == (match first_unit_ability(self.units@, key) {
                Some(a) => Some(a),
                None => first_building_ability(self.buildings@, key),
            }),
    {
        let mut i: usize = 0;
        assert(self.units@.subrange(0, self.units@.len() as int) =~= self.units@);
        while i < self.units.len()
            invariant
                i <= self.units@.len(),
                first_unit_ability(self.units@, key) == first_unit_ability(
                    self.units@.subrange(i as int, self.units@.len() as int),
                    key,
                ),
            decreases self.units@.len() - i,
        {
            let ghost rest = self.units@.subrange(i as int, self.units@.len() as int);
            assert(rest.drop_first() =~= self.units@.subrange(i + 1, self.units@.len() as int));
            assert(rest[0] == self.units@[i as int]);
            if self.units[i].selected {
                let found = find_with_key(&self.units[i].abilities, key);
                if found.is_some() {
                    return found;
                }
            }
            i = i + 1;
        }
        assert(self.units@.subrange(i as int, self.units@.len() as int) =~= Seq::<Unit>::empty());
        let mut j: usize = 0;
        assert(self.buildings@.subrange(0, self.buildings@.len() as int) =~= self.buildings@);
        while j < self.buildings.len()
            invariant
                j <= self.buildings@.len(),
                first_unit_ability(self.units@, key) is None,
                first_building_ability(self.buildings@, key) == first_building_ability(
                    self.buildings@.subrange(j as int, self.buildings@.len() as int),
                    key,
                ),
            decreases self.buildings@.len() - j,
        {
            let ghost rest = self.buildings@.subrange(j as int, self.buildings@.len() as int);
            assert(rest.drop_first() =~= self.buildings@.subrange(j + 1, self.buildings@.len() as int));
            assert(rest[0] == self.buildings@[j as int]);
            if self.buildings[j].selected {
                let found = find_with_key(&self.buildings[j].abilities, key);
                if found.is_some() {
                    return found;
                }
            }
            j = j + 1;
        }
        assert(self.buildings@.subrange(j as int, self.buildings@.len() as int) =~= Seq::<Building>::empty());
        None
    }
}

} // verus!
