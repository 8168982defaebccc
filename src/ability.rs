//! Abilities: actions bound to a caster, cast either at once (non-targeted) or
//! at a point of the world (point-targeted).

use vstd::prelude::*;

use crate::dimensions::{tile_of, TilePoint, WorldPoint, TILE_WIDTH};
use crate::game::{building_ordered, training_queued, BuildingType, State, UnitType, UID};

verus! {

/// The key that activates an ability, named by the character on it.
#[derive(Clone, Copy, Debug, PartialEq, Eq, Structural)]
pub struct Keycode(pub char);

/// Why a cast did not take effect.
#[derive(Clone, Copy, Debug, PartialEq, Eq, Structural)]
pub enum CastError {
    /// No unit or building with the caster's UID exists.
    CasterNotFound,
    /// The caster's training queue is already full.
    QueueFull,
    /// The target point has no tile to build on.
    InvalidTarget,
    /// The building would reach beyond world space.
    OutOfWorld,
    /// Every UID has been issued.
    UidsExhausted,
}

/// Build a building at the target location; cast by worker units.
#[derive(Clone, Copy, Debug)]
pub struct AbilityBuild {
    pub caster: UID,
    pub building_type: BuildingType,
}

/// Add a unit to the caster's training queue; cast by production buildings.
#[derive(Clone, Copy, Debug)]
pub struct AbilityTrain {
    pub caster: UID,
    pub unit_type: UnitType,
}

/// Every ability, by the shape of its cast.
#[derive(Clone, Copy, Debug)]
pub enum Ability {
    NonTargeted(AbilityTrain),
    PointTargeted(AbilityBuild),
}

/// The top-left tile of a building of type `bt` placed so that its footprint
/// is centred on `mouse`; `None` when that corner has a negative coordinate.
pub open spec fn build_site(bt: BuildingType, mouse: WorldPoint) -> Option<TilePoint> {
    let x = mouse.x.0 - (bt.width / 2) * (TILE_WIDTH as int);
    let y = mouse.y.0 - (bt.height / 2) * (TILE_WIDTH as int);
    if x < 0 || y < 0 {
        None
    } else {
        Some(TilePoint { x: tile_of(x) as u32, y: tile_of(y) as u32 })
    }
}

impl AbilityBuild {
    pub fn new(caster: UID, building_type: BuildingType) -> (r: Ability)
        ensures
            r == Ability::PointTargeted(AbilityBuild { caster, building_type }),
    {
        Ability::PointTargeted(AbilityBuild { caster, building_type })
    }

    /// Where a building goes when this ability is cast at `mouse`. The half
    /// footprint is taken in whole tiles, so odd and even sizes both centre.
    pub fn where_to_build(&self, mouse: WorldPoint) -> (r: Option<TilePoint>)
        ensures
            r == build_site(self.building_type, mouse),
    {
        proof {
            assert((self.building_type.width / 2) * 64 <= 0x2000000000) by (nonlinear_arith)
                requires
                    self.building_type.width / 2 <= 0x80000000,
            ;
            assert((self.building_type.height / 2) * 64 <= 0x2000000000) by (nonlinear_arith)
                requires
                    self.building_type.height / 2 <= 0x80000000,
            ;
        }
        let x: i64 = mouse.x.0 as i64 - (self.building_type.width / 2) as i64 * TILE_WIDTH as i64;
        let y: i64 = mouse.y.0 as i64 - (self.building_type.height / 2) as i64 * TILE_WIDTH as i64;
        if x < 0 || y < 0 {
            None
        } else {
            Some(TilePoint { x: (x / TILE_WIDTH as i64) as u32, y: (y / TILE_WIDTH as i64) as u32 })
        }
    }
}

impl AbilityTrain {
    pub fn new(caster: UID, unit_type: UnitType) -> (r: Ability)
        ensures
            r == Ability::NonTargeted(AbilityTrain { caster, unit_type }),
    {
        Ability::NonTargeted(AbilityTrain { caster, unit_type })
    }
}

/// What every ability offers: the key that activates it, its name, and the
/// unit or building that casts it.
pub trait AbilityCommon {
    spec fn spec_keycode(&self) -> Keycode;

    spec fn spec_name(&self) -> Seq<char>;

    spec fn spec_caster(&self) -> UID;

    fn keycode(&self) -> (r: Keycode)
        ensures
            r == self.spec_keycode(),
    ;

    fn name(&self) -> (r: &'static str)
        ensures
            r@ == self.spec_name(),
    ;

    fn caster(&self) -> (r: UID)
        ensures
            r == self.spec_caster(),
    ;
}

/// An ability that takes effect as soon as it is activated.
pub trait NonTargetedAbility: AbilityCommon {
    /// `after` is `before` once this ability was cast, with outcome `r`.
    spec fn cast_effect(&self, before: State, after: State, r: Result<(), CastError>) -> bool;

    fn cast(&self, state: &mut State) -> (r: Result<(), CastError>)
        requires
            old(state).wf(),
        ensures
            final(state).wf(),
            self.cast_effect(*old(state), *final(state), r),
    ;
}

/// An ability that takes effect at a point of the world chosen after it is
/// activated.
pub trait PointTargetedAbility: AbilityCommon {
    /// `after` is `before` once this ability was cast at `target`, with outcome `r`.
    spec fn cast_effect(&self, before: State, after: State, target: WorldPoint, r: Result<UID, CastError>) -> bool;

    fn cast(&self, state: &mut State, target: WorldPoint) -> (r: Result<UID, CastError>)
        requires
            old(state).wf(),
        ensures
            final(state).wf(),
            self.cast_effect(*old(state), *final(state), target, r),
    ;
}

impl AbilityCommon for AbilityBuild {
    open spec fn spec_keycode(&self) -> Keycode {
        Keycode('B')
    }

    open spec fn spec_name(&self) -> Seq<char> {
        "Build"@
    }

    open spec fn spec_caster(&self) -> UID {
        self.caster
    }

    fn keycode(&self) -> (r: Keycode) {
        Keycode('B')
    }

    fn name(&self) -> (r: &'static str) {
        "Build"
    }

    fn caster(&self) -> (r: UID) {
        self.caster
    }
}

impl PointTargetedAbility for AbilityBuild {
    /// The caster places a building of this ability's type, centred on the target.
    open spec fn cast_effect(&self, before: State, after: State, target: WorldPoint, r: Result<UID, CastError>) -> bool {
        building_ordered(before, after, self.caster, self.building_type, target, r)
    }

    fn cast(&self, state: &mut State, target: WorldPoint) -> (r: Result<UID, CastError>) {
        state.build(self.caster, self.building_type, target)
    }
}

impl AbilityCommon for AbilityTrain {
    open spec fn spec_keycode(&self) -> Keycode {
        Keycode('T')
    }

    open spec fn spec_name(&self) -> Seq<char> {
        "Train unit"@
    }

    open spec fn spec_caster(&self) -> UID {
        self.caster
    }

    fn keycode(&self) -> (r: Keycode) {
        Keycode('T')
    }

    fn name(&self) -> (r: &'static str) {
        "Train unit"
    }

    fn caster(&self) -> (r: UID) {
        self.caster
    }
}

impl NonTargetedAbility for AbilityTrain {
    /// The caster building queues a unit of this ability's type, unless its
    /// queue is full.
    open spec fn cast_effect(&self, before: State, after: State, r: Result<(), CastError>) -> bool {
        training_queued(before, after, self.caster, self.unit_type, r)
    }

    fn cast(&self, state: &mut State) -> (r: Result<(), CastError>) {
        state.train(self.caster, self.unit_type)
    }
}

impl AbilityCommon for Ability {
    open spec fn spec_keycode(&self) -> Keycode {
        match self {
            Ability::NonTargeted(a) => a.spec_keycode(),
            Ability::PointTargeted(a) => a.spec_keycode(),
        }
    }

    open spec fn spec_name(&self) -> Seq<char> {
        match self {
            Ability::NonTargeted(a) => a.spec_name(),
            Ability::PointTargeted(a) => a.spec_name(),
        }
    }

    open spec fn spec_caster(&self) -> UID {
        match self {
            Ability::NonTargeted(a) => a.spec_caster(),
            Ability::PointTargeted(a) => a.spec_caster(),
        }
    }

    fn keycode(&self) -> (r: Keycode) {
        match self {
            Ability::NonTargeted(a) => a.keycode(),
            Ability::PointTargeted(a) => a.keycode(),
        }
    }

    fn name(&self) -> (r: &'static str) {
        match self {
            Ability::NonTargeted(a) => a.name(),
            Ability::PointTargeted(a) => a.name(),
        }
    }

    fn caster(&self) -> (r: UID) {
        match self {
            Ability::NonTargeted(a) => a.caster(),
            Ability::PointTargeted(a) => a.caster(),
        }
    }
}

} // verus!
