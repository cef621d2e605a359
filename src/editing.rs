//! Brush actions that a player uses to dig and build terrain.

use vstd::prelude::*;

use crate::math::UNIT;
use crate::world::{World, WorldTile};

verus! {

/// What a brush stamps: air to dig, or solid tiles to build.
#[derive(Debug, Clone, Copy, PartialEq, Eq, Structural)]
pub enum WorldActionKind {
    PlaceAir,
    PlaceTile,
}

impl Default for WorldActionKind {
    fn default() -> (r: WorldActionKind)
        ensures
            r == WorldActionKind::PlaceTile,
    {
        WorldActionKind::PlaceTile
    }
}

impl WorldActionKind {
    /// The tile this kind of brush stamps.
    pub open spec fn tile(self) -> WorldTile {
        match self {
            WorldActionKind::PlaceAir => WorldTile::Air,
            WorldActionKind::PlaceTile => WorldTile::Dirt,
        }
    }

    /// Stamps a disc of this kind's tile of radius `power` at `(x, y)`.
    pub fn perform(&self, world: &mut World, x: isize, y: isize, power: u32)
        requires
            old(world).wf(),
        ensures
            final(world).is_filled_from(old(world), x as int, y as int, power as int, self.tile()),
    {
        match self {
            WorldActionKind::PlaceAir => world.fill_radius(x, y, power, WorldTile::Air),
            WorldActionKind::PlaceTile => world.fill_radius(x, y, power, WorldTile::Dirt),
        }
    }

    /// The other kind: brushes alternate between digging and building.
    pub fn next(self) -> (r: WorldActionKind)
        ensures
            r != self,
    {
        match self {
            WorldActionKind::PlaceAir => WorldActionKind::PlaceTile,
            WorldActionKind::PlaceTile => WorldActionKind::PlaceAir,
        }
    }
}

/// A brush: its kind and its radius, in `UNIT` steps per tile.
#[derive(Debug, Clone, Copy, PartialEq, Eq, Structural)]
pub struct WorldAction {
    pub kind: WorldActionKind,
    pub power: u32,
}

impl Default for WorldAction {
    /// A building brush of radius one tile.
    fn default() -> (r: WorldAction)
        ensures
            r.kind == WorldActionKind::PlaceTile,
            r.power == UNIT,
    {
        WorldAction { kind: WorldActionKind::default(), power: UNIT as u32 }
    }
}

/// A brush radius moved by `delta`, never below one tile; a radius past the
/// largest `u32` stops there.
pub open spec fn adjusted_power(power: int, delta: int) -> int {
    let p = power + delta;
    if p < UNIT {
        UNIT as int
    } else if p > u32::MAX {
        u32::MAX as int
    } else {
        p
    }
}

impl WorldAction {
    /// Applies the brush at `(x, y)`.
    pub fn perform(&self, world: &mut World, x: isize, y: isize)
        requires
            old(world).wf(),
        ensures
            final(world).is_filled_from(
                old(world),
                x as int,
                y as int,
                self.power as int,
                self.kind.tile(),
            ),
    {
        self.kind.perform(world, x, y, self.power)
    }

    /// The same brush switched to the other kind.
    pub fn next(self) -> (r: WorldAction)
        ensures
            r.kind != self.kind,
            r.power == self.power,
    {
        WorldAction { kind: self.kind.next(), ..self }
    }

    /// The same brush with its radius moved by `delta` steps.
    pub fn adjust_power(self, delta: i64) -> (r: WorldAction)
        ensures
            r.kind == self.kind,
            r.power == adjusted_power(self.power as int, delta as int),
    {
        let p = self.power as i128 + delta as i128;
        let power: u32 = if p < UNIT as i128 {
            UNIT as u32
        } else if p > u32::MAX as i128 {
            u32::MAX
        } else {
            p as u32
        };
        WorldAction { kind: self.kind, power }
    }
}

} // verus!
