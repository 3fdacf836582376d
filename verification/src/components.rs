//! The fixed set of components that an entity can carry, and the two kinds
//! of deferred message.

use vstd::prelude::*;
use crate::geometry::Point;

verus! {

/// Marks the amulet that the player is looking for.
#[derive(Clone, Copy, Debug, PartialEq, Eq, Structural)]
pub struct AmuletOfYala;

/// Marks an entity that walks toward the player.
#[derive(Clone, Copy, Debug, PartialEq, Eq, Structural)]
pub struct ChasingPlayer;

/// Marks a hostile entity.
#[derive(Clone, Copy, Debug, PartialEq, Eq, Structural)]
pub struct Enemy;

/// Marks an item.
#[derive(Clone, Copy, Debug, PartialEq, Eq, Structural)]
pub struct Item;

/// Marks the player.
#[derive(Clone, Copy, Debug, PartialEq, Eq, Structural)]
pub struct Player;

/// Marks an entity that walks in a random direction each turn.
#[derive(Clone, Copy, Debug, PartialEq, Eq, Structural)]
pub struct MovingRandomly;

/// Hit points.
#[derive(Clone, Copy, Debug, PartialEq, Eq, Structural)]
pub struct Health {
    pub current: i32,
    pub max: i32,
}

/// A display name.
#[derive(Clone, Debug)]
pub struct Name(pub String);

/// A foreground and a background colour, each as red, green and blue.
#[derive(Clone, Copy, Debug, PartialEq, Eq)]
pub struct ColorPair {
    pub fg: (u8, u8, u8),
    pub bg: (u8, u8, u8),
}

/// How an entity is drawn.
#[derive(Clone, Copy, Debug, PartialEq, Eq)]
pub struct Render {
    pub color: ColorPair,
    pub glyph: u16,
}

/// A stable identity: a slot of the registry and the generation of its
/// occupant. An identity whose occupant has been removed never becomes valid
/// again.
#[derive(Clone, Copy, Debug, PartialEq, Eq, Structural, Hash)]
pub struct Entity {
    pub index: usize,
    pub generation: u32,
}

/// The wish of `attacker` to strike `victim`.
#[derive(Clone, Copy, Debug, PartialEq, Eq, Structural)]
pub struct WantsToAttack {
    pub attacker: Entity,
    pub victim: Entity,
}

/// The wish of `entity` to stand on `destination`.
#[derive(Clone, Copy, Debug, PartialEq, Eq, Structural)]
pub struct WantsToMove {
    pub entity: Entity,
    pub destination: Point,
}

/// The tiles that an entity sees, none of them listed twice, the radius of
/// its sight, and whether the tiles are out of date.
#[derive(Clone, Debug)]
pub struct FieldOfView {
    pub visible_tiles: Vec<Point>,
    pub radius: i32,
    pub is_dirty: bool,
}

impl FieldOfView {
    /// The set of tiles seen.
    pub open spec fn visible(&self) -> Set<Point> {
        self.visible_tiles@.to_set()
    }

    /// A field of view that has not been computed yet.
    pub fn new(radius: i32) -> (fov: FieldOfView)
        ensures
            fov.visible_tiles@.len() == 0,
            fov.radius == radius,
            fov.is_dirty,
    {
        FieldOfView { visible_tiles: Vec::new(), radius, is_dirty: true }
    }

    /// A field of view of the same radius that has to be computed anew.
    pub fn clone_dirty(&self) -> (fov: FieldOfView)
        ensures
            fov.visible_tiles@.len() == 0,
            fov.radius == self.radius,
            fov.is_dirty,
    {
        FieldOfView { visible_tiles: Vec::new(), radius: self.radius, is_dirty: true }
    }

    /// Whether `p` is among the tiles seen.
    pub fn contains(&self, p: Point) -> (b: bool)
        ensures
            b == self.visible().contains(p),
    {
        let mut i: usize = 0;
        while i < self.visible_tiles.len()
            invariant
                i <= self.visible_tiles@.len(),
                forall|j: int| 0 <= j < i ==> self.visible_tiles@[j] != p,
            decreases self.visible_tiles@.len() - i,
        {
            if self.visible_tiles[i] == p {
                assert(self.visible_tiles@.contains(p));
                return true;
            }
            i += 1;
        }
        false
    }
}

} // verus!
