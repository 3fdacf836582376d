//! What a creature that wants to step onto a tile ends up asking for.

use vstd::prelude::*;
use crate::components::{Entity, WantsToAttack, WantsToMove};
use crate::geometry::Point;
use crate::world::{first_match, Query, Slot, World};

verus! {

/// The outcome of a decision.
#[derive(Clone, Copy, Debug)]
pub enum Intent {
    Move(WantsToMove),
    Attack(WantsToAttack),
    Nothing,
}

/// The messages sent and not yet resolved.
pub struct Pending {
    pub moves: Seq<WantsToMove>,
    pub attacks: Seq<WantsToAttack>,
}

/// The identity of the occupant of slot `i`.
pub open spec fn occupant(slots: Seq<Slot>, i: int) -> Entity {
    Entity { index: i as usize, generation: slots[i].generation }
}

/// The decision of `mover` about `destination`: a move where no creature
/// with hit points stands there, an attack where the player does, and
/// nothing where only others do.
pub open spec fn intent_of(slots: Seq<Slot>, mover: Entity, destination: Point) -> Intent {
    match first_match(slots, Query::LivingAt(destination), slots.len() as int) {
        None => Intent::Move(WantsToMove { entity: mover, destination }),
        Some(_) => match first_match(
            slots,
            Query::LivingPlayerAt(destination),
            slots.len() as int,
        ) {
            Some(v) => Intent::Attack(WantsToAttack { attacker: mover, victim: occupant(slots, v) }),
            None => Intent::Nothing,
        },
    }
}

/// The pending messages with the message of `intent`, if it has one, added
/// behind the others of its kind.
pub open spec fn sent(pending: Pending, intent: Intent) -> Pending {
    match intent {
        Intent::Move(m) => Pending { moves: pending.moves.push(m), attacks: pending.attacks },
        Intent::Attack(a) => Pending { moves: pending.moves, attacks: pending.attacks.push(a) },
        Intent::Nothing => pending,
    }
}

impl World {
    /// The messages sent and not yet resolved.
    pub open spec fn pending(&self) -> Pending {
        Pending { moves: self.moves@, attacks: self.attacks@ }
    }

    /// Whether the two registries hold the same entities with the same
    /// components.
    pub open spec fn same_entities(&self, other: &World) -> bool {
        self.slots@ == other.slots@ && self.names@ == other.names@ && self.fovs@ == other.fovs@
    }
}

/// Decides what `mover` does about `destination`.
pub fn decide(world: &World, mover: Entity, destination: Point) -> (intent: Intent)
    ensures
        intent == intent_of(world.slots@, mover, destination),
{
    match world.find(Query::LivingAt(destination)) {
        None => Intent::Move(WantsToMove { entity: mover, destination }),
        Some(_) => match world.find(Query::LivingPlayerAt(destination)) {
            Some(victim) => Intent::Attack(WantsToAttack { attacker: mover, victim }),
            None => Intent::Nothing,
        },
    }
}

/// Sends the message of `intent`, if it has one.
pub fn send(world: &mut World, intent: Intent)
    ensures
        final(world).same_entities(old(world)),
        final(world).pending() == sent(old(world).pending(), intent),
{
    match intent {
        Intent::Move(m) => {
            world.moves.push(m);
        },
        Intent::Attack(a) => {
            world.attacks.push(a);
        },
        Intent::Nothing => {},
    }
}

} // verus!
