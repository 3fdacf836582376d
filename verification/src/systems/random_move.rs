//! The creatures that wander: each picks one of the four directions by
//! chance and decides about the tile one step that way.

use vstd::prelude::*;
use crate::components::Entity;
use crate::geometry::Point;
use crate::random::draw_range;
use crate::systems::intent::{decide, intent_of, occupant, Pending, send, sent};
use crate::systems::player_input::stepped;
use crate::world::{Slot, World};

verus! {

/// The step that belongs to a draw: west, east, north, and south for
/// anything else.
pub open spec fn direction_delta(draw: int) -> Point {
    if draw == 0 {
        Point { x: -1i32, y: 0 }
    } else if draw == 1 {
        Point { x: 1, y: 0 }
    } else if draw == 2 {
        Point { x: 0, y: -1i32 }
    } else {
        Point { x: 0, y: 1 }
    }
}

/// Whether the occupant of the slot wanders.
pub open spec fn wanders(slot: Slot) -> bool {
    slot.alive && slot.parts.moving_randomly.is_some()
}

/// The pending messages after the wanderers in the slots below `upto` have
/// decided, in slot order, the `k`-th of them with the `k`-th draw.
pub open spec fn wandered(slots: Seq<Slot>, pending: Pending, upto: int, draws: Seq<i32>) -> Pending
    decreases upto,
{
    if upto <= 0 {
        pending
    } else if wanders(slots[upto - 1]) && draws.len() > 0 {
        sent(
            wandered(slots, pending, upto - 1, draws.drop_last()),
            intent_of(
                slots,
                occupant(slots, upto - 1),
                stepped(slots[upto - 1].parts.position, direction_delta(draws.last() as int)),
            ),
        )
    } else {
        wandered(slots, pending, upto - 1, draws)
    }
}

/// The number of wanderers in the slots below `upto`.
pub open spec fn wanderers(slots: Seq<Slot>, upto: int) -> nat
    decreases upto,
{
    if upto <= 0 {
        0
    } else if wanders(slots[upto - 1]) {
        wanderers(slots, upto - 1) + 1
    } else {
        wanderers(slots, upto - 1)
    }
}

/// The step that belongs to a draw.
pub fn delta_for(draw: i32) -> (delta: Point)
    ensures
        delta == direction_delta(draw as int),
{
    if draw == 0 {
        Point { x: -1, y: 0 }
    } else if draw == 1 {
        Point { x: 1, y: 0 }
    } else if draw == 2 {
        Point { x: 0, y: -1 }
    } else {
        Point { x: 0, y: 1 }
    }
}

/// Lets the wanderer `mover` decide with the draw `draw`. Nothing happens
/// where `mover` is no living wanderer.
pub fn wander(world: &mut World, mover: Entity, draw: i32)
    requires
        old(world).wf(),
    ensures
        final(world).same_entities(old(world)),
        final(world).pending() == if old(world).contains(mover) && wanders(
            old(world).slots@[mover.index as int],
        ) {
            sent(
                old(world).pending(),
                intent_of(
                    old(world).slots@,
                    mover,
                    stepped(
                        old(world).slots@[mover.index as int].parts.position,
                        direction_delta(draw as int),
                    ),
                ),
            )
        } else {
            old(world).pending()
        },
{
    if !world.is_alive(mover) || world.slots[mover.index].parts.moving_randomly.is_none() {
        return ;
    }
    let position: Point = world.slots[mover.index].parts.position;
    let delta: Point = delta_for(draw);
    let destination: Point = Point { x: position.x + delta.x, y: position.y + delta.y };
    let intent = decide(world, mover, destination);
    send(world, intent);
}

/// Lets every wanderer decide, in slot order, each with a draw of its own.
/// The entities stay as they are; the messages are those that some
/// sequence of draws, one per wanderer and each below four, leads to.
pub fn random_move(world: &mut World, rng: &mut bracket_lib::prelude::RandomNumberGenerator)
    requires
        old(world).wf(),
    ensures
        final(world).wf(),
        final(world).same_entities(old(world)),
        exists|draws: Seq<i32>|
            draws.len() == wanderers(old(world).slots@, old(world).slots@.len() as int) && (forall|
                k: int,
            |
                0 <= k < draws.len() ==> 0 <= #[trigger] draws[k] < 4) && final(world).pending()
                == wandered(
                old(world).slots@,
                old(world).pending(),
                old(world).slots@.len() as int,
                draws,
            ),
{
    let ghost slots = world.slots@;
    let ghost before = world.pending();
    let ghost mut draws: Seq<i32> = Seq::empty();
    let mut i: usize = 0;
    while i < world.slots.len()
        invariant
            world.wf(),
            world.same_entities(old(world)),
            slots == old(world).slots@,
            before == old(world).pending(),
            i <= slots.len(),
            draws.len() == wanderers(slots, i as int),
            forall|k: int| 0 <= k < draws.len() ==> 0 <= #[trigger] draws[k] < 4,
            world.pending() == wandered(slots, before, i as int, draws),
        decreases slots.len() - i,
    {
        let slot: Slot = world.slots[i];
        if slot.alive && slot.parts.moving_randomly.is_some() {
            let draw: i32 = draw_range(rng, 0, 4);
            let mover: Entity = Entity { index: i, generation: slot.generation };
            wander(world, mover, draw);
            proof {
                let longer = draws.push(draw);
                assert(longer.drop_last() =~= draws);
                assert(longer.last() == draw);
                draws = longer;
            }
        }
        i += 1;
    }
}

} // verus!
