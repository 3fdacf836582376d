//! Resolves the attacks: every attack costs its victim one hit point, and a
//! victim other than the player that is left without hit points is removed.

use vstd::prelude::*;
use crate::components::{Entity, Health, WantsToAttack};
use crate::world::{names_living, never_younger, Slot, with_health, World};

verus! {

/// The hit points after one blow. They stop at the least value that the
/// number type holds.
pub open spec fn wounded(h: Health) -> Health {
    Health {
        current: if h.current > i32::MIN {
            (h.current - 1) as i32
        } else {
            h.current
        },
        max: h.max,
    }
}

/// The slot after its occupant has been removed.
pub open spec fn vacated(slot: Slot) -> Slot {
    Slot { alive: false, generation: (slot.generation + 1) as u32, parts: slot.parts }
}

/// The slots after one blow against `victim`. A victim that does not live
/// or has no hit points is left alone.
pub open spec fn struck(slots: Seq<Slot>, victim: Entity) -> Seq<Slot> {
    if names_living(slots, victim) {
        let slot = slots[victim.index as int];
        match slot.parts.health {
            Some(h) => if wounded(h).current < 1 && slot.parts.player.is_none() {
                slots.update(victim.index as int, vacated(slot))
            } else {
                slots.update(victim.index as int, with_health(slot, wounded(h)))
            },
            None => slots,
        }
    } else {
        slots
    }
}

/// A blow costs one hit point. It removes a victim other than the player
/// that is left with none, and it never removes the player.
pub proof fn lemma_blow(slots: Seq<Slot>, victim: Entity, h: Health)
    requires
        names_living(slots, victim),
        slots[victim.index as int].parts.health == Some(h),
        h.current > i32::MIN,
    ensures
        struck(slots, victim).len() == slots.len(),
        slots[victim.index as int].parts.player.is_some() ==> names_living(
            struck(slots, victim),
            victim,
        ) && struck(slots, victim)[victim.index as int].parts.health == Some(
            Health { current: (h.current - 1) as i32, max: h.max },
        ),
        slots[victim.index as int].parts.player.is_none() ==> (names_living(
            struck(slots, victim),
            victim,
        ) <==> h.current > 1),
        forall|i: int|
            0 <= i < slots.len() && i != victim.index ==> struck(slots, victim)[i] == slots[i],
{
}

/// The slots after the first `n` attacks, in the order in which they were
/// sent.
pub open spec fn after_attacks(slots: Seq<Slot>, attacks: Seq<WantsToAttack>, n: int) -> Seq<Slot>
    decreases n,
{
    if n <= 0 {
        slots
    } else {
        struck(after_attacks(slots, attacks, n - 1), attacks[n - 1].victim)
    }
}

/// Whether names and fields of view are those of `before` for the living,
/// and gone for the others.
pub open spec fn stores_follow(before: &World, after: &World) -> bool {
    &&& after.names@.len() == before.names@.len()
    &&& after.fovs@.len() == before.fovs@.len()
    &&& forall|i: int|
        0 <= i < after.slots@.len() ==> #[trigger] after.names@[i] == (if after.slots@[i].alive {
            before.names@[i]
        } else {
            None
        })
    &&& forall|i: int|
        0 <= i < after.slots@.len() ==> #[trigger] after.fovs@[i] == (if after.slots@[i].alive {
            before.fovs@[i]
        } else {
            None
        })
}

/// Deals one blow against `victim`.
pub fn strike(world: &mut World, victim: Entity)
    requires
        old(world).wf(),
    ensures
        final(world).wf(),
        final(world).slots@ == struck(old(world).slots@, victim),
        final(world).pending() == old(world).pending(),
        final(world).slots@.len() == old(world).slots@.len(),
        stores_follow(old(world), final(world)),
{
    if !world.is_alive(victim) {
        return ;
    }
    let slot: Slot = world.slots[victim.index];
    match slot.parts.health {
        Some(h) => {
            let current: i32 = if h.current > i32::MIN {
                h.current - 1
            } else {
                h.current
            };
            if current < 1 && slot.parts.player.is_none() {
                world.despawn(victim);
            } else {
                world.set_health(victim, Health { current, max: h.max });
            }
        },
        None => {},
    }
}

/// Resolves every pending attack, in the order in which they were sent, and
/// leaves none pending. The pending moves stay.
pub fn combat(world: &mut World)
    requires
        old(world).wf(),
    ensures
        final(world).wf(),
        final(world).slots@ == after_attacks(
            old(world).slots@,
            old(world).attacks@,
            old(world).attacks@.len() as int,
        ),
        final(world).attacks@.len() == 0,
        final(world).moves@ == old(world).moves@,
        final(world).slots@.len() == old(world).slots@.len(),
        stores_follow(old(world), final(world)),
{
    let ghost attacks = world.attacks@;
    let mut j: usize = 0;
    while j < world.attacks.len()
        invariant
            world.wf(),
            old(world).wf(),
            world.attacks@ == attacks,
            attacks == old(world).attacks@,
            world.moves@ == old(world).moves@,
            j <= attacks.len(),
            world.slots@ == after_attacks(old(world).slots@, attacks, j as int),
            world.slots@.len() == old(world).slots@.len(),
            stores_follow(old(world), world),
        decreases attacks.len() - j,
    {
        let victim: Entity = world.attacks[j].victim;
        strike(world, victim);
        j += 1;
    }
    world.attacks = Vec::new();
}

/// Attacks move nobody and raise nobody from the dead: every slot keeps
/// its position, and an entity that lives afterwards lived before, with the
/// same identity.
pub proof fn lemma_attacks_keep_places(slots: Seq<Slot>, attacks: Seq<WantsToAttack>, n: int)
    requires
        0 <= n <= attacks.len(),
    ensures
        after_attacks(slots, attacks, n).len() == slots.len(),
        forall|i: int|
            0 <= i < slots.len() ==> (#[trigger] after_attacks(
                slots,
                attacks,
                n,
            )[i]).parts.position == slots[i].parts.position && (after_attacks(
                slots,
                attacks,
                n,
            )[i].alive ==> slots[i].alive && after_attacks(slots, attacks, n)[i].generation
                == slots[i].generation),
    decreases n,
{
    if n > 0 {
        lemma_attacks_keep_places(slots, attacks, n - 1);
    }
}

/// Whether the generation of every living entity can still be raised.
pub open spec fn generations_open(slots: Seq<Slot>) -> bool {
    forall|i: int| 0 <= i < slots.len() && (#[trigger] slots[i]).alive
        ==> slots[i].generation < u32::MAX
}

/// Attacks retire identities and never bring one back: no slot goes back
/// to an earlier generation.
pub proof fn lemma_attacks_never_younger(slots: Seq<Slot>, attacks: Seq<WantsToAttack>, n: int)
    requires
        0 <= n <= attacks.len(),
        generations_open(slots),
    ensures
        never_younger(slots, after_attacks(slots, attacks, n)),
        generations_open(after_attacks(slots, attacks, n)),
    decreases n,
{
    if n > 0 {
        lemma_attacks_never_younger(slots, attacks, n - 1);
        lemma_attacks_keep_places(slots, attacks, n - 1);
        let earlier = after_attacks(slots, attacks, n - 1);
        let after = after_attacks(slots, attacks, n);
        assert forall|i: int| 0 <= i < slots.len() implies (#[trigger] slots[i]).generation
            <= after[i].generation by {
            assert(slots[i].generation <= earlier[i].generation);
        }
    }
}

} // verus!
