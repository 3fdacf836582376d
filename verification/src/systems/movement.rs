//! Resolves the moves: a living entity goes where it wants to go if that
//! tile can be entered; every other move is dropped.

use vstd::prelude::*;
use crate::components::{FieldOfView, WantsToMove};
use crate::map::{floor_at, TileMap, TileType};
use crate::world::{names_living, Slot, with_position, World};

verus! {

/// Whether the move succeeds: its entity lives, and its destination is a
/// floor tile of the grid.
pub open spec fn succeeds(slots: Seq<Slot>, tiles: Seq<TileType>, m: WantsToMove) -> bool {
    names_living(slots, m.entity) && floor_at(tiles, m.destination)
}

/// The slots after one move.
pub open spec fn moved(slots: Seq<Slot>, tiles: Seq<TileType>, m: WantsToMove) -> Seq<Slot> {
    if succeeds(slots, tiles, m) {
        slots.update(
            m.entity.index as int,
            with_position(slots[m.entity.index as int], m.destination),
        )
    } else {
        slots
    }
}

/// The slots after the first `n` moves, in the order in which they were
/// sent.
pub open spec fn after_moves(slots: Seq<Slot>, tiles: Seq<TileType>, moves: Seq<WantsToMove>, n: int) -> Seq<
    Slot,
>
    decreases n,
{
    if n <= 0 {
        slots
    } else {
        moved(after_moves(slots, tiles, moves, n - 1), tiles, moves[n - 1])
    }
}

/// Whether one of the first `n` moves succeeds for the occupant of slot `i`.
pub open spec fn has_moved(
    slots: Seq<Slot>,
    tiles: Seq<TileType>,
    moves: Seq<WantsToMove>,
    n: int,
    i: int,
) -> bool {
    exists|j: int|
        0 <= j < n && (#[trigger] moves[j]).entity.index == i && succeeds(slots, tiles, moves[j])
}

/// Whether `after` is what `before` becomes when its owner has moved: gone
/// stays gone, and a field of view keeps its radius, sees nothing and is
/// out of date.
pub open spec fn outdated(before: Option<FieldOfView>, after: Option<FieldOfView>) -> bool {
    match (before, after) {
        (Some(b), Some(a)) => a.radius == b.radius && a.is_dirty && a.visible_tiles@.len() == 0,
        (None, None) => true,
        _ => false,
    }
}

/// Carries out one move, or drops it.
pub fn relocate(world: &mut World, map: &TileMap, m: WantsToMove) -> (done: bool)
    requires
        old(world).wf(),
        map.wf(),
    ensures
        final(world).wf(),
        done == succeeds(old(world).slots@, map.tiles@, m),
        final(world).slots@ == moved(old(world).slots@, map.tiles@, m),
        final(world).pending() == old(world).pending(),
        final(world).names@ == old(world).names@,
        final(world).fovs@.len() == old(world).fovs@.len(),
        forall|i: int|
            0 <= i < final(world).fovs@.len() && !(done && i == m.entity.index)
                ==> #[trigger] final(world).fovs@[i] == old(world).fovs@[i],
        done ==> outdated(
            old(world).fovs@[m.entity.index as int],
            final(world).fovs@[m.entity.index as int],
        ),
{
    if !world.is_alive(m.entity) || !map.can_enter_tile(m.destination) {
        return false;
    }
    let index: usize = m.entity.index;
    let slot: Slot = world.slots[index];
    let mut parts = slot.parts;
    parts.position = m.destination;
    world.set_parts(m.entity, parts);
    let dirty: Option<FieldOfView> = match &world.fovs[index] {
        Some(fov) => Some(fov.clone_dirty()),
        None => None,
    };
    world.fovs.set(index, dirty);
    true
}

/// Resolves every pending move, in the order in which they were sent, and
/// leaves none pending. The field of view of every entity that has moved is
/// out of date afterwards; the others are untouched.
pub fn movement(world: &mut World, map: &TileMap)
    requires
        old(world).wf(),
        map.wf(),
    ensures
        final(world).wf(),
        final(world).slots@ == after_moves(
            old(world).slots@,
            map.tiles@,
            old(world).moves@,
            old(world).moves@.len() as int,
        ),
        final(world).moves@.len() == 0,
        final(world).attacks@ == old(world).attacks@,
        final(world).names@ == old(world).names@,
        final(world).fovs@.len() == old(world).fovs@.len(),
        same_living(old(world).slots@, final(world).slots@),
        forall|i: int|
            0 <= i < final(world).fovs@.len() ==> if has_moved(
                old(world).slots@,
                map.tiles@,
                old(world).moves@,
                old(world).moves@.len() as int,
                i,
            ) {
                outdated(old(world).fovs@[i], #[trigger] final(world).fovs@[i])
            } else {
                final(world).fovs@[i] == old(world).fovs@[i]
            },
{
    let ghost moves = world.moves@;
    let ghost slots = world.slots@;
    let mut j: usize = 0;
    while j < world.moves.len()
        invariant
            world.wf(),
            old(world).wf(),
            map.wf(),
            world.moves@ == moves,
            moves == old(world).moves@,
            slots == old(world).slots@,
            world.attacks@ == old(world).attacks@,
            world.names@ == old(world).names@,
            world.fovs@.len() == old(world).fovs@.len(),
            j <= moves.len(),
            world.slots@ == after_moves(slots, map.tiles@, moves, j as int),
            same_living(slots, world.slots@),
            forall|i: int|
                0 <= i < world.fovs@.len() ==> if has_moved(slots, map.tiles@, moves, j as int, i) {
                    outdated(old(world).fovs@[i], #[trigger] world.fovs@[i])
                } else {
                    world.fovs@[i] == old(world).fovs@[i]
                },
        decreases moves.len() - j,
    {
        let m: WantsToMove = world.moves[j];
        let ghost fovs0 = world.fovs@;
        let done = relocate(world, map, m);
        proof {
            assert(succeeds(slots, map.tiles@, m) == done);
            assert forall|i: int| 0 <= i < world.fovs@.len() implies if has_moved(
                slots,
                map.tiles@,
                moves,
                j + 1,
                i,
            ) {
                outdated(old(world).fovs@[i], #[trigger] world.fovs@[i])
            } else {
                world.fovs@[i] == old(world).fovs@[i]
            } by {
                if done && i == m.entity.index {
                    assert(moves[j as int].entity.index == i
                        && succeeds(slots, map.tiles@, moves[j as int]));
                    assert(has_moved(slots, map.tiles@, moves, j + 1, i));
                    assert(outdated(fovs0[i], world.fovs@[i]));
                } else {
                    assert(world.fovs@[i] == fovs0[i]);
                    if has_moved(slots, map.tiles@, moves, j + 1, i) {
                        let k = choose|k: int|
                            0 <= k < j + 1 && (#[trigger] moves[k]).entity.index == i && succeeds(
                                slots,
                                map.tiles@,
                                moves[k],
                            );
                        assert(k < j);
                        assert(has_moved(slots, map.tiles@, moves, j as int, i));
                    } else {
                        if has_moved(slots, map.tiles@, moves, j as int, i) {
                            let k = choose|k: int|
                                0 <= k < j && (#[trigger] moves[k]).entity.index == i && succeeds(
                                    slots,
                                    map.tiles@,
                                    moves[k],
                                );
                            assert(0 <= k < j + 1);
                        }
                    }
                }
            }
        }
        j += 1;
    }
    world.moves = Vec::new();
}

/// Whether the two sequences of slots hold the same identities, living or
/// not.
pub open spec fn same_living(a: Seq<Slot>, b: Seq<Slot>) -> bool {
    a.len() == b.len() && forall|i: int|
        0 <= i < a.len() ==> (#[trigger] a[i]).alive == b[i].alive && a[i].generation
            == b[i].generation
}

/// Moves change positions and nothing else: the same identities live
/// before and after.
pub proof fn lemma_moves_keep_living(slots: Seq<Slot>, tiles: Seq<TileType>, moves: Seq<WantsToMove>, n: int)
    requires
        0 <= n <= moves.len(),
    ensures
        same_living(slots, after_moves(slots, tiles, moves, n)),
    decreases n,
{
    if n > 0 {
        lemma_moves_keep_living(slots, tiles, moves, n - 1);
    }
}

/// An entity for which no move succeeds stays as it is.
pub proof fn lemma_unmoved_stays(
    slots: Seq<Slot>,
    tiles: Seq<TileType>,
    moves: Seq<WantsToMove>,
    n: int,
    i: int,
)
    requires
        0 <= n <= moves.len(),
        0 <= i < slots.len(),
        !has_moved(slots, tiles, moves, n, i),
    ensures
        after_moves(slots, tiles, moves, n)[i] == slots[i],
    decreases n,
{
    if n > 0 {
        let earlier = after_moves(slots, tiles, moves, n - 1);
        lemma_moves_keep_living(slots, tiles, moves, n - 1);
        if has_moved(slots, tiles, moves, n - 1, i) {
            let j = choose|j: int|
                0 <= j < n - 1 && (#[trigger] moves[j]).entity.index == i && succeeds(
                    slots,
                    tiles,
                    moves[j],
                );
            assert(0 <= j < n);
        }
        lemma_unmoved_stays(slots, tiles, moves, n - 1, i);
        let m = moves[n - 1];
        if m.entity.index == i {
            assert(!succeeds(slots, tiles, m));
            assert(!succeeds(earlier, tiles, m));
        }
    }
}

} // verus!
