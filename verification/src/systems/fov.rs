//! Brings the fields of view that are out of date up to date, and records
//! what they see in the exploration memory of the map.

use vstd::prelude::*;
use crate::components::FieldOfView;
use crate::fov::{field_of_view_set, sees};
use crate::geometry::{in_grid, NUM_TILES, Point};
use crate::map::{map_idx, spec_index_to_point, spec_map_idx, TileMap, TileType};
use crate::world::{Slot, World};

verus! {

/// Whether the field of view in slot `i` is to be computed anew: its owner
/// lives, and it is out of date.
pub open spec fn refreshes(slots: Seq<Slot>, fovs: Seq<Option<FieldOfView>>, i: int) -> bool {
    0 <= i < slots.len() && slots[i].alive && match fovs[i] {
        Some(f) => f.is_dirty,
        None => false,
    }
}

/// Whether `after` is `before` brought up to date for an eye at `eye`.
pub open spec fn refreshed(
    tiles: Seq<TileType>,
    eye: Point,
    before: Option<FieldOfView>,
    after: Option<FieldOfView>,
) -> bool {
    match (before, after) {
        (Some(b), Some(a)) => a.radius == b.radius && !a.is_dirty
            && a.visible_tiles@.no_duplicates() && forall|p: Point|
            a.visible_tiles@.contains(p) <==> sees(tiles, eye, b.radius as int, p),
        _ => false,
    }
}

/// Whether one of the fields of view below slot `upto` that are computed
/// anew sees the tile with index `t`.
pub open spec fn newly_seen(
    slots: Seq<Slot>,
    fovs: Seq<Option<FieldOfView>>,
    tiles: Seq<TileType>,
    upto: int,
    t: int,
) -> bool {
    exists|i: int|
        0 <= i < upto && #[trigger] refreshes(slots, fovs, i) && sees(
            tiles,
            slots[i].parts.position,
            fovs[i].unwrap().radius as int,
            spec_index_to_point(t),
        )
}

/// Records every tile of `visible` as seen.
fn reveal_all(map: &mut TileMap, visible: &Vec<Point>)
    requires
        old(map).wf(),
        forall|j: int| 0 <= j < visible@.len() ==> in_grid(#[trigger] visible@[j]),
    ensures
        final(map).wf(),
        final(map).tiles@ == old(map).tiles@,
        forall|t: int|
            0 <= t < NUM_TILES
                ==> #[trigger] final(map).revealed_tiles@[t] == (old(map).revealed_tiles@[t]
                    || visible@.contains(spec_index_to_point(t))),
{
    let mut k: usize = 0;
    while k < visible.len()
        invariant
            map.wf(),
            map.tiles@ == old(map).tiles@,
            k <= visible@.len(),
            forall|j: int| 0 <= j < visible@.len() ==> in_grid(#[trigger] visible@[j]),
            forall|t: int|
                0 <= t < NUM_TILES
                    ==> #[trigger] map.revealed_tiles@[t] == (old(map).revealed_tiles@[t]
                        || exists|j: int|
                    0 <= j < k && #[trigger] visible@[j] == spec_index_to_point(t)),
        decreases visible@.len() - k,
    {
        let p: Point = visible[k];
        assert(in_grid(visible@[k as int]));
        let idx: usize = map_idx(p.x, p.y);
        let ghost before = map.revealed_tiles@;
        map.mark_revealed(idx);
        proof {
            assert forall|t: int| 0 <= t < NUM_TILES implies #[trigger] map.revealed_tiles@[t] == (
            old(map).revealed_tiles@[t] || exists|j: int|
                0 <= j < k + 1 && #[trigger] visible@[j] == spec_index_to_point(t)) by {
                if t == idx {
                    assert(visible@[k as int] == spec_index_to_point(t));
                } else {
                    assert(map.revealed_tiles@[t] == before[t]);
                    if exists|j: int|
                        0 <= j < k + 1 && #[trigger] visible@[j] == spec_index_to_point(t) {
                        let j = choose|j: int|
                            0 <= j < k + 1 && #[trigger] visible@[j] == spec_index_to_point(t);
                        assert(j != k) by {
                            if j == k {
                                assert(spec_map_idx(p.x as int, p.y as int) == t);
                            }
                        }
                        assert(0 <= j < k && visible@[j] == spec_index_to_point(t));
                    }
                }
            }
        }
        k += 1;
    }
    proof {
        assert forall|t: int| 0 <= t < NUM_TILES implies #[trigger] map.revealed_tiles@[t] == (old(map).revealed_tiles@[t]
            || visible@.contains(spec_index_to_point(t))) by {
            if visible@.contains(spec_index_to_point(t)) {
                let j = choose|j: int|
                    0 <= j < visible@.len() && visible@[j] == spec_index_to_point(t);
                assert(0 <= j < k && visible@[j] == spec_index_to_point(t));
            }
        }
    }
}

/// Computes anew every field of view that is out of date and whose owner
/// lives, and records every tile that one of them sees as seen. Entities,
/// names, messages and tiles stay as they are, and so does every other
/// field of view.
pub fn fov(world: &mut World, map: &mut TileMap)
    requires
        old(world).wf(),
        old(map).wf(),
    ensures
        final(world).wf(),
        final(map).wf(),
        final(map).tiles@ == old(map).tiles@,
        final(world).slots@ == old(world).slots@,
        final(world).names@ == old(world).names@,
        final(world).pending() == old(world).pending(),
        final(world).fovs@.len() == old(world).fovs@.len(),
        forall|i: int|
            0 <= i < final(world).fovs@.len() ==> if refreshes(
                old(world).slots@,
                old(world).fovs@,
                i,
            ) {
                refreshed(
                    old(map).tiles@,
                    old(world).slots@[i].parts.position,
                    old(world).fovs@[i],
                    #[trigger] final(world).fovs@[i],
                )
            } else {
                final(world).fovs@[i] == old(world).fovs@[i]
            },
        forall|t: int|
            0 <= t < NUM_TILES
                ==> #[trigger] final(map).revealed_tiles@[t] == (old(map).revealed_tiles@[t]
                    || newly_seen(
                old(world).slots@,
                old(world).fovs@,
                old(map).tiles@,
                old(world).slots@.len() as int,
                t,
            )),
{
    let ghost slots = world.slots@;
    let ghost fovs = world.fovs@;
    let ghost tiles = map.tiles@;
    let mut i: usize = 0;
    while i < world.slots.len()
        invariant
            world.wf(),
            map.wf(),
            old(world).wf(),
            old(map).wf(),
            slots == old(world).slots@,
            fovs == old(world).fovs@,
            tiles == old(map).tiles@,
            map.tiles@ == tiles,
            world.slots@ == slots,
            world.names@ == old(world).names@,
            world.pending() == old(world).pending(),
            world.fovs@.len() == fovs.len(),
            i <= slots.len(),
            forall|j: int|
                0 <= j < i ==> if refreshes(slots, fovs, j) {
                    refreshed(tiles, slots[j].parts.position, fovs[j], #[trigger] world.fovs@[j])
                } else {
                    world.fovs@[j] == fovs[j]
                },
            forall|j: int| i <= j < fovs.len() ==> #[trigger] world.fovs@[j] == fovs[j],
            forall|t: int|
                0 <= t < NUM_TILES
                    ==> #[trigger] map.revealed_tiles@[t] == (old(map).revealed_tiles@[t]
                        || newly_seen(slots, fovs, tiles, i as int, t)),
        decreases slots.len() - i,
    {
        let slot: Slot = world.slots[i];
        let stale: Option<i32> = match &world.fovs[i] {
            Some(f) => if f.is_dirty && slot.alive {
                Some(f.radius)
            } else {
                None
            },
            None => None,
        };
        let ghost revealed0 = map.revealed_tiles@;
        match stale {
            Some(radius) => {
                assert(refreshes(slots, fovs, i as int));
                let visible = field_of_view_set(slot.parts.position, radius, map);
                reveal_all(map, &visible);
                world.fovs.set(i, Some(FieldOfView { visible_tiles: visible, radius, is_dirty: false }));
                proof {
                    assert forall|t: int| 0 <= t < NUM_TILES
                        implies #[trigger] map.revealed_tiles@[t]
                        == (old(map).revealed_tiles@[t] || newly_seen(
                        slots,
                        fovs,
                        tiles,
                        i + 1,
                        t,
                    )) by {
                        lemma_newly_seen_next(slots, fovs, tiles, i as int, t);
                    }
                }
            },
            None => {
                assert(!refreshes(slots, fovs, i as int));
                proof {
                    assert forall|t: int| 0 <= t < NUM_TILES
                        implies #[trigger] map.revealed_tiles@[t]
                        == (old(map).revealed_tiles@[t] || newly_seen(
                        slots,
                        fovs,
                        tiles,
                        i + 1,
                        t,
                    )) by {
                        lemma_newly_seen_next(slots, fovs, tiles, i as int, t);
                    }
                }
            },
        }
        i += 1;
    }
}

/// What the fields of view below slot `i + 1` see is what those below
/// slot `i` see and what the field in slot `i` sees.
proof fn lemma_newly_seen_next(
    slots: Seq<Slot>,
    fovs: Seq<Option<FieldOfView>>,
    tiles: Seq<TileType>,
    i: int,
    t: int,
)
    requires
        0 <= i < slots.len(),
    ensures
        newly_seen(slots, fovs, tiles, i + 1, t) == (newly_seen(slots, fovs, tiles, i, t) || (
        refreshes(slots, fovs, i) && sees(
            tiles,
            slots[i].parts.position,
            fovs[i].unwrap().radius as int,
            spec_index_to_point(t),
        ))),
{
    if newly_seen(slots, fovs, tiles, i + 1, t) {
        let j = choose|j: int|
            0 <= j < i + 1 && #[trigger] refreshes(slots, fovs, j) && sees(
                tiles,
                slots[j].parts.position,
                fovs[j].unwrap().radius as int,
                spec_index_to_point(t),
            );
        if j < i {
            assert(newly_seen(slots, fovs, tiles, i, t));
        }
    }
    if newly_seen(slots, fovs, tiles, i, t) {
        let j = choose|j: int|
            0 <= j < i && #[trigger] refreshes(slots, fovs, j) && sees(
                tiles,
                slots[j].parts.position,
                fovs[j].unwrap().radius as int,
                spec_index_to_point(t),
            );
        assert(0 <= j < i + 1);
    }
    if refreshes(slots, fovs, i) && sees(
        tiles,
        slots[i].parts.position,
        fovs[i].unwrap().radius as int,
        spec_index_to_point(t),
    ) {
        assert(newly_seen(slots, fovs, tiles, i + 1, t));
    }
}

} // verus!
