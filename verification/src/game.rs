//! The game: the registry, the map and the phase of the turn, advanced one
//! tick at a time.

use vstd::prelude::*;
use crate::components::{Entity, FieldOfView, WantsToAttack, WantsToMove};
use crate::fov::{field_of_view_set, sees};
use crate::geometry::{in_grid, NUM_TILES, Point};
use crate::map::{map_idx, spec_index_to_point, spec_map_idx, TileMap, TileType};
use crate::map_builder::{drawn_dungeon, MapBuilder, NUM_MONSTERS};
use crate::map_builder::placement::fit_for_monster;
use crate::map_builder::themes::MapTheme;
use crate::pathfinding::flow_distances;
use crate::spawner::{
    amulet_parts,
    monster_parts,
    player_parts,
    spawn_amulet_of_yala,
    spawn_monster,
    spawn_player,
    spawned,
};
use crate::systems::chasing::{chasing, hunted};
use crate::systems::combat::{after_attacks, combat, lemma_attacks_keep_places};
use crate::systems::end_turn::{end_turn, turn_end};
use crate::systems::fov::{fov, newly_seen, refreshed, refreshes};
use crate::systems::intent::Pending;
use crate::systems::movement::{after_moves, has_moved, lemma_unmoved_stays, movement};
use crate::systems::player_input::{input_applied, Key, player_input};
use crate::systems::random_move::{random_move, wandered, wanderers};
use crate::turn_state::{GameError, TurnState};
use crate::world::{answers, first_match, lemma_first_match, Query, Slot, World};

verus! {

/// A run of the game: the registry, the map, the phase of the turn, the
/// look of the map, and the random source that every draw comes from.
pub struct Game {
    pub world: World,
    pub map: TileMap,
    pub turn_state: TurnState,
    pub theme: MapTheme,
    pub rng: bracket_lib::prelude::RandomNumberGenerator,
}

/// Whether the field of view lists, each once, exactly the tiles that an
/// eye at `eye` sees, and the map remembers all of them.
pub open spec fn shows(f: FieldOfView, tiles: Seq<TileType>, revealed: Seq<bool>, eye: Point) -> bool {
    &&& f.visible_tiles@.no_duplicates()
    &&& forall|p: Point| f.visible_tiles@.contains(p) <==> sees(tiles, eye, f.radius as int, p)
    &&& forall|p: Point| #[trigger]
        sees(tiles, eye, f.radius as int, p) ==> revealed[spec_map_idx(p.x as int, p.y as int)]
}

/// Whether every field of view of a living entity is either marked as out
/// of date or shows what its owner sees from where it stands.
pub open spec fn sight_current(world: &World, map: &TileMap) -> bool {
    forall|i: int|
        0 <= i < world.slots@.len() && world.slots@[i].alive ==> match #[trigger] world.fovs@[i] {
            Some(f) => f.is_dirty || shows(
                f,
                map.tiles@,
                map.revealed_tiles@,
                world.slots@[i].parts.position,
            ),
            None => true,
        }
}

/// Whether no field of view of a living entity is out of date.
pub open spec fn sight_fresh(world: &World) -> bool {
    forall|i: int|
        0 <= i < world.slots@.len() && world.slots@[i].alive ==> match #[trigger] world.fovs@[i] {
            Some(f) => !f.is_dirty,
            None => true,
        }
}

/// The slots after the pending attacks and then the pending moves have been
/// resolved.
pub open spec fn resolved(slots: Seq<Slot>, pending: Pending, tiles: Seq<TileType>) -> Seq<Slot> {
    after_moves(
        after_attacks(slots, pending.attacks, pending.attacks.len() as int),
        tiles,
        pending.moves,
        pending.moves.len() as int,
    )
}

/// Whether every living entity has the name that it had, and no other
/// slot holds a name.
pub open spec fn names_follow(before: &World, after: &World) -> bool {
    after.names@.len() == before.names@.len() && forall|i: int|
        0 <= i < after.slots@.len() ==> #[trigger] after.names@[i] == (if after.slots@[i].alive {
            before.names@[i]
        } else {
            None
        })
}

/// The messages pending after the monsters have decided: first the
/// wanderers, each with a draw of its own, then the hunters, over the flow
/// field rooted at the tile of `player`.
pub open spec fn monsters_decided(
    slots: Seq<Slot>,
    tiles: Seq<TileType>,
    pending: Pending,
    player: Entity,
    draws: Seq<i32>,
) -> Pending {
    let at = slots[player.index as int].parts.position;
    hunted(
        slots,
        tiles,
        flow_distances(tiles, seq![spec_map_idx(at.x as int, at.y as int) as usize]),
        at,
        wandered(slots, pending, slots.len() as int, draws),
        slots.len() as int,
    )
}

/// What a tick does while input is awaited: the key is read, and the fields
/// of view are brought up to date. Without a player nothing happens, and
/// the tick fails.
pub open spec fn input_phase(
    before: &Game,
    key: Option<Key>,
    after: &Game,
    r: Result<(), GameError>,
) -> bool {
    match before.world.first(Query::Player) {
        None => r == Err::<(), GameError>(GameError::MissingPlayer) && after.same_state(before),
        Some(player) => r.is_ok() && input_applied(
            before.world,
            key,
            before.turn_state,
            player,
            after.world,
            after.turn_state,
        ) && after.world.names@ == before.world.names@ && sight_fresh(&after.world),
    }
}

/// What a tick does in the player's turn: attacks and then moves are
/// resolved, the fields of view are brought up to date, and the end of
/// the turn is evaluated.
pub open spec fn player_phase(before: &Game, after: &Game, r: Result<(), GameError>) -> bool {
    &&& after.world.slots@ == resolved(
        before.world.slots@,
        before.world.pending(),
        before.map.tiles@,
    )
    &&& after.world.moves@.len() == 0
    &&& after.world.attacks@.len() == 0
    &&& names_follow(&before.world, &after.world)
    &&& sight_fresh(&after.world)
    &&& turn_end(&after.world, before.turn_state, after.turn_state, r)
}

/// What a tick does in the monsters' turn: the monsters decide over the
/// world as it stands, then everything pending is resolved as in the
/// player's turn. Without a player nothing happens, and the tick fails.
pub open spec fn monster_phase(before: &Game, after: &Game, r: Result<(), GameError>) -> bool {
    match before.world.first(Query::Player) {
        None => r == Err::<(), GameError>(GameError::MissingPlayer) && after.same_state(before),
        Some(player) => exists|draws: Seq<i32>|
            {
                &&& draws.len() == wanderers(
                    before.world.slots@,
                    before.world.slots@.len() as int,
                )
                &&& forall|k: int| 0 <= k < draws.len() ==> 0 <= #[trigger] draws[k] < 4
                &&& after.world.slots@ == resolved(
                    before.world.slots@,
                    #[trigger] monsters_decided(
                        before.world.slots@,
                        before.map.tiles@,
                        before.world.pending(),
                        player,
                        draws,
                    ),
                    before.map.tiles@,
                )
            } && after.world.moves@.len() == 0 && after.world.attacks@.len() == 0 && names_follow(
            &before.world,
            &after.world,
        ) && sight_fresh(&after.world) && turn_end(
            &after.world,
            before.turn_state,
            after.turn_state,
            r,
        ),
    }
}

/// Whether the slot holds a living monster of either kind at `pos`.
pub open spec fn holds_monster(slot: Slot, pos: Point) -> bool {
    exists|roll: int|
        1 <= roll <= 10 && slot == (Slot {
            alive: true,
            generation: 0,
            parts: #[trigger] monster_parts(pos, roll),
        })
}

/// Whether the registry holds what a finished dungeon asks for and nothing
/// else: the player on its start, the amulet on its place, one monster on
/// each place for a monster, in this order; nothing is pending, and every
/// field of view is yet to be computed.
pub open spec fn populated(mb: &MapBuilder, world: &World) -> bool {
    &&& world.slots@.len() == NUM_MONSTERS + 2
    &&& world.slots@[0] == (Slot {
        alive: true,
        generation: 0,
        parts: player_parts(mb.player_start),
    })
    &&& world.slots@[1] == (Slot {
        alive: true,
        generation: 0,
        parts: amulet_parts(mb.amulet_start),
    })
    &&& forall|i: int|
        2 <= i < NUM_MONSTERS + 2 ==> holds_monster(
            #[trigger] world.slots@[i],
            mb.monster_spawns@[i - 2],
        )
    &&& world.moves@.len() == 0
    &&& world.attacks@.len() == 0
    &&& forall|i: int|
        0 <= i < world.fovs@.len() ==> match #[trigger] world.fovs@[i] {
            Some(f) => f.is_dirty,
            None => true,
        }
}

/// Whether the game stands at the start of a run: input is awaited, and
/// the registry is populated from a finished dungeon whose tiles and theme
/// the game has.
pub open spec fn started(game: &Game) -> bool {
    exists|mb: MapBuilder| #[trigger]
        mb.wf() && drawn_dungeon(Ok(mb)) && populated(&mb, &game.world) && game.map.tiles@
            == mb.map.tiles@ && game.map.unexplored() && game.theme == mb.theme && game.turn_state
            == TurnState::AwaitingInput
}

/// Why no game could be started: the reason for which no dungeon could be
/// built.
pub open spec fn start_failed(e: GameError) -> bool {
    drawn_dungeon(Err(e)) && (e == GameError::GenerationExhausted || e
        == GameError::SpawnExhausted)
}

/// Whether the occupant of the slot is a living player.
pub open spec fn is_player(slot: Slot) -> bool {
    slot.alive && slot.parts.player.is_some()
}

/// Whether the occupant of the slot is a living amulet that no blow can
/// harm, having no hit points.
pub open spec fn is_lasting_amulet(slot: Slot) -> bool {
    slot.alive && slot.parts.amulet.is_some() && slot.parts.health.is_none()
}

/// Whether the registry holds a player and an amulet that no blow can
/// harm.
pub open spec fn cast_complete(slots: Seq<Slot>) -> bool {
    &&& exists|i: int| 0 <= i < slots.len() && is_player(#[trigger] slots[i])
    &&& exists|i: int| 0 <= i < slots.len() && is_lasting_amulet(#[trigger] slots[i])
}

/// In a complete cast the searches for the player and for the amulet find
/// someone.
pub proof fn lemma_cast_found(slots: Seq<Slot>)
    requires
        cast_complete(slots),
    ensures
        first_match(slots, Query::Player, slots.len() as int).is_some(),
        first_match(slots, Query::Amulet, slots.len() as int).is_some(),
{
    lemma_first_match(slots, Query::Player, slots.len() as int);
    lemma_first_match(slots, Query::Amulet, slots.len() as int);
    let p = choose|i: int| 0 <= i < slots.len() && is_player(#[trigger] slots[i]);
    let a = choose|i: int| 0 <= i < slots.len() && is_lasting_amulet(#[trigger] slots[i]);
    assert(answers(slots[p], Query::Player));
    assert(answers(slots[a], Query::Amulet));
}

/// Attacks leave a complete cast complete: the player is never removed,
/// and an amulet without hit points cannot be struck.
pub proof fn lemma_attacks_keep_cast(slots: Seq<Slot>, attacks: Seq<WantsToAttack>, n: int)
    requires
        0 <= n <= attacks.len(),
        cast_complete(slots),
    ensures
        cast_complete(after_attacks(slots, attacks, n)),
    decreases n,
{
    if n > 0 {
        lemma_attacks_keep_cast(slots, attacks, n - 1);
        let earlier = after_attacks(slots, attacks, n - 1);
        let after = after_attacks(slots, attacks, n);
        let p = choose|i: int| 0 <= i < earlier.len() && is_player(#[trigger] earlier[i]);
        let a = choose|i: int| 0 <= i < earlier.len() && is_lasting_amulet(#[trigger] earlier[i]);
        assert(after.len() == earlier.len());
        assert(is_player(after[p]));
        assert(is_lasting_amulet(after[a]));
    }
}

/// Moves leave a complete cast complete.
pub proof fn lemma_moves_keep_cast(
    slots: Seq<Slot>,
    tiles: Seq<TileType>,
    moves: Seq<WantsToMove>,
    n: int,
)
    requires
        0 <= n <= moves.len(),
        cast_complete(slots),
    ensures
        cast_complete(after_moves(slots, tiles, moves, n)),
    decreases n,
{
    if n > 0 {
        lemma_moves_keep_cast(slots, tiles, moves, n - 1);
        let earlier = after_moves(slots, tiles, moves, n - 1);
        let after = after_moves(slots, tiles, moves, n);
        let p = choose|i: int| 0 <= i < earlier.len() && is_player(#[trigger] earlier[i]);
        let a = choose|i: int| 0 <= i < earlier.len() && is_lasting_amulet(#[trigger] earlier[i]);
        assert(after.len() == earlier.len());
        assert(is_player(after[p]));
        assert(is_lasting_amulet(after[a]));
    }
}

/// A game at the start of a run has its player and its amulet.
pub proof fn lemma_started_is_manned(game: &Game)
    requires
        started(game),
    ensures
        game.manned(),
{
    let mb = choose|mb: MapBuilder| #[trigger]
        mb.wf() && drawn_dungeon(Ok(mb)) && populated(&mb, &game.world) && game.map.tiles@
            == mb.map.tiles@ && game.map.unexplored() && game.theme == mb.theme && game.turn_state
            == TurnState::AwaitingInput;
    assert(is_player(game.world.slots@[0]));
    assert(is_lasting_amulet(game.world.slots@[1]));
}

/// What a restart comes to: a game at the start of a run, or, where no
/// dungeon could be built, the game as it was and the reason.
pub open spec fn restarted(before: &Game, after: &Game, r: Result<(), GameError>) -> bool {
    match r {
        Ok(_) => started(after),
        Err(e) => after.same_state(before) && start_failed(e),
    }
}

/// Fills an empty registry from a finished dungeon.
pub fn populate(
    world: &mut World,
    mb: &MapBuilder,
    rng: &mut bracket_lib::prelude::RandomNumberGenerator,
)
    requires
        old(world).wf(),
        old(world).slots@.len() == 0,
        old(world).moves@.len() == 0,
        old(world).attacks@.len() == 0,
        mb.wf(),
    ensures
        final(world).wf(),
        populated(mb, final(world)),
{
    spawn_player(world, mb.player_start);
    spawn_amulet_of_yala(world, mb.amulet_start);
    let mut j: usize = 0;
    while j < mb.monster_spawns.len()
        invariant
            world.wf(),
            mb.wf(),
            j <= NUM_MONSTERS,
            world.slots@.len() == j + 2,
            forall|i: int| 0 <= i < world.slots@.len() ==> (#[trigger] world.slots@[i]).alive,
            world.slots@[0] == (Slot {
                alive: true,
                generation: 0,
                parts: player_parts(mb.player_start),
            }),
            world.slots@[1] == (Slot {
                alive: true,
                generation: 0,
                parts: amulet_parts(mb.amulet_start),
            }),
            forall|i: int|
                2 <= i < j + 2 ==> holds_monster(
                    #[trigger] world.slots@[i],
                    mb.monster_spawns@[i - 2],
                ),
            world.moves@.len() == 0,
            world.attacks@.len() == 0,
            forall|i: int|
                0 <= i < world.fovs@.len() ==> match #[trigger] world.fovs@[i] {
                    Some(f) => f.is_dirty,
                    None => true,
                },
        decreases NUM_MONSTERS - j,
    {
        let pos: Point = mb.monster_spawns[j];
        assert(fit_for_monster(
            mb.map.tiles@,
            mb.player_start,
            mb.monster_spawns@[j as int],
        ));
        let ghost before = *world;
        let e = spawn_monster(world, rng, pos);
        proof {
            let roll = choose|roll: int|
                1 <= roll <= 10 && #[trigger] spawned(&before, world, e, monster_parts(pos, roll));
            assert(e.index == before.slots@.len()) by {
                if e.index < before.slots@.len() {
                    assert(before.slots@[e.index as int].alive);
                }
            }
            assert(world.slots@[j + 2] == (Slot {
                alive: true,
                generation: 0,
                parts: monster_parts(pos, roll),
            }));
            assert(holds_monster(world.slots@[j + 2], mb.monster_spawns@[j as int]));
            assert forall|i: int| 2 <= i < j + 3 implies holds_monster(
                #[trigger] world.slots@[i],
                mb.monster_spawns@[i - 2],
            ) by {
                if i < j + 2 {
                    assert(world.slots@[i] == before.slots@[i]);
                }
            }
            assert forall|i: int| 0 <= i < world.fovs@.len()
                implies match #[trigger] world.fovs@[i] {
                Some(f) => f.is_dirty,
                None => true,
            } by {
                if i < j + 2 {
                    assert(world.slots@[i] == before.slots@[i]);
                    assert(world.fovs@[i] == before.fovs@[i]);
                }
            }
            assert(world.slots@[0] == before.slots@[0]);
            assert(world.slots@[1] == before.slots@[1]);
        }
        j += 1;
    }
}

/// Bringing the fields of view up to date leaves every one of them current
/// and none out of date.
proof fn lemma_sight_after_fov(before: &World, map_before: &TileMap, after: &World, map_after: &TileMap)
    requires
        before.wf(),
        after.wf(),
        map_before.wf(),
        map_after.wf(),
        sight_current(before, map_before),
        map_after.tiles@ == map_before.tiles@,
        after.slots@ == before.slots@,
        after.fovs@.len() == before.fovs@.len(),
        forall|i: int|
            0 <= i < after.fovs@.len() ==> if refreshes(before.slots@, before.fovs@, i) {
                refreshed(
                    map_before.tiles@,
                    before.slots@[i].parts.position,
                    before.fovs@[i],
                    #[trigger] after.fovs@[i],
                )
            } else {
                after.fovs@[i] == before.fovs@[i]
            },
        forall|t: int|
            0 <= t < NUM_TILES ==> #[trigger] map_after.revealed_tiles@[t] == (
            map_before.revealed_tiles@[t] || newly_seen(
                before.slots@,
                before.fovs@,
                map_before.tiles@,
                before.slots@.len() as int,
                t,
            )),
    ensures
        sight_current(after, map_after),
        sight_fresh(after),
{
    let tiles = map_before.tiles@;
    assert forall|i: int| 0 <= i < after.slots@.len()
        && after.slots@[i].alive implies match #[trigger] after.fovs@[i] {
        Some(f) => !f.is_dirty && shows(
            f,
            map_after.tiles@,
            map_after.revealed_tiles@,
            after.slots@[i].parts.position,
        ),
        None => true,
    } by {
        let eye = before.slots@[i].parts.position;
        if refreshes(before.slots@, before.fovs@, i) {
            let f = after.fovs@[i].unwrap();
            let radius = before.fovs@[i].unwrap().radius;
            assert forall|p: Point| #[trigger] sees(tiles, eye, f.radius as int, p)
                implies map_after.revealed_tiles@[spec_map_idx(
                p.x as int,
                p.y as int,
            )] by {
                let t = spec_map_idx(p.x as int, p.y as int);
                assert(spec_index_to_point(t) == p);
                assert(refreshes(before.slots@, before.fovs@, i) && sees(
                    tiles,
                    before.slots@[i].parts.position,
                    before.fovs@[i].unwrap().radius as int,
                    spec_index_to_point(t),
                ));
                assert(newly_seen(
                    before.slots@,
                    before.fovs@,
                    tiles,
                    before.slots@.len() as int,
                    t,
                ));
            }
        } else {
            match before.fovs@[i] {
                Some(f) => {
                    assert(!f.is_dirty);
                    assert(shows(f, tiles, map_before.revealed_tiles@, eye));
                    assert forall|p: Point| #[trigger] sees(tiles, eye, f.radius as int, p)
                        implies map_after.revealed_tiles@[spec_map_idx(
                        p.x as int,
                        p.y as int,
                    )] by {
                        let t = spec_map_idx(p.x as int, p.y as int);
                        assert(map_before.revealed_tiles@[t]);
                    }
                },
                None => {},
            }
        }
    }
}

/// Whether every point of `a` is a point of `b`.
pub fn all_within(a: &Vec<Point>, b: &Vec<Point>) -> (ok: bool)
    ensures
        ok == forall|j: int| 0 <= j < a@.len() ==> b@.contains(#[trigger] a@[j]),
{
    let mut j: usize = 0;
    while j < a.len()
        invariant
            j <= a@.len(),
            forall|k: int| 0 <= k < j ==> b@.contains(#[trigger] a@[k]),
        decreases a@.len() - j,
    {
        let p: Point = a[j];
        let mut found: bool = false;
        let mut i: usize = 0;
        while i < b.len() && !found
            invariant
                i <= b@.len(),
                p == a@[j as int],
                found ==> b@.contains(p),
                !found ==> forall|k: int| 0 <= k < i ==> b@[k] != p,
            decreases b@.len() - i, !found as int,
        {
            if b[i] == p {
                found = true;
                assert(b@[i as int] == p);
            } else {
                i += 1;
            }
        }
        if !found {
            assert(!b@.contains(a@[j as int]));
            return false;
        }
        j += 1;
    }
    true
}

/// Whether no point is listed twice.
pub fn no_repeats(a: &Vec<Point>) -> (ok: bool)
    ensures
        ok == a@.no_duplicates(),
{
    let mut j: usize = 0;
    while j < a.len()
        invariant
            j <= a@.len(),
            forall|x: int, y: int| 0 <= x < y < j ==> a@[x] != a@[y],
        decreases a@.len() - j,
    {
        let mut i: usize = 0;
        while i < j
            invariant
                i <= j < a@.len(),
                forall|x: int| 0 <= x < i ==> a@[x] != a@[j as int],
            decreases j - i,
        {
            if a[i] == a[j] {
                assert(!a@.no_duplicates()) by {
                    assert(a@[i as int] == a@[j as int]);
                }
                return false;
            }
            i += 1;
        }
        j += 1;
    }
    assert(a@.no_duplicates()) by {
        assert forall|x: int, y: int|
            0 <= x < a@.len() && 0 <= y < a@.len() && x != y implies a@[x] != a@[y] by {
            if x < y {
            } else {
                assert(a@[y] != a@[x]);
            }
        }
    }
    true
}

/// Whether the map remembers every point of `a`, all of them on the grid.
pub fn all_remembered(map: &TileMap, a: &Vec<Point>) -> (ok: bool)
    requires
        map.wf(),
        forall|j: int| 0 <= j < a@.len() ==> in_grid(#[trigger] a@[j]),
    ensures
        ok == forall|j: int|
            0 <= j < a@.len() ==> map.revealed_tiles@[spec_map_idx(
                (#[trigger] a@[j]).x as int,
                a@[j].y as int,
            )],
{
    let mut j: usize = 0;
    while j < a.len()
        invariant
            map.wf(),
            j <= a@.len(),
            forall|k: int| 0 <= k < a@.len() ==> in_grid(#[trigger] a@[k]),
            forall|k: int|
                0 <= k < j ==> map.revealed_tiles@[spec_map_idx(
                    (#[trigger] a@[k]).x as int,
                    a@[k].y as int,
                )],
        decreases a@.len() - j,
    {
        let p: Point = a[j];
        assert(in_grid(a@[j as int]));
        if !map.revealed_tiles[map_idx(p.x, p.y)] {
            return false;
        }
        j += 1;
    }
    true
}

/// Whether the field of view shows what an eye at `eye` sees, found out by
/// looking anew.
pub fn shows_now(f: &FieldOfView, map: &TileMap, eye: Point) -> (ok: bool)
    requires
        map.wf(),
        in_grid(eye),
    ensures
        ok == shows(*f, map.tiles@, map.revealed_tiles@, eye),
{
    let fresh = field_of_view_set(eye, f.radius, map);
    let distinct: bool = no_repeats(&f.visible_tiles);
    let none_more: bool = all_within(&f.visible_tiles, &fresh);
    let none_less: bool = all_within(&fresh, &f.visible_tiles);
    let remembered: bool = all_remembered(map, &fresh);
    proof {
        let tiles = map.tiles@;
        let radius = f.radius as int;
        let seen = f.visible_tiles@;
        if distinct && none_more && none_less && remembered {
            assert forall|p: Point| seen.contains(p) <==> sees(tiles, eye, radius, p) by {
                if seen.contains(p) {
                    let j = choose|j: int| 0 <= j < seen.len() && seen[j] == p;
                    assert(fresh@.contains(seen[j]));
                }
                if sees(tiles, eye, radius, p) {
                    assert(fresh@.contains(p));
                    let j = choose|j: int| 0 <= j < fresh@.len() && fresh@[j] == p;
                    assert(seen.contains(fresh@[j]));
                }
            }
            assert forall|p: Point| #[trigger] sees(tiles, eye, radius, p) implies map.revealed_tiles@[spec_map_idx(
                p.x as int,
                p.y as int,
            )] by {
                assert(fresh@.contains(p));
                let j = choose|j: int| 0 <= j < fresh@.len() && fresh@[j] == p;
                assert(map.revealed_tiles@[spec_map_idx(fresh@[j].x as int, fresh@[j].y as int)]);
            }
        }
        if shows(*f, tiles, map.revealed_tiles@, eye) {
            assert forall|j: int| 0 <= j < seen.len() implies fresh@.contains(#[trigger] seen[j]) by {
                assert(seen.contains(seen[j]));
            }
            assert forall|j: int| 0 <= j < fresh@.len() implies seen.contains(
                #[trigger] fresh@[j],
            ) by {
                assert(fresh@.contains(fresh@[j]));
            }
            assert forall|j: int| 0 <= j < fresh@.len() implies map.revealed_tiles@[spec_map_idx(
                (#[trigger] fresh@[j]).x as int,
                fresh@[j].y as int,
            )] by {
                assert(fresh@.contains(fresh@[j]));
                assert(sees(tiles, eye, radius, fresh@[j]));
            }
        }
    }
    distinct && none_more && none_less && remembered
}

impl Game {
    /// The registry and the grid are complete, and every field of view of a
    /// living entity is out of date or shows what its owner sees.
    pub open spec fn wf(&self) -> bool {
        self.world.wf() && self.map.wf() && sight_current(&self.world, &self.map)
    }

    /// Whether the game has its player and its amulet. A game that has them
    /// keeps them: no tick fails for the lack of either, and after the
    /// player's turn and after the monsters' turn no message is pending.
    pub open spec fn manned(&self) -> bool {
        cast_complete(self.world.slots@)
    }

    /// Whether the game is well formed, found out by looking: the registry
    /// and the grid are gone through, and every field of view that is not
    /// marked as out of date is held against what its owner sees now.
    pub fn is_sound(&self) -> (b: bool)
        ensures
            b == self.wf(),
    {
        if !self.world.is_sound() || !self.map.is_sound() {
            return false;
        }
        let mut i: usize = 0;
        while i < self.world.slots.len()
            invariant
                self.world.wf(),
                self.map.wf(),
                i <= self.world.slots@.len(),
                forall|j: int|
                    0 <= j < i && self.world.slots@[j].alive ==> match #[trigger] self.world.fovs@[j] {
                        Some(f) => f.is_dirty || shows(
                            f,
                            self.map.tiles@,
                            self.map.revealed_tiles@,
                            self.world.slots@[j].parts.position,
                        ),
                        None => true,
                    },
            decreases self.world.slots@.len() - i,
        {
            let slot: Slot = self.world.slots[i];
            if slot.alive {
                let current: bool = match &self.world.fovs[i] {
                    Some(f) => f.is_dirty || shows_now(f, &self.map, slot.parts.position),
                    None => true,
                };
                if !current {
                    assert(!sight_current(&self.world, &self.map)) by {
                        let stale = self.world.fovs@[i as int];
                    }
                    return false;
                }
            }
            i += 1;
        }
        true
    }

    /// Whether the two games are in the same state, the random source left
    /// aside.
    pub open spec fn same_state(&self, other: &Game) -> bool {
        self.world == other.world && self.map == other.map && self.turn_state == other.turn_state
            && self.theme == other.theme
    }

    /// Brings the fields of view up to date.
    fn refresh_sight(&mut self)
        requires
            old(self).wf(),
        ensures
            final(self).wf(),
            sight_fresh(&final(self).world),
            final(self).map.tiles@ == old(self).map.tiles@,
            final(self).world.slots@ == old(self).world.slots@,
            final(self).world.names@ == old(self).world.names@,
            final(self).world.pending() == old(self).world.pending(),
            final(self).turn_state == old(self).turn_state,
            final(self).theme == old(self).theme,
    {
        let ghost before = self.world;
        let ghost map_before = self.map;
        fov(&mut self.world, &mut self.map);
        proof {
            lemma_sight_after_fov(&before, &map_before, &self.world, &self.map);
        }
    }

    /// Resolves what is pending: attacks, then moves; then brings the
    /// fields of view up to date.
    fn resolve(&mut self)
        requires
            old(self).wf(),
        ensures
            final(self).wf(),
            sight_fresh(&final(self).world),
            final(self).map.tiles@ == old(self).map.tiles@,
            final(self).world.slots@ == resolved(
                old(self).world.slots@,
                old(self).world.pending(),
                old(self).map.tiles@,
            ),
            final(self).world.moves@.len() == 0,
            final(self).world.attacks@.len() == 0,
            names_follow(&old(self).world, &final(self).world),
            final(self).turn_state == old(self).turn_state,
            final(self).theme == old(self).theme,
            old(self).manned() ==> final(self).manned(),
    {
        let ghost w0 = self.world;
        let ghost tiles = self.map.tiles@;
        proof {
            if self.manned() {
                lemma_attacks_keep_cast(w0.slots@, w0.attacks@, w0.attacks@.len() as int);
                lemma_moves_keep_cast(
                    after_attacks(w0.slots@, w0.attacks@, w0.attacks@.len() as int),
                    tiles,
                    w0.moves@,
                    w0.moves@.len() as int,
                );
            }
        }
        combat(&mut self.world);
        let ghost w1 = self.world;
        proof {
            lemma_attacks_keep_places(w0.slots@, w0.attacks@, w0.attacks@.len() as int);
            assert(sight_current(&w1, &self.map)) by {
                assert forall|i: int| 0 <= i < w1.slots@.len()
                    && w1.slots@[i].alive implies match #[trigger] w1.fovs@[i] {
                    Some(f) => f.is_dirty || shows(
                        f,
                        self.map.tiles@,
                        self.map.revealed_tiles@,
                        w1.slots@[i].parts.position,
                    ),
                    None => true,
                } by {
                    assert(w1.fovs@[i] == w0.fovs@[i]);
                    assert(w0.slots@[i].alive);
                }
            }
        }
        movement(&mut self.world, &self.map);
        let ghost w2 = self.world;
        proof {
            assert(sight_current(&w2, &self.map)) by {
                assert forall|i: int| 0 <= i < w2.slots@.len()
                    && w2.slots@[i].alive implies match #[trigger] w2.fovs@[i] {
                    Some(f) => f.is_dirty || shows(
                        f,
                        self.map.tiles@,
                        self.map.revealed_tiles@,
                        w2.slots@[i].parts.position,
                    ),
                    None => true,
                } by {
                    if has_moved(w1.slots@, tiles, w1.moves@, w1.moves@.len() as int, i) {
                    } else {
                        lemma_unmoved_stays(w1.slots@, tiles, w1.moves@, w1.moves@.len() as int, i);
                        assert(w2.fovs@[i] == w1.fovs@[i]);
                    }
                }
            }
        }
        self.refresh_sight();
    }

    /// One tick while input is awaited.
    pub fn run_input(&mut self, key: Option<Key>) -> (r: Result<(), GameError>)
        requires
            old(self).wf(),
        ensures
            final(self).wf(),
            final(self).map.tiles@ == old(self).map.tiles@,
            final(self).theme == old(self).theme,
            input_phase(old(self), key, final(self), r),
            old(self).manned() ==> r.is_ok() && final(self).manned(),
    {
        let ghost w0 = self.world;
        proof {
            if self.manned() {
                lemma_cast_found(self.world.slots@);
            }
        }
        match player_input(&mut self.world, key, &mut self.turn_state) {
            Ok(()) => {},
            Err(e) => {
                return Err(e);
            },
        }
        proof {
            let w1 = self.world;
            lemma_first_match(w0.slots@, Query::Player, w0.slots@.len() as int);
            assert(sight_current(&w1, &self.map)) by {
                assert forall|i: int| 0 <= i < w1.slots@.len()
                    && w1.slots@[i].alive implies match #[trigger] w1.fovs@[i] {
                    Some(f) => f.is_dirty || shows(
                        f,
                        self.map.tiles@,
                        self.map.revealed_tiles@,
                        w1.slots@[i].parts.position,
                    ),
                    None => true,
                } by {
                    assert(w1.fovs@[i] == w0.fovs@[i]);
                    assert(w0.slots@[i].alive && w0.slots@[i].parts.position
                        == w1.slots@[i].parts.position);
                }
            }
            if cast_complete(w0.slots@) {
                let p = choose|i: int| 0 <= i < w0.slots@.len() && is_player(#[trigger] w0.slots@[i]);
                let a = choose|i: int|
                    0 <= i < w0.slots@.len() && is_lasting_amulet(#[trigger] w0.slots@[i]);
                assert(is_player(w1.slots@[p]));
                assert(is_lasting_amulet(w1.slots@[a]));
            }
        }
        self.refresh_sight();
        Ok(())
    }

    /// One tick of the player's turn.
    pub fn run_player_turn(&mut self) -> (r: Result<(), GameError>)
        requires
            old(self).wf(),
        ensures
            final(self).wf(),
            final(self).map.tiles@ == old(self).map.tiles@,
            final(self).theme == old(self).theme,
            player_phase(old(self), final(self), r),
            old(self).manned() ==> r.is_ok() && final(self).manned(),
    {
        self.resolve();
        proof {
            if old(self).manned() {
                lemma_cast_found(self.world.slots@);
            }
        }
        end_turn(&self.world, &mut self.turn_state)
    }

    /// One tick of the monsters' turn.
    pub fn run_monster_turn(&mut self) -> (r: Result<(), GameError>)
        requires
            old(self).wf(),
        ensures
            final(self).wf(),
            final(self).map.tiles@ == old(self).map.tiles@,
            final(self).theme == old(self).theme,
            monster_phase(old(self), final(self), r),
            old(self).manned() ==> r.is_ok() && final(self).manned(),
    {
        proof {
            if self.manned() {
                lemma_cast_found(self.world.slots@);
            }
        }
        let player = match self.world.find(Query::Player) {
            Some(e) => e,
            None => {
                return Err(GameError::MissingPlayer);
            },
        };
        let ghost w0 = self.world;
        let ghost tiles = self.map.tiles@;
        random_move(&mut self.world, &mut self.rng);
        let ghost w1 = self.world;
        let ghost draws = choose|draws: Seq<i32>|
            draws.len() == wanderers(w0.slots@, w0.slots@.len() as int) && (forall|k: int|
                0 <= k < draws.len() ==> 0 <= #[trigger] draws[k] < 4) && w1.pending() == wandered(
                w0.slots@,
                w0.pending(),
                w0.slots@.len() as int,
                draws,
            );
        let hunt = chasing(&mut self.world, &self.map);
        proof {
            assert(w1.first(Query::Player) == Some(player));
            assert(self.world.pending() == monsters_decided(
                w0.slots@,
                tiles,
                w0.pending(),
                player,
                draws,
            ));
        }
        self.resolve();
        proof {
            if old(self).manned() {
                lemma_cast_found(self.world.slots@);
            }
        }
        let r = end_turn(&self.world, &mut self.turn_state);
        proof {
            assert(self.world.slots@ == resolved(
                w0.slots@,
                monsters_decided(w0.slots@, tiles, w0.pending(), player, draws),
                tiles,
            ));
        }
        r
    }

    /// A game at the start of a run, in a dungeon built by chance. Fails
    /// where no dungeon could be built.
    pub fn new(rng: bracket_lib::prelude::RandomNumberGenerator) -> (r: Result<Game, GameError>)
        ensures
            match r {
                Ok(game) => game.wf() && started(&game) && game.manned(),
                Err(e) => start_failed(e),
            },
    {
        let mut rng = rng;
        let mb = match MapBuilder::new(&mut rng) {
            Ok(mb) => mb,
            Err(e) => {
                return Err(e);
            },
        };
        let mut world = World::new();
        populate(&mut world, &mb, &mut rng);
        let ghost mb0 = mb;
        let MapBuilder { map, rooms, monster_spawns, player_start, amulet_start, theme } = mb;
        let game = Game { world, map, turn_state: TurnState::AwaitingInput, theme, rng };
        proof {
            assert(mb0.wf() && drawn_dungeon(Ok(mb0)) && populated(&mb0, &game.world)
                && game.map.tiles@ == mb0.map.tiles@ && game.map.unexplored() && game.theme
                == mb0.theme && game.turn_state == TurnState::AwaitingInput);
            assert(sight_current(&game.world, &game.map));
            lemma_started_is_manned(&game);
        }
        Ok(game)
    }

    /// Starts the run anew in a fresh dungeon. Where none could be built
    /// the game stays as it was.
    pub fn reset_game_state(&mut self) -> (r: Result<(), GameError>)
        requires
            old(self).wf(),
        ensures
            final(self).wf(),
            restarted(old(self), final(self), r),
            r.is_ok() || old(self).manned() ==> final(self).manned(),
    {
        let mb = match MapBuilder::new(&mut self.rng) {
            Ok(mb) => mb,
            Err(e) => {
                return Err(e);
            },
        };
        let mut world = World::new();
        populate(&mut world, &mb, &mut self.rng);
        let ghost mb0 = mb;
        let MapBuilder { map, rooms, monster_spawns, player_start, amulet_start, theme } = mb;
        self.world = world;
        self.map = map;
        self.theme = theme;
        self.turn_state = TurnState::AwaitingInput;
        proof {
            assert(mb0.wf() && drawn_dungeon(Ok(mb0)) && populated(&mb0, &self.world)
                && self.map.tiles@ == mb0.map.tiles@ && self.map.unexplored() && self.theme
                == mb0.theme && self.turn_state == TurnState::AwaitingInput);
            assert(sight_current(&self.world, &self.map));
            lemma_started_is_manned(self);
        }
        Ok(())
    }

    /// Advances the game by one tick: the systems of the current phase run
    /// in their order. Once the game is over or won, only the confirm key
    /// does anything: it starts the run anew.
    pub fn tick(&mut self, key: Option<Key>) -> (r: Result<(), GameError>)
        requires
            old(self).wf(),
        ensures
            final(self).wf(),
            match old(self).turn_state {
                TurnState::AwaitingInput => input_phase(old(self), key, final(self), r)
                    && final(self).map.tiles@ == old(self).map.tiles@,
                TurnState::PlayerTurn => player_phase(old(self), final(self), r)
                    && final(self).map.tiles@ == old(self).map.tiles@,
                TurnState::MonsterTurn => monster_phase(old(self), final(self), r)
                    && final(self).map.tiles@ == old(self).map.tiles@,
                _ => if key == Some(Key::Confirm) {
                    restarted(old(self), final(self), r)
                } else {
                    r.is_ok() && final(self).same_state(old(self))
                },
            },
            old(self).manned() ==> final(self).manned(),
            old(self).manned() && (old(self).turn_state == TurnState::AwaitingInput || old(self).turn_state == TurnState::PlayerTurn || old(self).turn_state
                == TurnState::MonsterTurn) ==> r.is_ok(),
            old(self).manned() && (old(self).turn_state == TurnState::PlayerTurn || old(self).turn_state == TurnState::MonsterTurn) ==> final(self).world.moves@.len() == 0
                && final(self).world.attacks@.len() == 0,
    {
        match self.turn_state {
            TurnState::AwaitingInput => self.run_input(key),
            TurnState::PlayerTurn => self.run_player_turn(),
            TurnState::MonsterTurn => self.run_monster_turn(),
            _ => {
                if matches!(key, Some(Key::Confirm)) {
                    self.reset_game_state()
                } else {
                    Ok(())
                }
            },
        }
    }
}

} // verus!
