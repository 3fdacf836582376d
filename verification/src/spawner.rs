//! Puts the player, the amulet and the monsters into the registry.

use vstd::prelude::*;
use crate::components::{
    AmuletOfYala,
    ChasingPlayer,
    ColorPair,
    Enemy,
    Entity,
    FieldOfView,
    Health,
    Item,
    Name,
    Player,
    Render,
};
use crate::geometry::{in_grid, Point};
use crate::map_builder::themes::{cp437, glyph_of};
use crate::random::draw_range;
use crate::world::{Components, reusable, World};

verus! {

/// Hit points of the player at the start.
pub const PLAYER_HEALTH: i32 = 10;

/// Radius of the player's sight.
pub const PLAYER_SIGHT: i32 = 8;

/// Radius of a monster's sight.
pub const MONSTER_SIGHT: i32 = 6;

/// White on black.
pub open spec fn plain_colors() -> ColorPair {
    ColorPair { fg: (255u8, 255u8, 255u8), bg: (0u8, 0u8, 0u8) }
}

/// The plain components of the player at `pos`.
pub open spec fn player_parts(pos: Point) -> Components {
    Components {
        position: pos,
        health: Some(Health { current: PLAYER_HEALTH, max: PLAYER_HEALTH }),
        render: Some(Render { color: plain_colors(), glyph: cp437('@') }),
        player: Some(Player),
        enemy: None,
        item: None,
        amulet: None,
        moving_randomly: None,
        chasing_player: None,
    }
}

/// The plain components of the amulet at `pos`.
pub open spec fn amulet_parts(pos: Point) -> Components {
    Components {
        position: pos,
        health: None,
        render: Some(Render { color: plain_colors(), glyph: cp437('|') }),
        player: None,
        enemy: None,
        item: Some(Item),
        amulet: Some(AmuletOfYala),
        moving_randomly: None,
        chasing_player: None,
    }
}

/// Whether a roll of a ten-sided die gives the weaker kind of monster.
pub open spec fn rolls_goblin(roll: int) -> bool {
    1 <= roll <= 8
}

/// The plain components of the monster that a roll gives, at `pos`: one
/// hit point for the weaker kind, two for the stronger.
pub open spec fn monster_parts(pos: Point, roll: int) -> Components {
    let hp: i32 = if rolls_goblin(roll) {
        1
    } else {
        2
    };
    Components {
        position: pos,
        health: Some(Health { current: hp, max: hp }),
        render: Some(
            Render {
                color: plain_colors(),
                glyph: cp437(
                    if rolls_goblin(roll) {
                        'g'
                    } else {
                        'o'
                    },
                ),
            },
        ),
        player: None,
        enemy: Some(Enemy),
        item: None,
        amulet: None,
        moving_randomly: None,
        chasing_player: Some(ChasingPlayer),
    }
}

/// Whether `e` is a new entity of `after` with the given plain components,
/// and everything else is as in `before`.
pub open spec fn spawned(before: &World, after: &World, e: Entity, parts: Components) -> bool {
    &&& after.contains(e)
    &&& after.slots@[e.index as int].parts == parts
    &&& e.index <= before.slots@.len()
    &&& !before.contains(e)
    &&& e.index < before.slots@.len() ==> reusable(before.slots@[e.index as int])
    &&& e.index == before.slots@.len() ==> e.generation == 0
    &&& after.slots@.len() == if e.index < before.slots@.len() {
        before.slots@.len()
    } else {
        before.slots@.len() + 1
    }
    &&& forall|i: int|
        0 <= i < before.slots@.len() && i != e.index ==> #[trigger] after.slots@[i]
            == before.slots@[i] && after.names@[i] == before.names@[i] && after.fovs@[i]
            == before.fovs@[i]
    &&& after.moves@ == before.moves@
    &&& after.attacks@ == before.attacks@
}

/// Adds the player at `pos`, with full hit points and a field of view that
/// is yet to be computed.
pub fn spawn_player(world: &mut World, pos: Point) -> (e: Entity)
    requires
        old(world).wf(),
        in_grid(pos),
    ensures
        final(world).wf(),
        spawned(old(world), final(world), e, player_parts(pos)),
        final(world).names@[e.index as int].is_none(),
        match final(world).fovs@[e.index as int] {
            Some(f) => f.is_dirty && f.radius == PLAYER_SIGHT && f.visible_tiles@.len() == 0,
            None => false,
        },
{
    let parts = Components {
        position: pos,
        health: Some(Health { current: PLAYER_HEALTH, max: PLAYER_HEALTH }),
        render: Some(
            Render {
                color: ColorPair { fg: (255, 255, 255), bg: (0, 0, 0) },
                glyph: glyph_of('@'),
            },
        ),
        player: Some(Player),
        enemy: None,
        item: None,
        amulet: None,
        moving_randomly: None,
        chasing_player: None,
    };
    world.spawn(parts, None, Some(FieldOfView::new(PLAYER_SIGHT)))
}

/// Adds the amulet at `pos`.
pub fn spawn_amulet_of_yala(world: &mut World, pos: Point) -> (e: Entity)
    requires
        old(world).wf(),
        in_grid(pos),
    ensures
        final(world).wf(),
        spawned(old(world), final(world), e, amulet_parts(pos)),
        final(world).fovs@[e.index as int].is_none(),
        match final(world).names@[e.index as int] {
            Some(n) => n.0@ == "Amulet of Yala"@,
            None => false,
        },
{
    let parts = Components {
        position: pos,
        health: None,
        render: Some(
            Render {
                color: ColorPair { fg: (255, 255, 255), bg: (0, 0, 0) },
                glyph: glyph_of('|'),
            },
        ),
        player: None,
        enemy: None,
        item: Some(Item),
        amulet: Some(AmuletOfYala),
        moving_randomly: None,
        chasing_player: None,
    };
    world.spawn(parts, Some(Name("Amulet of Yala".to_owned())), None)
}

/// Adds the monster that the roll of a ten-sided die gives, at `pos`.
pub fn spawn_monster_of(world: &mut World, pos: Point, roll: i32) -> (e: Entity)
    requires
        old(world).wf(),
        in_grid(pos),
    ensures
        final(world).wf(),
        spawned(old(world), final(world), e, monster_parts(pos, roll as int)),
        match final(world).fovs@[e.index as int] {
            Some(f) => f.is_dirty && f.radius == MONSTER_SIGHT && f.visible_tiles@.len() == 0,
            None => false,
        },
        match final(world).names@[e.index as int] {
            Some(n) => n.0@ == if rolls_goblin(roll as int) {
                "Goblin"@
            } else {
                "Orc"@
            },
            None => false,
        },
{
    let goblin: bool = 1 <= roll && roll <= 8;
    let hp: i32 = if goblin {
        1
    } else {
        2
    };
    let glyph: u16 = if goblin {
        glyph_of('g')
    } else {
        glyph_of('o')
    };
    let name: String = if goblin {
        "Goblin".to_owned()
    } else {
        "Orc".to_owned()
    };
    let parts = Components {
        position: pos,
        health: Some(Health { current: hp, max: hp }),
        render: Some(Render { color: ColorPair { fg: (255, 255, 255), bg: (0, 0, 0) }, glyph }),
        player: None,
        enemy: Some(Enemy),
        item: None,
        amulet: None,
        moving_randomly: None,
        chasing_player: Some(ChasingPlayer),
    };
    world.spawn(parts, Some(Name(name)), Some(FieldOfView::new(MONSTER_SIGHT)))
}

/// Adds a monster at `pos`, its kind decided by the roll of a ten-sided
/// die: whatever the roll, the new entity is an enemy that hunts the
/// player.
pub fn spawn_monster(
    world: &mut World,
    rng: &mut bracket_lib::prelude::RandomNumberGenerator,
    pos: Point,
) -> (e: Entity)
    requires
        old(world).wf(),
        in_grid(pos),
    ensures
        final(world).wf(),
        exists|roll: int|
            1 <= roll <= 10 && #[trigger] spawned(
                old(world),
                final(world),
                e,
                monster_parts(pos, roll),
            ),
        match final(world).fovs@[e.index as int] {
            Some(f) => f.is_dirty && f.radius == MONSTER_SIGHT && f.visible_tiles@.len() == 0,
            None => false,
        },
{
    let roll: i32 = draw_range(rng, 1, 11);
    let e = spawn_monster_of(world, pos, roll);
    assert(spawned(old(world), world, e, monster_parts(pos, roll as int)));
    e
}

} // verus!
