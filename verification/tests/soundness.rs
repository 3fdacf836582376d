use bracket_lib::prelude::RandomNumberGenerator;
use dungeoncrawl::components::{Health, Name, WantsToAttack, WantsToMove};
use dungeoncrawl::fov::field_of_view_set;
use dungeoncrawl::game::{all_remembered, all_within, no_repeats, shows_now, Game};
use dungeoncrawl::geometry::Point;
use dungeoncrawl::map::{map_idx, TileMap, TileType};
use dungeoncrawl::map_builder::themes::MapTheme;
use dungeoncrawl::map_builder::{
    dug_cave, fallback_for, grown_cave, lay_out, open_ground, rooms_and_corridors, Architect,
};
use dungeoncrawl::spawner::{spawn_amulet_of_yala, spawn_monster_of, spawn_player};
use dungeoncrawl::systems::player_input::Key;
use dungeoncrawl::turn_state::{GameError, TurnState};
use dungeoncrawl::world::World;

fn small_game() -> Game {
    let mut world = World::new();
    spawn_player(&mut world, Point::new(10, 10));
    spawn_amulet_of_yala(&mut world, Point::new(70, 40));
    spawn_monster_of(&mut world, Point::new(14, 10), 9);
    Game {
        world,
        map: TileMap::new(),
        turn_state: TurnState::AwaitingInput,
        theme: MapTheme::Dungeon,
        rng: RandomNumberGenerator::seeded(3),
    }
}

#[test]
fn only_the_builder_of_rooms_has_someone_to_take_over() {
    assert_eq!(
        fallback_for(Architect::Rooms, GameError::GenerationExhausted),
        Some(Architect::DrunkardsWalk)
    );
    assert_eq!(fallback_for(Architect::Rooms, GameError::SpawnExhausted), None);
    for architect in [Architect::Empty, Architect::DrunkardsWalk, Architect::CellularAutomata] {
        for e in [
            GameError::GenerationExhausted,
            GameError::SpawnExhausted,
            GameError::MissingPlayer,
            GameError::MissingAmulet,
        ] {
            assert_eq!(fallback_for(architect, e), None);
        }
    }
}

#[test]
fn each_architect_is_what_laying_out_calls() {
    let open = open_ground();
    assert!(open.map.tiles.iter().all(|t| *t == TileType::Floor));
    assert_eq!(open.player_start, Point::new(40, 25));
    assert!(open.rooms.is_empty());
    for seed in 0..3u64 {
        let a = lay_out(Architect::Rooms, &mut RandomNumberGenerator::seeded(seed));
        let b = rooms_and_corridors(&mut RandomNumberGenerator::seeded(seed));
        match (a, b) {
            (Ok(a), Ok(b)) => {
                assert_eq!(a.map.tiles, b.map.tiles);
                assert_eq!(a.rooms, b.rooms);
                assert_eq!(a.player_start, b.player_start);
            }
            (Err(a), Err(b)) => assert_eq!(a, b),
            _ => panic!("the two differ"),
        }
        let a = lay_out(Architect::DrunkardsWalk, &mut RandomNumberGenerator::seeded(seed));
        let b = dug_cave(&mut RandomNumberGenerator::seeded(seed));
        match (a, b) {
            (Ok(a), Ok(b)) => assert_eq!(a.map.tiles, b.map.tiles),
            (Err(a), Err(b)) => assert_eq!(a, b),
            _ => panic!("the two differ"),
        }
        let a = lay_out(Architect::CellularAutomata, &mut RandomNumberGenerator::seeded(seed));
        let b = grown_cave(&mut RandomNumberGenerator::seeded(seed));
        match (a, b) {
            (Ok(a), Ok(b)) => {
                assert_eq!(a.map.tiles, b.map.tiles);
                assert_eq!(a.player_start, b.player_start);
            }
            (Err(a), Err(b)) => assert_eq!(a, b),
            _ => panic!("the two differ"),
        }
    }
}

#[test]
fn a_registry_is_sound_until_it_is_tampered_with() {
    let mut world = World::new();
    assert!(world.is_sound());
    let player = spawn_player(&mut world, Point::new(10, 10));
    let goblin = spawn_monster_of(&mut world, Point::new(11, 10), 1);
    assert!(world.is_sound());
    world.attacks.push(WantsToAttack { attacker: player, victim: goblin });
    world.moves.push(WantsToMove { entity: player, destination: Point::new(-5, 0) });
    assert!(world.is_sound());
    assert!(world.despawn(goblin));
    assert!(world.is_sound());

    let mut longer = world.clone();
    longer.names.push(None);
    assert!(!longer.is_sound());

    let mut shorter = world.clone();
    shorter.fovs.pop();
    assert!(!shorter.is_sound());

    let mut astray = world.clone();
    astray.slots[player.index].parts.position = Point::new(80, 10);
    assert!(!astray.is_sound());
    astray.slots[player.index].parts.position = Point::new(79, 49);
    assert!(astray.is_sound());
    astray.slots[player.index].parts.position = Point::new(3, -1);
    assert!(!astray.is_sound());

    let mut worn = world.clone();
    worn.slots[player.index].generation = u32::MAX;
    assert!(!worn.is_sound());

    let mut haunted = world.clone();
    haunted.names[goblin.index] = Some(Name("Ghost".to_string()));
    assert!(!haunted.is_sound());

    // where the dead stood does not matter
    let mut buried = world.clone();
    buried.slots[goblin.index].parts.position = Point::new(-1, -1);
    buried.slots[goblin.index].generation = u32::MAX;
    assert!(buried.is_sound());
}

#[test]
fn a_map_is_sound_while_it_is_complete() {
    let mut map = TileMap::new();
    assert!(map.is_sound());
    map.set_tile(map_idx(3, 3), TileType::Wall);
    map.mark_revealed(map_idx(3, 3));
    assert!(map.is_sound());
    map.tiles.pop();
    assert!(!map.is_sound());
    map.tiles.push(TileType::Floor);
    map.revealed_tiles.push(false);
    assert!(!map.is_sound());
}

#[test]
fn lists_of_points_are_compared_as_sets() {
    let a = vec![Point::new(1, 1), Point::new(2, 2)];
    let b = vec![Point::new(2, 2), Point::new(3, 3), Point::new(1, 1)];
    assert!(all_within(&a, &b));
    assert!(!all_within(&b, &a));
    assert!(all_within(&Vec::new(), &a));
    assert!(!all_within(&a, &Vec::new()));
    assert!(all_within(&a, &a));
    assert!(no_repeats(&a));
    assert!(no_repeats(&b));
    assert!(no_repeats(&Vec::new()));
    assert!(!no_repeats(&vec![Point::new(1, 1), Point::new(2, 2), Point::new(1, 1)]));
    assert!(!no_repeats(&vec![Point::new(4, 4), Point::new(4, 4)]));
    let mut map = TileMap::new();
    assert!(all_remembered(&map, &Vec::new()));
    assert!(!all_remembered(&map, &a));
    map.mark_revealed(map_idx(1, 1));
    assert!(!all_remembered(&map, &a));
    map.mark_revealed(map_idx(2, 2));
    assert!(all_remembered(&map, &a));
    assert!(!all_remembered(&map, &b));
}

#[test]
fn a_field_of_view_is_held_against_what_is_seen_now() {
    let mut game = small_game();
    assert!(game.is_sound());
    assert_eq!(game.tick(None), Ok(()));
    assert!(game.is_sound());
    let player = game.world.find(dungeoncrawl::world::Query::Player).unwrap();
    let eye = Point::new(10, 10);
    let seen = game.world.fovs[player.index].clone().unwrap();
    assert!(shows_now(&seen, &game.map, eye));
    assert!(!shows_now(&seen, &game.map, Point::new(11, 10)));

    // the same tiles in another order are the same sight
    let mut turned = seen.clone();
    turned.visible_tiles.reverse();
    assert!(shows_now(&turned, &game.map, eye));

    let mut less = seen.clone();
    less.visible_tiles.pop();
    assert!(!shows_now(&less, &game.map, eye));

    let mut more = seen.clone();
    more.visible_tiles.push(Point::new(60, 40));
    assert!(!shows_now(&more, &game.map, eye));

    let mut twice = seen.clone();
    twice.visible_tiles.push(eye);
    assert!(!shows_now(&twice, &game.map, eye));

    let mut near = seen.clone();
    near.radius = 7;
    assert!(!shows_now(&near, &game.map, eye));
    near.visible_tiles = field_of_view_set(eye, 7, &game.map);
    assert!(shows_now(&near, &game.map, eye));

    // a wall that was not there when the field was computed
    let mut walled = game.map.clone();
    walled.set_tile(map_idx(12, 10), TileType::Wall);
    assert!(!shows_now(&seen, &walled, eye));

    // a tile in sight that the map has forgotten
    let mut forgetful = game.map.clone();
    forgetful.revealed_tiles[map_idx(12, 10)] = false;
    assert!(!shows_now(&seen, &forgetful, eye));
}

#[test]
fn a_game_is_sound_until_it_is_tampered_with() {
    let mut game = small_game();
    assert_eq!(game.tick(Some(Key::Right)), Ok(()));
    assert!(game.is_sound());
    assert_eq!(game.tick(None), Ok(()));
    assert!(game.is_sound());
    assert_eq!(game.tick(None), Ok(()));
    assert!(game.is_sound());
    let player = game.world.find(dungeoncrawl::world::Query::Player).unwrap();

    // moved by hand, the player's field of view is stale without saying so
    game.world.slots[player.index].parts.position = Point::new(30, 30);
    assert!(!game.is_sound());
    let mut honest = game.world.fovs[player.index].clone().unwrap();
    honest.is_dirty = true;
    game.world.fovs[player.index] = Some(honest);
    assert!(game.is_sound());
    assert_eq!(game.tick(None), Ok(()));
    assert!(game.is_sound());

    game.map.revealed_tiles[map_idx(30, 30)] = false;
    assert!(!game.is_sound());
    game.map.revealed_tiles[map_idx(30, 30)] = true;
    assert!(game.is_sound());
    game.map.tiles.pop();
    assert!(!game.is_sound());
    game.map.tiles.push(TileType::Floor);
    game.world.names.pop();
    assert!(!game.is_sound());
}

#[test]
fn a_game_with_its_player_and_amulet_never_fails_and_leaves_nothing_pending() {
    let mut game = small_game();
    let player = game.world.find(dungeoncrawl::world::Query::Player).unwrap();
    let amulet = game.world.find(dungeoncrawl::world::Query::Amulet).unwrap();
    let keys = [Some(Key::Right), None, None, Some(Key::Up), None, None, None, Some(Key::Left)];
    for round in 0..40 {
        let before = game.turn_state;
        // monsters strike at everybody, the amulet included
        if before == TurnState::PlayerTurn {
            game.world.attacks.push(WantsToAttack { attacker: player, victim: amulet });
            game.world.attacks.push(WantsToAttack { attacker: amulet, victim: player });
        }
        assert_eq!(game.tick(keys[round % keys.len()]), Ok(()));
        assert!(game.world.is_alive(player));
        assert!(game.world.is_alive(amulet));
        if before == TurnState::PlayerTurn || before == TurnState::MonsterTurn {
            assert!(game.world.moves.is_empty() && game.world.attacks.is_empty());
        }
        if game.turn_state == TurnState::GameOver {
            assert!(game.world.health(player).unwrap().current < 1);
            assert!(game.world.set_health(player, Health { current: 10, max: 10 }));
            game.turn_state = TurnState::AwaitingInput;
        }
    }
}
