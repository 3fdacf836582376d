use bracket_lib::prelude::RandomNumberGenerator;
use dungeoncrawl::components::{Entity, Health, WantsToAttack, WantsToMove};
use dungeoncrawl::game::Game;
use dungeoncrawl::geometry::Point;
use dungeoncrawl::map::{TileMap, TileType, map_idx};
use dungeoncrawl::map_builder::themes::MapTheme;
use dungeoncrawl::spawner::{spawn_amulet_of_yala, spawn_monster_of, spawn_player};
use dungeoncrawl::systems::combat::combat;
use dungeoncrawl::systems::end_turn::end_turn;
use dungeoncrawl::systems::movement::movement;
use dungeoncrawl::systems::player_input::{player_input, Key};
use dungeoncrawl::turn_state::{GameError, TurnState};
use dungeoncrawl::world::World;

fn open_game(player_at: Point, amulet_at: Point) -> (Game, Entity, Entity) {
    let mut world = World::new();
    let player = spawn_player(&mut world, player_at);
    let amulet = spawn_amulet_of_yala(&mut world, amulet_at);
    let game = Game {
        world,
        map: TileMap::new(),
        turn_state: TurnState::AwaitingInput,
        theme: MapTheme::Dungeon,
        rng: RandomNumberGenerator::seeded(7),
    };
    (game, player, amulet)
}

#[test]
fn waiting_at_full_health_changes_nothing() {
    let (mut game, player, _) = open_game(Point::new(10, 10), Point::new(70, 40));
    assert_eq!(game.tick(None), Ok(()));
    assert_eq!(game.turn_state, TurnState::AwaitingInput);
    assert_eq!(game.world.health(player), Some(Health { current: 10, max: 10 }));
    assert!(game.world.moves.is_empty());
    assert!(game.world.attacks.is_empty());
}

#[test]
fn waiting_heals_one_point() {
    let (mut game, player, _) = open_game(Point::new(10, 10), Point::new(70, 40));
    assert!(game.world.set_health(player, Health { current: 5, max: 10 }));
    assert_eq!(game.tick(None), Ok(()));
    assert_eq!(game.turn_state, TurnState::AwaitingInput);
    assert_eq!(game.world.health(player), Some(Health { current: 6, max: 10 }));
}

#[test]
fn an_unknown_key_counts_as_waiting() {
    let (mut game, player, _) = open_game(Point::new(10, 10), Point::new(70, 40));
    assert!(game.world.set_health(player, Health { current: 9, max: 10 }));
    assert_eq!(game.tick(Some(Key::Other)), Ok(()));
    assert_eq!(game.turn_state, TurnState::AwaitingInput);
    assert_eq!(game.world.health(player), Some(Health { current: 10, max: 10 }));
    assert_eq!(game.tick(Some(Key::Confirm)), Ok(()));
    assert_eq!(game.turn_state, TurnState::AwaitingInput);
    assert_eq!(game.world.health(player), Some(Health { current: 10, max: 10 }));
}

#[test]
fn health_above_the_maximum_falls_back_to_it() {
    let (mut game, player, _) = open_game(Point::new(10, 10), Point::new(70, 40));
    assert!(game.world.set_health(player, Health { current: 12, max: 10 }));
    assert_eq!(game.tick(None), Ok(()));
    assert_eq!(game.world.health(player), Some(Health { current: 10, max: 10 }));
}

#[test]
fn right_key_moves_the_player_through_a_full_cycle() {
    let (mut game, player, _) = open_game(Point::new(10, 10), Point::new(70, 40));
    assert!(game.world.set_health(player, Health { current: 7, max: 10 }));

    assert_eq!(game.tick(Some(Key::Right)), Ok(()));
    assert_eq!(game.turn_state, TurnState::PlayerTurn);
    assert_eq!(
        game.world.moves,
        vec![WantsToMove { entity: player, destination: Point::new(11, 10) }]
    );
    assert!(game.world.attacks.is_empty());
    assert_eq!(game.world.position(player), Some(Point::new(10, 10)));

    assert_eq!(game.tick(None), Ok(()));
    assert_eq!(game.turn_state, TurnState::MonsterTurn);
    assert_eq!(game.world.position(player), Some(Point::new(11, 10)));
    assert!(game.world.moves.is_empty());

    assert_eq!(game.tick(None), Ok(()));
    assert_eq!(game.turn_state, TurnState::AwaitingInput);
    assert_eq!(game.world.position(player), Some(Point::new(11, 10)));
    assert_eq!(game.world.health(player), Some(Health { current: 7, max: 10 }));
}

#[test]
fn each_direction_key_has_its_step() {
    for (key, to) in [
        (Key::Left, Point::new(9, 10)),
        (Key::Right, Point::new(11, 10)),
        (Key::Up, Point::new(10, 9)),
        (Key::Down, Point::new(10, 11)),
    ] {
        let (mut game, player, _) = open_game(Point::new(10, 10), Point::new(70, 40));
        assert_eq!(game.tick(Some(key)), Ok(()));
        assert_eq!(game.world.moves, vec![WantsToMove { entity: player, destination: to }]);
    }
}

#[test]
fn stepping_toward_an_enemy_becomes_an_attack() {
    let (mut game, player, _) = open_game(Point::new(10, 10), Point::new(70, 40));
    let goblin = spawn_monster_of(&mut game.world, Point::new(11, 10), 1);
    assert_eq!(game.tick(Some(Key::Right)), Ok(()));
    assert_eq!(game.turn_state, TurnState::PlayerTurn);
    assert!(game.world.moves.is_empty());
    assert_eq!(game.world.attacks, vec![WantsToAttack { attacker: player, victim: goblin }]);
}

#[test]
fn bumping_into_a_wall_drops_the_move() {
    let (mut game, player, _) = open_game(Point::new(10, 10), Point::new(70, 40));
    game.map.set_tile(map_idx(11, 10), TileType::Wall);
    assert_eq!(game.tick(Some(Key::Right)), Ok(()));
    assert_eq!(game.tick(None), Ok(()));
    assert_eq!(game.world.position(player), Some(Point::new(10, 10)));
    assert!(game.world.moves.is_empty());
    assert_eq!(game.turn_state, TurnState::MonsterTurn);
}

#[test]
fn walking_off_the_grid_drops_the_move() {
    let (mut game, player, _) = open_game(Point::new(0, 0), Point::new(70, 40));
    assert_eq!(game.tick(Some(Key::Left)), Ok(()));
    assert_eq!(
        game.world.moves,
        vec![WantsToMove { entity: player, destination: Point::new(-1, 0) }]
    );
    assert_eq!(game.tick(None), Ok(()));
    assert_eq!(game.world.position(player), Some(Point::new(0, 0)));
}

#[test]
fn an_attack_removes_a_monster_with_one_hit_point() {
    let mut world = World::new();
    let player = spawn_player(&mut world, Point::new(10, 10));
    let goblin = spawn_monster_of(&mut world, Point::new(11, 10), 3);
    assert_eq!(world.health(goblin), Some(Health { current: 1, max: 1 }));
    world.attacks.push(WantsToAttack { attacker: player, victim: goblin });
    combat(&mut world);
    assert!(!world.is_alive(goblin));
    assert_eq!(world.health(goblin), None);
    assert!(world.attacks.is_empty());
    assert!(world.is_alive(player));
}

#[test]
fn an_attack_wounds_a_monster_with_two_hit_points() {
    let mut world = World::new();
    let player = spawn_player(&mut world, Point::new(10, 10));
    let orc = spawn_monster_of(&mut world, Point::new(11, 10), 9);
    assert_eq!(world.health(orc), Some(Health { current: 2, max: 2 }));
    world.attacks.push(WantsToAttack { attacker: player, victim: orc });
    combat(&mut world);
    assert!(world.is_alive(orc));
    assert_eq!(world.health(orc), Some(Health { current: 1, max: 2 }));
    world.attacks.push(WantsToAttack { attacker: player, victim: orc });
    combat(&mut world);
    assert!(!world.is_alive(orc));
}

#[test]
fn an_attack_on_the_player_costs_one_point_and_the_game_goes_on() {
    let mut world = World::new();
    let player = spawn_player(&mut world, Point::new(10, 10));
    spawn_amulet_of_yala(&mut world, Point::new(70, 40));
    let goblin = spawn_monster_of(&mut world, Point::new(11, 10), 1);
    assert!(world.set_health(player, Health { current: 5, max: 10 }));
    world.attacks.push(WantsToAttack { attacker: goblin, victim: player });
    combat(&mut world);
    assert_eq!(world.health(player), Some(Health { current: 4, max: 10 }));
    assert!(world.is_alive(player));
    assert!(world.attacks.is_empty());
    let mut state = TurnState::MonsterTurn;
    assert_eq!(end_turn(&world, &mut state), Ok(()));
    assert_eq!(state, TurnState::AwaitingInput);
}

#[test]
fn the_player_is_never_removed_by_an_attack() {
    let mut world = World::new();
    let player = spawn_player(&mut world, Point::new(10, 10));
    let goblin = spawn_monster_of(&mut world, Point::new(11, 10), 1);
    assert!(world.set_health(player, Health { current: 1, max: 10 }));
    world.attacks.push(WantsToAttack { attacker: goblin, victim: player });
    world.attacks.push(WantsToAttack { attacker: goblin, victim: player });
    combat(&mut world);
    assert!(world.is_alive(player));
    assert_eq!(world.health(player), Some(Health { current: -1, max: 10 }));
}

#[test]
fn a_second_attack_on_a_dead_monster_is_dropped() {
    let mut world = World::new();
    let player = spawn_player(&mut world, Point::new(10, 10));
    let goblin = spawn_monster_of(&mut world, Point::new(11, 10), 1);
    world.attacks.push(WantsToAttack { attacker: player, victim: goblin });
    world.attacks.push(WantsToAttack { attacker: player, victim: goblin });
    combat(&mut world);
    assert!(!world.is_alive(goblin));
    assert!(world.attacks.is_empty());
    assert_eq!(world.health(player), Some(Health { current: 10, max: 10 }));
}

#[test]
fn an_attack_on_something_without_hit_points_does_nothing() {
    let mut world = World::new();
    let player = spawn_player(&mut world, Point::new(10, 10));
    let amulet = spawn_amulet_of_yala(&mut world, Point::new(11, 10));
    world.attacks.push(WantsToAttack { attacker: player, victim: amulet });
    combat(&mut world);
    assert!(world.is_alive(amulet));
    assert!(world.attacks.is_empty());
}

#[test]
fn the_move_of_a_dead_monster_is_dropped() {
    let mut world = World::new();
    let player = spawn_player(&mut world, Point::new(10, 10));
    let goblin = spawn_monster_of(&mut world, Point::new(20, 10), 1);
    world.attacks.push(WantsToAttack { attacker: player, victim: goblin });
    world.moves.push(WantsToMove { entity: goblin, destination: Point::new(21, 10) });
    combat(&mut world);
    movement(&mut world, &TileMap::new());
    assert!(world.moves.is_empty());
    assert_eq!(world.position(goblin), None);
    let reborn = spawn_monster_of(&mut world, Point::new(30, 10), 1);
    assert_eq!(reborn.index, goblin.index);
    assert_ne!(reborn.generation, goblin.generation);
    assert!(!world.is_alive(goblin));
    assert_eq!(world.position(reborn), Some(Point::new(30, 10)));
}

#[test]
fn the_last_of_two_moves_of_one_entity_wins() {
    let mut world = World::new();
    let player = spawn_player(&mut world, Point::new(10, 10));
    world.moves.push(WantsToMove { entity: player, destination: Point::new(11, 10) });
    world.moves.push(WantsToMove { entity: player, destination: Point::new(10, 11) });
    movement(&mut world, &TileMap::new());
    assert_eq!(world.position(player), Some(Point::new(10, 11)));
}

#[test]
fn a_move_marks_the_field_of_view_as_out_of_date() {
    let (mut game, player, _) = open_game(Point::new(10, 10), Point::new(70, 40));
    assert_eq!(game.tick(None), Ok(()));
    let seen = game.world.fovs[player.index].clone().unwrap();
    assert!(!seen.is_dirty);
    assert!(seen.contains(Point::new(10, 10)));
    game.world.moves.push(WantsToMove { entity: player, destination: Point::new(11, 10) });
    movement(&mut game.world, &game.map);
    let stale = game.world.fovs[player.index].clone().unwrap();
    assert!(stale.is_dirty);
    assert_eq!(stale.radius, seen.radius);
    assert!(stale.visible_tiles.is_empty());
}

#[test]
fn a_dead_player_ends_the_game() {
    let (mut game, player, _) = open_game(Point::new(10, 10), Point::new(70, 40));
    game.turn_state = TurnState::PlayerTurn;
    assert!(game.world.set_health(player, Health { current: 0, max: 10 }));
    assert_eq!(game.tick(None), Ok(()));
    assert_eq!(game.turn_state, TurnState::GameOver);
}

#[test]
fn a_dead_player_ends_the_game_in_the_monsters_turn() {
    let (mut game, player, _) = open_game(Point::new(10, 10), Point::new(70, 40));
    game.turn_state = TurnState::MonsterTurn;
    assert!(game.world.set_health(player, Health { current: 0, max: 10 }));
    assert_eq!(game.tick(None), Ok(()));
    assert_eq!(game.turn_state, TurnState::GameOver);
}

#[test]
fn standing_on_the_amulet_wins_the_game() {
    let (mut game, player, _) = open_game(Point::new(10, 10), Point::new(11, 10));
    assert_eq!(game.tick(Some(Key::Right)), Ok(()));
    assert_eq!(game.turn_state, TurnState::PlayerTurn);
    assert_eq!(game.tick(None), Ok(()));
    assert_eq!(game.world.position(player), Some(Point::new(11, 10)));
    assert_eq!(game.turn_state, TurnState::Victory);
}

#[test]
fn death_comes_before_victory() {
    let (mut game, player, _) = open_game(Point::new(10, 10), Point::new(10, 10));
    game.turn_state = TurnState::PlayerTurn;
    assert!(game.world.set_health(player, Health { current: 0, max: 10 }));
    assert_eq!(game.tick(None), Ok(()));
    assert_eq!(game.turn_state, TurnState::GameOver);
}

#[test]
fn nothing_is_evaluated_while_input_is_awaited() {
    let mut world = World::new();
    let player = spawn_player(&mut world, Point::new(10, 10));
    assert!(world.set_health(player, Health { current: 0, max: 10 }));
    let mut state = TurnState::AwaitingInput;
    assert_eq!(end_turn(&world, &mut state), Ok(()));
    assert_eq!(state, TurnState::AwaitingInput);
}

#[test]
fn a_finished_game_waits_for_the_confirm_key() {
    let (mut game, player, _) = open_game(Point::new(10, 10), Point::new(70, 40));
    game.turn_state = TurnState::GameOver;
    assert_eq!(game.tick(Some(Key::Right)), Ok(()));
    assert_eq!(game.turn_state, TurnState::GameOver);
    assert_eq!(game.world.position(player), Some(Point::new(10, 10)));
    assert!(game.world.moves.is_empty());
    game.turn_state = TurnState::Victory;
    assert_eq!(game.tick(None), Ok(()));
    assert_eq!(game.turn_state, TurnState::Victory);
}

#[test]
fn a_missing_player_is_an_error() {
    let mut world = World::new();
    spawn_amulet_of_yala(&mut world, Point::new(70, 40));
    let mut state = TurnState::AwaitingInput;
    assert_eq!(
        player_input(&mut world, Some(Key::Right), &mut state),
        Err(GameError::MissingPlayer)
    );
    assert_eq!(state, TurnState::AwaitingInput);
    assert!(world.moves.is_empty());
    let mut state = TurnState::PlayerTurn;
    assert_eq!(end_turn(&world, &mut state), Err(GameError::MissingPlayer));
    assert_eq!(state, TurnState::PlayerTurn);
}

#[test]
fn a_missing_amulet_is_an_error() {
    let mut world = World::new();
    spawn_player(&mut world, Point::new(10, 10));
    let mut state = TurnState::MonsterTurn;
    assert_eq!(end_turn(&world, &mut state), Err(GameError::MissingAmulet));
    assert_eq!(state, TurnState::MonsterTurn);
}

#[test]
fn a_monsters_turn_without_a_player_fails_and_changes_nothing() {
    let mut world = World::new();
    spawn_amulet_of_yala(&mut world, Point::new(70, 40));
    let goblin = spawn_monster_of(&mut world, Point::new(20, 20), 1);
    let mut game = Game {
        world,
        map: TileMap::new(),
        turn_state: TurnState::MonsterTurn,
        theme: MapTheme::Forest,
        rng: RandomNumberGenerator::seeded(3),
    };
    assert_eq!(game.tick(None), Err(GameError::MissingPlayer));
    assert_eq!(game.turn_state, TurnState::MonsterTurn);
    assert_eq!(game.world.position(goblin), Some(Point::new(20, 20)));
    assert!(game.world.moves.is_empty());
}

#[test]
fn the_confirm_key_starts_a_finished_game_anew() {
    for finished in [TurnState::GameOver, TurnState::Victory] {
        let (mut game, player, _) = open_game(Point::new(10, 10), Point::new(70, 40));
        assert!(game.world.set_health(player, Health { current: 0, max: 10 }));
        game.map.mark_revealed(map_idx(10, 10));
        game.turn_state = finished;
        match game.tick(Some(Key::Confirm)) {
            Ok(()) => {
                assert_eq!(game.turn_state, TurnState::AwaitingInput);
                assert_eq!(game.world.len(), 52);
                assert!(game.map.revealed_tiles.iter().all(|seen| !*seen));
                let fresh = game.world.find(dungeoncrawl::world::Query::Player).unwrap();
                assert_eq!(game.world.health(fresh), Some(Health { current: 10, max: 10 }));
                assert!(game.world.moves.is_empty() && game.world.attacks.is_empty());
            }
            Err(e) => {
                assert!(e == GameError::GenerationExhausted || e == GameError::SpawnExhausted);
                assert_eq!(game.turn_state, finished);
                assert_eq!(game.world.len(), 2);
            }
        }
    }
}

