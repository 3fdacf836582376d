use bracket_lib::prelude::RandomNumberGenerator;
use dungeoncrawl::components::FieldOfView;
use dungeoncrawl::fov::{field_of_view_set, line_of_sight};
use dungeoncrawl::game::Game;
use dungeoncrawl::geometry::Point;
use dungeoncrawl::map::{index_to_point, map_idx, TileMap, TileType};
use dungeoncrawl::map_builder::themes::MapTheme;
use dungeoncrawl::spawner::{spawn_amulet_of_yala, spawn_player};
use dungeoncrawl::systems::fov::fov;
use dungeoncrawl::systems::player_input::Key;
use dungeoncrawl::turn_state::TurnState;
use dungeoncrawl::world::World;

#[test]
fn new_fields_of_view_are_out_of_date() {
    let f = FieldOfView::new(8);
    assert!(f.is_dirty);
    assert_eq!(f.radius, 8);
    assert!(f.visible_tiles.is_empty());
    let mut g = FieldOfView::new(3);
    g.visible_tiles.push(Point::new(1, 1));
    g.is_dirty = false;
    let h = g.clone_dirty();
    assert!(h.is_dirty);
    assert_eq!(h.radius, 3);
    assert!(h.visible_tiles.is_empty());
    assert!(g.contains(Point::new(1, 1)));
    assert!(!g.contains(Point::new(1, 2)));
}

#[test]
fn on_open_ground_sight_is_a_disc() {
    let map = TileMap::new();
    let eye = Point::new(40, 25);
    let seen = field_of_view_set(eye, 8, &map);
    for idx in 0..4000 {
        let p = index_to_point(idx);
        let d2 = (p.x - 40) * (p.x - 40) + (p.y - 25) * (p.y - 25);
        assert_eq!(seen.contains(&p), d2 <= 64, "{:?}", p);
    }
    let mut sorted = seen.clone();
    sorted.sort_by_key(|p| map_idx(p.x, p.y));
    sorted.dedup();
    assert_eq!(sorted.len(), seen.len());
}

#[test]
fn radius_zero_sees_only_the_own_tile_and_a_negative_one_nothing() {
    let map = TileMap::new();
    assert_eq!(field_of_view_set(Point::new(5, 5), 0, &map), vec![Point::new(5, 5)]);
    assert_eq!(field_of_view_set(Point::new(5, 5), -1, &map), vec![]);
    assert_eq!(field_of_view_set(Point::new(5, 5), 1_000_000, &map).len(), 4000);
}

#[test]
fn sight_is_cut_at_the_edge_of_the_grid() {
    let map = TileMap::new();
    let seen = field_of_view_set(Point::new(0, 0), 2, &map);
    assert_eq!(
        seen,
        vec![
            Point::new(0, 0),
            Point::new(1, 0),
            Point::new(2, 0),
            Point::new(0, 1),
            Point::new(1, 1),
            Point::new(0, 2),
        ]
    );
}

#[test]
fn a_wall_is_seen_and_hides_what_lies_behind() {
    let mut map = TileMap::new();
    for y in 0..50 {
        map.set_tile(map_idx(43, y), TileType::Wall);
    }
    let eye = Point::new(40, 25);
    let seen = field_of_view_set(eye, 8, &map);
    assert!(seen.contains(&Point::new(42, 25)));
    assert!(seen.contains(&Point::new(43, 25)));
    assert!(seen.contains(&Point::new(43, 22)));
    assert!(!seen.contains(&Point::new(44, 25)));
    assert!(!seen.contains(&Point::new(45, 24)));
    assert!(seen.contains(&Point::new(36, 25)));
    assert!(line_of_sight(&map, eye, Point::new(43, 25)));
    assert!(!line_of_sight(&map, eye, Point::new(44, 25)));
    assert!(line_of_sight(&map, eye, eye));
    assert!(line_of_sight(&map, eye, Point::new(41, 26)));
}

#[test]
fn a_diagonal_line_passes_through_the_diagonal_tiles() {
    let mut map = TileMap::new();
    map.set_tile(map_idx(12, 12), TileType::Wall);
    let eye = Point::new(10, 10);
    assert!(line_of_sight(&map, eye, Point::new(12, 12)));
    assert!(!line_of_sight(&map, eye, Point::new(13, 13)));
    assert!(!line_of_sight(&map, eye, Point::new(14, 14)));
    assert!(line_of_sight(&map, eye, Point::new(14, 10)));
    // the line to (14, 12) passes (11, 11), (12, 11) and (13, 12), not the wall
    assert!(line_of_sight(&map, eye, Point::new(14, 12)));
}

#[test]
fn the_system_refreshes_stale_fields_and_remembers_what_was_seen() {
    let mut world = World::new();
    let player = spawn_player(&mut world, Point::new(10, 10));
    let amulet = spawn_amulet_of_yala(&mut world, Point::new(30, 30));
    let mut map = TileMap::new();
    fov(&mut world, &mut map);
    let seen = world.fovs[player.index].clone().unwrap();
    assert!(!seen.is_dirty);
    assert_eq!(seen.radius, 8);
    assert_eq!(seen.visible_tiles, field_of_view_set(Point::new(10, 10), 8, &map));
    assert!(world.fovs[amulet.index].is_none());
    for idx in 0..4000 {
        let p = index_to_point(idx);
        assert_eq!(map.revealed_tiles[idx], seen.visible_tiles.contains(&p));
    }
    // a field that is up to date is left alone
    let mut planted = seen.clone();
    planted.visible_tiles = vec![Point::new(1, 1)];
    world.fovs[player.index] = Some(planted);
    fov(&mut world, &mut map);
    assert_eq!(
        world.fovs[player.index].clone().unwrap().visible_tiles,
        vec![Point::new(1, 1)]
    );
}

#[test]
fn exploring_adds_to_the_memory_and_never_takes_away() {
    let mut world = World::new();
    let player = spawn_player(&mut world, Point::new(10, 10));
    spawn_amulet_of_yala(&mut world, Point::new(70, 40));
    let mut game = Game {
        world,
        map: TileMap::new(),
        turn_state: TurnState::AwaitingInput,
        theme: MapTheme::Dungeon,
        rng: RandomNumberGenerator::seeded(11),
    };
    assert_eq!(game.tick(None), Ok(()));
    let first: Vec<bool> = game.map.revealed_tiles.clone();
    assert!(first[map_idx(18, 10)]);
    assert!(!first[map_idx(19, 10)]);
    for _ in 0..3 {
        assert_eq!(game.tick(Some(Key::Right)), Ok(()));
        assert_eq!(game.tick(None), Ok(()));
        assert_eq!(game.tick(None), Ok(()));
    }
    assert_eq!(game.world.position(player), Some(Point::new(13, 10)));
    let later = &game.map.revealed_tiles;
    assert!(later[map_idx(21, 10)]);
    assert!(!later[map_idx(22, 10)]);
    for idx in 0..4000 {
        assert!(!first[idx] || later[idx]);
    }
    let seen = game.world.fovs[player.index].clone().unwrap();
    assert!(!seen.is_dirty);
    assert_eq!(seen.visible_tiles, field_of_view_set(Point::new(13, 10), 8, &game.map));
}
