use bracket_lib::prelude::RandomNumberGenerator;
use dungeoncrawl::game::Game;
use dungeoncrawl::geometry::{Point, Rect};
use dungeoncrawl::map::{map_idx, TileMap, TileType};
use dungeoncrawl::map_builder::automata::{
    count_neighbors, find_start, grow_cave, iteration, measure_region,
};
use dungeoncrawl::map_builder::drunkard::{
    count_floor, dig_cave, drunkard, prune_unreachable, stagger,
};
use dungeoncrawl::map_builder::placement::{
    find_most_distant, spawn_candidates, spawn_monsters, take_spawn,
};
use dungeoncrawl::map_builder::prefab::{apply_prefab, fits, place_fortress, stamp};
use dungeoncrawl::map_builder::rooms::{
    apply_horizontal_tunnel, apply_vertical_tunnel, build_corridors, build_random_rooms,
    build_rooms_within, carve_room, dig_corridor, place_room, sorted_by_center,
};
use dungeoncrawl::map_builder::themes::{glyph_of, MapTheme};
use dungeoncrawl::map_builder::{architect_for, lay_out, theme_for, Architect, MapBuilder};
use dungeoncrawl::pathfinding::{FlowField, MAX_DEPTH, UNREACHABLE};
use dungeoncrawl::turn_state::{GameError, TurnState};

fn floor_tiles(map: &TileMap) -> usize {
    map.tiles.iter().filter(|t| **t == TileType::Floor).count()
}

fn check_finished(mb: &MapBuilder) {
    assert_eq!(mb.map.tiles.len(), 4000);
    assert_eq!(mb.map.revealed_tiles.len(), 4000);
    assert!(mb.map.revealed_tiles.iter().all(|r| !*r));
    for room in mb.rooms.iter() {
        assert!(room.x1 >= 1 && room.x2 <= 79, "{:?}", room);
        assert!(room.y1 >= 1 && room.y2 <= 49, "{:?}", room);
        assert!(room.x1 < room.x2 && room.y1 < room.y2);
    }
    assert!(mb.map.can_enter_tile(mb.player_start));
    assert_eq!(find_most_distant(&mb.map, mb.player_start), mb.amulet_start);
    let start = map_idx(mb.player_start.x, mb.player_start.y);
    let field = FlowField::new(&vec![start], &mb.map);
    let amulet = field.distances[map_idx(mb.amulet_start.x, mb.amulet_start.y)];
    assert!(amulet < MAX_DEPTH);
    for d in field.distances.iter() {
        assert!(*d == UNREACHABLE || *d <= amulet);
    }
    assert_eq!(mb.monster_spawns.len(), 50);
    for (i, p) in mb.monster_spawns.iter().enumerate() {
        assert!(mb.map.can_enter_tile(*p));
        let dx = p.x - mb.player_start.x;
        let dy = p.y - mb.player_start.y;
        assert!(dx * dx + dy * dy > 100);
        assert!(!mb.monster_spawns[..i].contains(p));
    }
}

#[test]
fn every_architect_finishes_a_sound_dungeon() {
    for seed in 0..6u64 {
        for architect in [
            Architect::Empty,
            Architect::Rooms,
            Architect::DrunkardsWalk,
            Architect::CellularAutomata,
        ] {
            let mut rng = RandomNumberGenerator::seeded(seed);
            match MapBuilder::build(architect, &mut rng) {
                Ok(mb) => check_finished(&mb),
                Err(e) => assert!(
                    e == GameError::GenerationExhausted || e == GameError::SpawnExhausted
                ),
            }
        }
    }
}

#[test]
fn new_dungeons_are_sound() {
    let mut built = 0;
    let mut themes = Vec::new();
    for seed in 0..12u64 {
        let mut rng = RandomNumberGenerator::seeded(seed);
        if let Ok(mb) = MapBuilder::new(&mut rng) {
            check_finished(&mb);
            built += 1;
            if !themes.contains(&mb.theme) {
                themes.push(mb.theme);
            }
        }
    }
    assert!(built >= 6);
    assert_eq!(themes.len(), 2);
}

#[test]
fn draws_stand_for_architects_and_themes() {
    assert_eq!(architect_for(0), Architect::DrunkardsWalk);
    assert_eq!(architect_for(1), Architect::Rooms);
    assert_eq!(architect_for(2), Architect::CellularAutomata);
    assert_eq!(theme_for(0), MapTheme::Dungeon);
    assert_eq!(theme_for(1), MapTheme::Forest);
}

#[test]
fn the_empty_architect_leaves_open_ground() {
    let mut rng = RandomNumberGenerator::seeded(1);
    let layout = lay_out(Architect::Empty, &mut rng).unwrap();
    assert_eq!(floor_tiles(&layout.map), 4000);
    assert_eq!(layout.player_start, Point::new(40, 25));
    assert!(layout.rooms.is_empty());
}

#[test]
fn rooms_are_apart_carved_and_joined() {
    let mut rng = RandomNumberGenerator::seeded(5);
    let layout = lay_out(Architect::Rooms, &mut rng).unwrap();
    assert_eq!(layout.rooms.len(), 20);
    for (i, a) in layout.rooms.iter().enumerate() {
        assert!(a.x2 - a.x1 >= 2 && a.x2 - a.x1 <= 9);
        assert!(a.y2 - a.y1 >= 2 && a.y2 - a.y1 <= 9);
        assert!(a.x1 >= 1 && a.x1 < 70 && a.y1 >= 1 && a.y1 < 40);
        for b in layout.rooms[..i].iter() {
            assert!(!a.intersect(b));
        }
        for y in a.y1..a.y2 {
            for x in a.x1..a.x2 {
                assert_eq!(layout.map.tiles[map_idx(x, y)], TileType::Floor);
            }
        }
    }
    assert_eq!(layout.player_start, layout.rooms[0].center());
    // the corridors join every room to the first, and nothing is cut off
    let start = map_idx(layout.player_start.x, layout.player_start.y);
    let field = FlowField::new(&vec![start], &layout.map);
    for room in layout.rooms.iter() {
        let c = room.center();
        assert!(field.distances[map_idx(c.x, c.y)] < MAX_DEPTH);
    }
    for idx in 0..4000 {
        assert_eq!(layout.map.tiles[idx] == TileType::Floor, field.distances[idx] != UNREACHABLE);
    }
    // the outermost ring is untouched
    for x in 0..80 {
        assert_eq!(layout.map.tiles[map_idx(x, 0)], TileType::Wall);
        assert_eq!(layout.map.tiles[map_idx(x, 49)], TileType::Wall);
    }
}

#[test]
fn a_room_is_placed_only_apart_from_the_others() {
    let mut map = TileMap::filled(TileType::Wall);
    let mut rooms = Vec::new();
    assert!(place_room(&mut map, &mut rooms, Rect::with_size(5, 5, 3, 2)));
    assert_eq!(floor_tiles(&map), 6);
    assert_eq!(map.tiles[map_idx(5, 5)], TileType::Floor);
    assert_eq!(map.tiles[map_idx(7, 6)], TileType::Floor);
    assert_eq!(map.tiles[map_idx(8, 6)], TileType::Wall);
    assert_eq!(map.tiles[map_idx(7, 7)], TileType::Wall);
    // touching counts as overlapping
    assert!(!place_room(&mut map, &mut rooms, Rect::with_size(8, 5, 3, 2)));
    assert!(!place_room(&mut map, &mut rooms, Rect::with_size(6, 6, 3, 3)));
    assert_eq!(floor_tiles(&map), 6);
    assert_eq!(rooms, vec![Rect::with_size(5, 5, 3, 2)]);
    assert!(place_room(&mut map, &mut rooms, Rect::with_size(9, 5, 3, 2)));
    assert_eq!(rooms.len(), 2);
    assert_eq!(floor_tiles(&map), 12);
}

#[test]
fn a_room_on_the_edge_leaves_the_first_row_and_column_alone() {
    let mut map = TileMap::filled(TileType::Wall);
    carve_room(&mut map, Rect::with_size(0, 0, 3, 3));
    assert_eq!(floor_tiles(&map), 4);
    assert_eq!(map.tiles[map_idx(0, 0)], TileType::Wall);
    assert_eq!(map.tiles[map_idx(1, 1)], TileType::Floor);
    assert_eq!(map.tiles[map_idx(2, 2)], TileType::Floor);
    carve_room(&mut map, Rect::with_size(78, 48, 5, 5));
    assert_eq!(floor_tiles(&map), 8);
    assert_eq!(map.tiles[map_idx(79, 49)], TileType::Floor);
}

#[test]
fn tunnels_run_between_both_ends_in_either_order() {
    let mut map = TileMap::filled(TileType::Wall);
    apply_horizontal_tunnel(&mut map, 7, 3, 2);
    assert_eq!(floor_tiles(&map), 5);
    for x in 3..=7 {
        assert_eq!(map.tiles[map_idx(x, 2)], TileType::Floor);
    }
    apply_vertical_tunnel(&mut map, 2, 6, 7);
    assert_eq!(floor_tiles(&map), 9);
    for y in 2..=6 {
        assert_eq!(map.tiles[map_idx(7, y)], TileType::Floor);
    }
    // what leaves the grid is cut off
    apply_horizontal_tunnel(&mut map, -5, 1, 10);
    assert_eq!(floor_tiles(&map), 11);
    apply_vertical_tunnel(&mut map, 48, 60, 100);
    assert_eq!(floor_tiles(&map), 11);
}

#[test]
fn a_corridor_bends_at_the_corner_that_the_flip_picks() {
    let from = Point::new(2, 2);
    let to = Point::new(5, 6);
    let mut row_first = TileMap::filled(TileType::Wall);
    dig_corridor(&mut row_first, from, to, true);
    assert_eq!(floor_tiles(&row_first), 8);
    assert_eq!(row_first.tiles[map_idx(5, 2)], TileType::Floor);
    assert_eq!(row_first.tiles[map_idx(2, 6)], TileType::Wall);
    let mut column_first = TileMap::filled(TileType::Wall);
    dig_corridor(&mut column_first, from, to, false);
    assert_eq!(floor_tiles(&column_first), 8);
    assert_eq!(column_first.tiles[map_idx(2, 6)], TileType::Floor);
    assert_eq!(column_first.tiles[map_idx(5, 2)], TileType::Wall);
}

#[test]
fn rooms_are_sorted_by_the_middle_column() {
    let rooms = vec![
        Rect::with_size(50, 5, 4, 4),
        Rect::with_size(10, 30, 4, 4),
        Rect::with_size(30, 1, 8, 2),
        Rect::with_size(1, 40, 2, 2),
    ];
    let sorted = sorted_by_center(&rooms);
    assert_eq!(
        sorted,
        vec![
            Rect::with_size(1, 40, 2, 2),
            Rect::with_size(10, 30, 4, 4),
            Rect::with_size(30, 1, 8, 2),
            Rect::with_size(50, 5, 4, 4),
        ]
    );
    assert_eq!(rooms[0], Rect::with_size(50, 5, 4, 4));
}

#[test]
fn corridors_join_neighbours_in_that_order() {
    let mut map = TileMap::filled(TileType::Wall);
    let rooms = vec![
        Rect::with_size(60, 10, 4, 4),
        Rect::with_size(10, 10, 4, 4),
        Rect::with_size(30, 30, 4, 4),
    ];
    let mut rng = RandomNumberGenerator::seeded(2);
    build_corridors(&mut map, &rooms, &mut rng);
    // from (12, 12) to (32, 32) and on to (62, 12): two bends of 41 and 51 tiles
    assert_eq!(floor_tiles(&map), 41 + 51 - 1);
    assert_eq!(map.tiles[map_idx(12, 12)], TileType::Floor);
    assert_eq!(map.tiles[map_idx(32, 32)], TileType::Floor);
    assert_eq!(map.tiles[map_idx(62, 12)], TileType::Floor);
    // no corridor runs straight from the first room to the last
    assert_eq!(map.tiles[map_idx(45, 12)], TileType::Wall);
}

#[test]
fn rooms_cannot_be_placed_within_too_small_a_budget() {
    let mut map = TileMap::filled(TileType::Wall);
    let mut rooms = Vec::new();
    let mut rng = RandomNumberGenerator::seeded(9);
    assert_eq!(
        build_rooms_within(&mut map, &mut rooms, &mut rng, 0),
        Err(GameError::GenerationExhausted)
    );
    assert!(rooms.is_empty());
    assert_eq!(floor_tiles(&map), 0);
    assert_eq!(
        build_rooms_within(&mut map, &mut rooms, &mut rng, 19),
        Err(GameError::GenerationExhausted)
    );
    assert!(!rooms.is_empty() && rooms.len() <= 19);
    let carved: i32 = rooms.iter().map(|r| (r.x2 - r.x1) * (r.y2 - r.y1)).sum();
    assert_eq!(floor_tiles(&map) as i32, carved);
}

#[test]
fn equal_middle_columns_keep_their_order() {
    let rooms = vec![
        Rect::with_size(10, 30, 4, 4),
        Rect::with_size(10, 5, 4, 4),
        Rect::with_size(2, 20, 4, 4),
        Rect::with_size(10, 12, 5, 3),
    ];
    assert_eq!(
        sorted_by_center(&rooms),
        vec![
            Rect::with_size(2, 20, 4, 4),
            Rect::with_size(10, 30, 4, 4),
            Rect::with_size(10, 5, 4, 4),
            Rect::with_size(10, 12, 5, 3),
        ]
    );
    assert_eq!(sorted_by_center(&Vec::new()), Vec::new());
}

#[test]
fn rooms_may_fail_only_with_the_named_error() {
    let mut map = TileMap::filled(TileType::Wall);
    let mut rooms = Vec::new();
    let mut rng = RandomNumberGenerator::seeded(9);
    match build_random_rooms(&mut map, &mut rooms, &mut rng) {
        Ok(()) => assert_eq!(rooms.len(), 20),
        Err(e) => {
            assert_eq!(e, GameError::GenerationExhausted);
            assert!(rooms.len() < 20);
        }
    }
}

#[test]
fn a_stagger_digs_and_steps() {
    let mut map = TileMap::filled(TileType::Wall);
    assert_eq!(stagger(&mut map, Point::new(5, 5), 0), Some(Point::new(4, 5)));
    assert_eq!(stagger(&mut map, Point::new(4, 5), 1), Some(Point::new(5, 5)));
    assert_eq!(stagger(&mut map, Point::new(5, 5), 2), Some(Point::new(5, 4)));
    assert_eq!(stagger(&mut map, Point::new(5, 4), 3), Some(Point::new(5, 5)));
    assert_eq!(floor_tiles(&map), 3);
    assert_eq!(stagger(&mut map, Point::new(0, 7), 0), None);
    assert_eq!(stagger(&mut map, Point::new(79, 49), 3), None);
    assert_eq!(map.tiles[map_idx(0, 7)], TileType::Floor);
    assert_eq!(count_floor(&map), 5);
}

#[test]
fn a_walk_digs_a_connected_path_of_bounded_length() {
    for seed in 0..5u64 {
        let mut map = TileMap::filled(TileType::Wall);
        let mut rng = RandomNumberGenerator::seeded(seed);
        drunkard(&mut map, Point::new(40, 25), &mut rng);
        let n = count_floor(&map);
        assert!(n >= 1 && n <= 401);
        assert_eq!(map.tiles[map_idx(40, 25)], TileType::Floor);
        let before = n;
        prune_unreachable(&mut map, Point::new(40, 25));
        assert_eq!(count_floor(&map), before);
    }
}

#[test]
fn pruning_walls_up_what_is_out_of_reach() {
    let mut map = TileMap::filled(TileType::Wall);
    for x in 1..10 {
        map.set_tile(map_idx(x, 1), TileType::Floor);
    }
    map.set_tile(map_idx(20, 20), TileType::Floor);
    map.set_tile(map_idx(21, 20), TileType::Floor);
    prune_unreachable(&mut map, Point::new(1, 1));
    assert_eq!(count_floor(&map), 9);
    assert_eq!(map.tiles[map_idx(20, 20)], TileType::Wall);
    assert_eq!(map.tiles[map_idx(9, 1)], TileType::Floor);
}

#[test]
fn a_cave_is_one_region_of_the_desired_size() {
    for seed in 0..3u64 {
        let mut map = TileMap::filled(TileType::Wall);
        let mut rng = RandomNumberGenerator::seeded(seed);
        let center = Point::new(40, 25);
        match dig_cave(&mut map, center, &mut rng) {
            Ok(()) => assert!(count_floor(&map) >= 1333),
            Err(e) => {
                assert_eq!(e, GameError::GenerationExhausted);
                assert!(count_floor(&map) < 1333);
            }
        }
        assert_eq!(map.tiles[map_idx(40, 25)], TileType::Floor);
        let field = FlowField::new(&vec![map_idx(40, 25)], &map);
        for idx in 0..4000 {
            assert_eq!(map.tiles[idx] == TileType::Floor, field.distances[idx] != UNREACHABLE);
        }
    }
}

#[test]
fn smoothing_follows_the_count_of_walls_around() {
    let mut map = TileMap::new();
    for (x, y) in [(4, 4), (5, 4), (6, 4), (4, 5), (6, 5)] {
        map.set_tile(map_idx(x, y), TileType::Wall);
    }
    assert_eq!(count_neighbors(5, 5, &map), 5);
    assert_eq!(count_neighbors(5, 4, &map), 4);
    assert_eq!(count_neighbors(5, 3, &map), 3);
    assert_eq!(count_neighbors(20, 20, &map), 0);
    iteration(&mut map);
    // five walls around: wall; four or fewer: floor
    assert_eq!(map.tiles[map_idx(5, 5)], TileType::Wall);
    assert_eq!(map.tiles[map_idx(5, 4)], TileType::Floor);
    assert_eq!(map.tiles[map_idx(4, 4)], TileType::Floor);
    assert_eq!(map.tiles[map_idx(20, 20)], TileType::Floor);
    assert_eq!(floor_tiles(&map), 3999);
}

#[test]
fn smoothing_leaves_the_outermost_ring_alone() {
    let mut map = TileMap::filled(TileType::Wall);
    map.set_tile(map_idx(0, 0), TileType::Floor);
    map.set_tile(map_idx(79, 20), TileType::Floor);
    iteration(&mut map);
    assert_eq!(map.tiles[map_idx(0, 0)], TileType::Floor);
    assert_eq!(map.tiles[map_idx(79, 20)], TileType::Floor);
    assert_eq!(map.tiles[map_idx(0, 1)], TileType::Wall);
    assert_eq!(floor_tiles(&map), 2);
}

#[test]
fn the_start_lies_in_the_largest_region() {
    let mut map = TileMap::filled(TileType::Wall);
    assert_eq!(find_start(&map), None);
    for x in 1..4 {
        map.set_tile(map_idx(x, 1), TileType::Floor);
    }
    for x in 10..20 {
        map.set_tile(map_idx(x, 30), TileType::Floor);
    }
    map.set_tile(map_idx(70, 45), TileType::Floor);
    assert_eq!(measure_region(&map, map_idx(2, 1)), 3);
    assert_eq!(measure_region(&map, map_idx(15, 30)), 10);
    assert_eq!(measure_region(&map, map_idx(70, 45)), 1);
    assert_eq!(find_start(&map), Some(Point::new(10, 30)));
}

#[test]
fn a_grown_cave_has_walls_and_floor() {
    let mut map = TileMap::new();
    let mut rng = RandomNumberGenerator::seeded(4);
    grow_cave(&mut map, &mut rng);
    let floor = floor_tiles(&map);
    assert!(floor > 400 && floor < 3600, "{}", floor);
    let again = map.tiles.clone();
    let mut rng = RandomNumberGenerator::seeded(4);
    let mut second = TileMap::new();
    grow_cave(&mut second, &mut rng);
    assert_eq!(second.tiles, again);
}

#[test]
fn the_fortress_is_stamped_as_drawn() {
    let mut map = TileMap::filled(TileType::Wall);
    stamp(&mut map, Point::new(10, 20));
    let rows = [
        "------------",
        "---######---",
        "---#----#---",
        "---#----#---",
        "-###----###-",
        "------------",
        "-###----###-",
        "---#----#---",
        "---#----#---",
        "---######---",
        "------------",
    ];
    for (row, line) in rows.iter().enumerate() {
        for (col, c) in line.chars().enumerate() {
            let expected = if c == '#' { TileType::Wall } else { TileType::Floor };
            assert_eq!(
                map.tiles[map_idx(10 + col as i32, 20 + row as i32)],
                expected,
                "row {} col {}",
                row,
                col
            );
        }
    }
    assert_eq!(floor_tiles(&map), 12 * 11 - 32);
    assert_eq!(map.tiles[map_idx(9, 20)], TileType::Wall);
    assert_eq!(map.tiles[map_idx(22, 20)], TileType::Wall);
    assert_eq!(map.tiles[map_idx(10, 31)], TileType::Wall);
}

#[test]
fn the_fortress_wants_distance_and_spares_the_player() {
    let map = TileMap::new();
    let player = Point::new(5, 5);
    let field = FlowField::new(&vec![map_idx(5, 5)], &map);
    // covers the player
    assert!(!fits(&field, Point::new(0, 0), player));
    // the farthest corner is (16, 16): 22 steps away
    assert!(fits(&field, Point::new(6, 6), player));
    // nothing farther than 20 steps: the farthest corner is (11, 16), 17 steps away
    assert!(!fits(&field, Point::new(0, 6), player));
    assert!(fits(&field, Point::new(68, 39), player));
}

#[test]
fn a_placed_fortress_spares_the_players_tile() {
    for seed in 0..8u64 {
        let mut map = TileMap::new();
        let mut rng = RandomNumberGenerator::seeded(seed);
        let player = Point::new(40, 25);
        match apply_prefab(&mut map, player, &mut rng) {
            Some(at) => {
                assert!(at.x >= 0 && at.x < 68 && at.y >= 0 && at.y < 39);
                assert_eq!(floor_tiles(&map), 4000 - 32);
                assert_eq!(map.tiles[map_idx(at.x + 3, at.y + 1)], TileType::Wall);
            }
            None => assert_eq!(floor_tiles(&map), 4000),
        }
        assert_eq!(map.tiles[map_idx(40, 25)], TileType::Floor);
    }
}

#[test]
fn the_fortress_is_placed_at_once_where_every_corner_will_do() {
    // from the last tile of the grid no corner that can be drawn covers the
    // player, and each covers a tile more than twenty steps away
    let player = Point::new(79, 49);
    let open = TileMap::new();
    let field = FlowField::new(&vec![map_idx(79, 49)], &open);
    for x in 0..68 {
        for y in 0..39 {
            assert!(fits(&field, Point::new(x, y), player));
        }
    }
    for seed in 0..20u64 {
        let mut map = TileMap::new();
        let mut rng = RandomNumberGenerator::seeded(seed);
        let mut same = RandomNumberGenerator::seeded(seed);
        let first = Point::new(same.range(0, 68), same.range(0, 39));
        assert_eq!(apply_prefab(&mut map, player, &mut rng), Some(first));
        let mut expected = TileMap::new();
        stamp(&mut expected, first);
        assert_eq!(map.tiles, expected.tiles);
    }
}

#[test]
fn the_fortress_is_not_placed_where_no_corner_will_do() {
    // in solid rock nothing is reachable
    for seed in 0..5u64 {
        let mut map = TileMap::filled(TileType::Wall);
        let mut rng = RandomNumberGenerator::seeded(seed);
        assert_eq!(apply_prefab(&mut map, Point::new(40, 25), &mut rng), None);
        assert_eq!(floor_tiles(&map), 0);
    }
    // in a small room nothing is farther than twenty steps away
    for seed in 0..5u64 {
        let mut map = TileMap::filled(TileType::Wall);
        carve_room(&mut map, Rect::with_size(35, 20, 9, 9));
        let mut rng = RandomNumberGenerator::seeded(seed);
        assert_eq!(apply_prefab(&mut map, Point::new(40, 25), &mut rng), None);
        assert_eq!(floor_tiles(&map), 81);
    }
}

#[test]
fn the_search_for_a_corner_goes_on_after_one_that_will_not_do() {
    // the player in the middle: the corners that cover the player will not
    // do, all others will
    let player = Point::new(40, 25);
    let open = TileMap::new();
    let field = FlowField::new(&vec![map_idx(40, 25)], &open);
    assert!(!fits(&field, Point::new(29, 15), player));
    assert!(!fits(&field, Point::new(40, 25), player));
    assert!(fits(&field, Point::new(28, 15), player));
    assert!(fits(&field, Point::new(41, 25), player));
    let mut went_on = false;
    for seed in 0..200u64 {
        let mut same = RandomNumberGenerator::seeded(seed);
        let mut expected = None;
        let mut drawn = 0;
        while expected.is_none() && drawn < 10 {
            let at = Point::new(same.range(0, 68), same.range(0, 39));
            drawn += 1;
            if fits(&field, at, player) {
                expected = Some(at);
            }
        }
        went_on = went_on || (drawn > 1 && expected.is_some());
        let mut map = TileMap::new();
        let mut rng = RandomNumberGenerator::seeded(seed);
        assert_eq!(apply_prefab(&mut map, player, &mut rng), expected);
    }
    assert!(went_on);
}

#[test]
fn a_fortress_is_placed_only_where_it_may_stand() {
    let player = Point::new(5, 5);
    let mut map = TileMap::new();
    let field = FlowField::new(&vec![map_idx(5, 5)], &map);
    assert!(!place_fortress(&mut map, &field, player, Point::new(0, 0)));
    assert!(!place_fortress(&mut map, &field, player, Point::new(0, 6)));
    assert_eq!(floor_tiles(&map), 4000);
    assert!(place_fortress(&mut map, &field, player, Point::new(6, 6)));
    assert_eq!(floor_tiles(&map), 4000 - 32);
    let mut expected = TileMap::new();
    stamp(&mut expected, Point::new(6, 6));
    assert_eq!(map.tiles, expected.tiles);
    assert!(map.revealed_tiles.iter().all(|seen| !*seen));
}

#[test]
fn candidates_are_floor_tiles_beyond_ten_tiles() {
    let mut map = TileMap::filled(TileType::Wall);
    // at distances 9, 10, 11 and about 10.05 from the start
    for (x, y) in [(19, 10), (20, 10), (21, 10), (20, 11)] {
        map.set_tile(map_idx(x, y), TileType::Floor);
    }
    let candidates = spawn_candidates(&map, Point::new(10, 10));
    assert_eq!(candidates, vec![Point::new(21, 10), Point::new(20, 11)]);
}

#[test]
fn taking_a_spawn_removes_it_from_the_candidates() {
    let mut candidates = vec![Point::new(1, 1), Point::new(2, 2), Point::new(3, 3)];
    let mut spawns = vec![Point::new(9, 9)];
    take_spawn(&mut candidates, &mut spawns, 1);
    assert_eq!(candidates, vec![Point::new(1, 1), Point::new(3, 3)]);
    assert_eq!(spawns, vec![Point::new(9, 9), Point::new(2, 2)]);
}

#[test]
fn spawning_fails_where_too_few_tiles_are_fit() {
    let mut rng = RandomNumberGenerator::seeded(1);
    let walls = TileMap::filled(TileType::Wall);
    assert_eq!(
        spawn_monsters(&walls, Point::new(10, 10), &mut rng, 50),
        Err(GameError::SpawnExhausted)
    );
    assert_eq!(spawn_monsters(&walls, Point::new(10, 10), &mut rng, 0), Ok(vec![]));
    let mut few = TileMap::filled(TileType::Wall);
    for x in 30..79 {
        few.set_tile(map_idx(x, 10), TileType::Floor);
    }
    assert_eq!(
        spawn_monsters(&few, Point::new(10, 10), &mut rng, 50),
        Err(GameError::SpawnExhausted)
    );
    few.set_tile(map_idx(79, 10), TileType::Floor);
    let mut all = spawn_monsters(&few, Point::new(10, 10), &mut rng, 50).unwrap();
    all.sort_by_key(|p| p.x);
    assert_eq!(all, (30..80).map(|x| Point::new(x, 10)).collect::<Vec<Point>>());
}

#[test]
fn spawns_are_drawn_by_chance() {
    let map = TileMap::new();
    let mut rng = RandomNumberGenerator::seeded(21);
    let spawns = spawn_monsters(&map, Point::new(40, 25), &mut rng, 50).unwrap();
    let candidates = spawn_candidates(&map, Point::new(40, 25));
    assert_eq!(spawns.len(), 50);
    // not simply the first fifty candidates
    assert_ne!(spawns, candidates[..50].to_vec());
    for p in spawns.iter() {
        assert!(candidates.contains(p));
    }
}

#[test]
fn glyphs_follow_the_code_page() {
    assert_eq!(glyph_of('☺'), 1);
    assert_eq!(glyph_of('♥'), 3);
    assert_eq!(glyph_of('@'), 64);
    assert_eq!(glyph_of('\u{10FFFF}'), 0);
    assert_eq!(MapTheme::Dungeon.tile_to_render(TileType::Floor), 46);
    assert_eq!(MapTheme::Dungeon.tile_to_render(TileType::Wall), 35);
    assert_eq!(MapTheme::Forest.tile_to_render(TileType::Floor), 59);
    assert_eq!(MapTheme::Forest.tile_to_render(TileType::Wall), 34);
}

#[test]
fn a_new_game_is_populated_from_its_dungeon() {
    let mut seed = 0u64;
    let game = loop {
        match Game::new(RandomNumberGenerator::seeded(seed)) {
            Ok(game) => break game,
            Err(_) => seed += 1,
        }
    };
    assert_eq!(game.turn_state, TurnState::AwaitingInput);
    assert_eq!(game.world.len(), 52);
    assert!(game.world.moves.is_empty() && game.world.attacks.is_empty());
    let player = game.world.slots[0];
    assert!(player.alive && player.parts.player.is_some());
    assert_eq!(player.parts.health.unwrap().current, 10);
    assert!(game.map.can_enter_tile(player.parts.position));
    let amulet = game.world.slots[1];
    assert!(amulet.parts.amulet.is_some() && amulet.parts.item.is_some());
    assert_eq!(amulet.parts.position, find_most_distant(&game.map, player.parts.position));
    for slot in game.world.slots[2..].iter() {
        assert!(slot.alive && slot.parts.enemy.is_some() && slot.parts.chasing_player.is_some());
        let hp = slot.parts.health.unwrap();
        assert!(hp.current == hp.max && (hp.max == 1 || hp.max == 2));
        assert!(game.map.can_enter_tile(slot.parts.position));
    }
}
