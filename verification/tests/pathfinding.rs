use dungeoncrawl::geometry::{grid_distance_sq, midpoint, Point, Rect, NUM_TILES};
use dungeoncrawl::map::{index_to_point, map_idx, TileMap, TileType};
use dungeoncrawl::map_builder::placement::find_most_distant;
use dungeoncrawl::pathfinding::{neighbor_index, FlowField, MAX_DEPTH, UNREACHABLE};

fn walled() -> TileMap {
    TileMap::filled(TileType::Wall)
}

fn dig(map: &mut TileMap, points: &[(i32, i32)]) {
    for (x, y) in points {
        map.set_tile(map_idx(*x, *y), TileType::Floor);
    }
}

#[test]
fn index_is_row_major() {
    assert_eq!(map_idx(0, 0), 0);
    assert_eq!(map_idx(79, 0), 79);
    assert_eq!(map_idx(0, 1), 80);
    assert_eq!(map_idx(5, 3), 245);
    assert_eq!(map_idx(79, 49), 3999);
    assert_eq!(index_to_point(245), Point::new(5, 3));
    assert_eq!(index_to_point(3999), Point::new(79, 49));
    for idx in 0..NUM_TILES {
        let p = index_to_point(idx);
        assert_eq!(map_idx(p.x, p.y), idx);
    }
}

#[test]
fn a_new_map_is_all_floor_and_unexplored() {
    let map = TileMap::new();
    assert_eq!(map.tiles.len(), 4000);
    assert_eq!(map.revealed_tiles.len(), 4000);
    assert!(map.tiles.iter().all(|t| *t == TileType::Floor));
    assert!(map.revealed_tiles.iter().all(|r| !*r));
}

#[test]
fn bounds_and_entry() {
    let mut map = TileMap::new();
    map.set_tile(map_idx(3, 3), TileType::Wall);
    assert!(map.in_bounds(Point::new(0, 0)));
    assert!(map.in_bounds(Point::new(79, 49)));
    assert!(!map.in_bounds(Point::new(80, 0)));
    assert!(!map.in_bounds(Point::new(0, 50)));
    assert!(!map.in_bounds(Point::new(-1, 5)));
    assert_eq!(map.try_idx(Point::new(5, 3)), Some(245));
    assert_eq!(map.try_idx(Point::new(80, 3)), None);
    assert_eq!(map.try_idx(Point::new(5, -1)), None);
    assert!(map.can_enter_tile(Point::new(2, 3)));
    assert!(!map.can_enter_tile(Point::new(3, 3)));
    assert!(!map.can_enter_tile(Point::new(80, 3)));
}

#[test]
fn distances_and_midpoints() {
    assert_eq!(grid_distance_sq(Point::new(0, 0), Point::new(3, 4)), 25);
    assert_eq!(grid_distance_sq(Point::new(10, 10), Point::new(10, 10)), 0);
    assert_eq!(grid_distance_sq(Point::new(79, 49), Point::new(0, 0)), 8642);
    assert_eq!(midpoint(2, 9), 5);
    assert_eq!(midpoint(-3, 0), -1);
    assert_eq!(midpoint(i32::MAX, i32::MAX), i32::MAX);
    assert_eq!(midpoint(i32::MIN, i32::MIN), i32::MIN);
    assert_eq!(Point::zero(), Point::new(0, 0));
}

#[test]
fn rectangles() {
    let r = Rect::with_size(2, 3, 4, 5);
    assert_eq!(r, Rect { x1: 2, x2: 6, y1: 3, y2: 8 });
    assert_eq!(r.center(), Point::new(4, 5));
    assert!(r.point_in_rect(Point::new(2, 3)));
    assert!(r.point_in_rect(Point::new(5, 7)));
    assert!(!r.point_in_rect(Point::new(6, 7)));
    assert!(!r.point_in_rect(Point::new(5, 8)));
    assert!(r.intersect(&Rect::with_size(6, 8, 2, 2)));
    assert!(!r.intersect(&Rect::with_size(7, 3, 2, 2)));
    assert!(r.intersect(&r));
}

#[test]
fn neighbours_stop_at_the_edges() {
    assert_eq!(neighbor_index(0, 0), None);
    assert_eq!(neighbor_index(0, 1), Some(1));
    assert_eq!(neighbor_index(0, 2), None);
    assert_eq!(neighbor_index(0, 3), Some(80));
    assert_eq!(neighbor_index(79, 1), None);
    assert_eq!(neighbor_index(80, 0), None);
    assert_eq!(neighbor_index(3999, 1), None);
    assert_eq!(neighbor_index(3999, 3), None);
    assert_eq!(neighbor_index(3999, 0), Some(3998));
    assert_eq!(neighbor_index(3999, 2), Some(3919));
}

#[test]
fn distances_on_an_open_map_are_taxicab_distances() {
    let map = TileMap::new();
    let field = FlowField::new(&vec![map_idx(10, 10)], &map);
    assert_eq!(field.distances.len(), 4000);
    for idx in 0..NUM_TILES {
        let p = index_to_point(idx);
        let expected = ((p.x - 10).abs() + (p.y - 10).abs()) as u32;
        assert_eq!(field.distances[idx], expected);
    }
}

#[test]
fn the_nearest_of_several_goals_counts() {
    let map = TileMap::new();
    let field = FlowField::new(&vec![map_idx(0, 0), map_idx(20, 0), 99_999], &map);
    assert_eq!(field.distances[map_idx(0, 0)], 0);
    assert_eq!(field.distances[map_idx(20, 0)], 0);
    assert_eq!(field.distances[map_idx(10, 0)], 10);
    assert_eq!(field.distances[map_idx(12, 0)], 8);
    assert_eq!(field.distances[map_idx(12, 3)], 11);
}

#[test]
fn no_goal_reaches_nothing() {
    let map = TileMap::new();
    let field = FlowField::new(&vec![], &map);
    assert!(field.distances.iter().all(|d| *d == UNREACHABLE));
}

#[test]
fn walls_are_walked_around_and_never_entered() {
    let mut map = walled();
    // a corridor in the shape of a U
    dig(&mut map, &[(1, 1), (1, 2), (1, 3), (2, 3), (3, 3), (3, 2), (3, 1)]);
    dig(&mut map, &[(10, 10)]);
    let field = FlowField::new(&vec![map_idx(1, 1)], &map);
    assert_eq!(field.distances[map_idx(1, 1)], 0);
    assert_eq!(field.distances[map_idx(1, 3)], 2);
    assert_eq!(field.distances[map_idx(3, 3)], 4);
    assert_eq!(field.distances[map_idx(3, 1)], 6);
    assert_eq!(field.distances[map_idx(2, 1)], UNREACHABLE);
    assert_eq!(field.distances[map_idx(2, 2)], UNREACHABLE);
    assert_eq!(field.distances[map_idx(10, 10)], UNREACHABLE);
}

#[test]
fn a_goal_on_a_wall_still_counts_as_a_start() {
    let mut map = walled();
    dig(&mut map, &[(6, 5), (7, 5)]);
    let field = FlowField::new(&vec![map_idx(5, 5)], &map);
    assert_eq!(field.distances[map_idx(5, 5)], 0);
    assert_eq!(field.distances[map_idx(6, 5)], 1);
    assert_eq!(field.distances[map_idx(7, 5)], 2);
    // the only closer tile is a wall: no step
    assert_eq!(field.find_lowest_exit(map_idx(6, 5), &map), None);
    assert_eq!(field.find_lowest_exit(map_idx(7, 5), &map), Some(map_idx(6, 5)));
}

fn serpentine() -> TileMap {
    // rows 1, 3, 5, ... are corridors; they are joined at alternating ends
    let mut map = walled();
    let mut y = 1;
    let mut join_right = true;
    while y < 49 {
        for x in 1..79 {
            map.set_tile(map_idx(x, y), TileType::Floor);
        }
        if y + 2 < 49 {
            let x = if join_right { 78 } else { 1 };
            map.set_tile(map_idx(x, y + 1), TileType::Floor);
        }
        join_right = !join_right;
        y += 2;
    }
    map
}

#[test]
fn the_search_stops_short_of_the_depth_limit() {
    let map = serpentine();
    let field = FlowField::new(&vec![map_idx(1, 1)], &map);
    // one row of 78 tiles and the joint below it make 79 steps
    assert_eq!(field.distances[map_idx(78, 1)], 77);
    assert_eq!(field.distances[map_idx(78, 3)], 79);
    assert_eq!(field.distances[map_idx(1, 3)], 156);
    let mut farthest = 0;
    for d in field.distances.iter() {
        if *d != UNREACHABLE {
            assert!(*d < MAX_DEPTH);
            farthest = farthest.max(*d);
        }
    }
    assert_eq!(farthest, MAX_DEPTH - 1);
    // the far end of the serpentine lies beyond the limit
    assert_eq!(field.distances[map_idx(78, 47)], UNREACHABLE);
    assert_eq!(find_most_distant(&map, Point::new(1, 1)), {
        let idx = field.distances.iter().position(|d| *d == MAX_DEPTH - 1).unwrap();
        index_to_point(idx)
    });
}

#[test]
fn the_single_closer_neighbour_is_the_step() {
    let mut map = walled();
    dig(&mut map, &[(1, 1), (1, 2), (1, 3), (2, 3), (3, 3), (3, 2), (3, 1)]);
    let field = FlowField::new(&vec![map_idx(1, 1)], &map);
    assert_eq!(field.find_lowest_exit(map_idx(3, 1), &map), Some(map_idx(3, 2)));
    assert_eq!(field.find_lowest_exit(map_idx(3, 3), &map), Some(map_idx(2, 3)));
    assert_eq!(field.find_lowest_exit(map_idx(1, 2), &map), Some(map_idx(1, 1)));
}

#[test]
fn no_step_from_the_goal_or_without_a_closer_neighbour() {
    let mut map = walled();
    dig(&mut map, &[(1, 1), (1, 2), (10, 10), (11, 10)]);
    let field = FlowField::new(&vec![map_idx(1, 1)], &map);
    assert_eq!(field.find_lowest_exit(map_idx(1, 1), &map), None);
    // cut off from the goal: every neighbour is as far as the tile itself
    assert_eq!(field.find_lowest_exit(map_idx(10, 10), &map), None);
    // off the grid
    assert_eq!(field.find_lowest_exit(4000, &map), None);
}

#[test]
fn ties_go_to_the_first_direction() {
    let map = TileMap::new();
    let field = FlowField::new(&vec![map_idx(10, 10)], &map);
    // west and north are equally close: west comes first
    assert_eq!(field.find_lowest_exit(map_idx(11, 11), &map), Some(map_idx(10, 11)));
    // east and north are equally close: east comes first
    assert_eq!(field.find_lowest_exit(map_idx(9, 11), &map), Some(map_idx(10, 11)));
    // east and south are equally close: east comes first
    assert_eq!(field.find_lowest_exit(map_idx(9, 9), &map), Some(map_idx(10, 9)));
    // west and south are equally close: west comes first
    assert_eq!(field.find_lowest_exit(map_idx(11, 9), &map), Some(map_idx(10, 9)));
}

#[test]
fn following_the_steps_leads_to_the_goal() {
    let map = serpentine();
    let goal = map_idx(1, 1);
    let field = FlowField::new(&vec![goal], &map);
    let mut at = map_idx(40, 9);
    let mut steps = 0;
    while let Some(next) = field.find_lowest_exit(at, &map) {
        assert_eq!(field.distances[next] + 1, field.distances[at]);
        at = next;
        steps += 1;
    }
    assert_eq!(at, goal);
    assert_eq!(steps, field.distances[map_idx(40, 9)]);
}

#[test]
fn the_most_distant_tile_is_the_first_of_the_farthest() {
    let map = TileMap::new();
    assert_eq!(find_most_distant(&map, Point::new(0, 0)), Point::new(79, 49));
    assert_eq!(find_most_distant(&map, Point::new(79, 49)), Point::new(0, 0));
    // from (39, 0) the corner (79, 49) is 89 steps away, the corner (0, 49) only 88
    assert_eq!(find_most_distant(&map, Point::new(39, 0)), Point::new(79, 49));
    // from (40, 49) the corner (0, 0) is 89 steps away, the corner (79, 0) only 88
    assert_eq!(find_most_distant(&map, Point::new(40, 49)), Point::new(0, 0));
    // a tie: on a strip of three tiles both ends are one step from the middle
    let mut strip = TileMap::filled(TileType::Wall);
    dig(&mut strip, &[(4, 4), (5, 4), (6, 4)]);
    assert_eq!(find_most_distant(&strip, Point::new(5, 4)), Point::new(4, 4));
}

#[test]
fn an_enclosed_start_is_its_own_most_distant_tile() {
    let mut map = walled();
    dig(&mut map, &[(5, 5)]);
    assert_eq!(find_most_distant(&map, Point::new(5, 5)), Point::new(5, 5));
}
