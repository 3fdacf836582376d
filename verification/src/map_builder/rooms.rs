//! The architect of rooms and corridors.

use vstd::prelude::*;
use crate::geometry::{NUM_TILES, Point, Rect, SCREEN_HEIGHT, SCREEN_WIDTH};
use crate::map::{index_to_point, spec_index_to_point, TileMap, TileType};
use crate::random::draw_range;
use crate::turn_state::GameError;

verus! {

/// Number of rooms that the architect places.
pub const NUM_ROOMS: usize = 20;

/// Number of random rectangles that the architect tries before it gives up.
pub const MAX_ROOM_ATTEMPTS: u32 = 4000;

/// Whether the tile at `p` belongs to what a room carves: its interior, the
/// outermost ring of the grid left out.
pub open spec fn carved_by(room: Rect, p: Point) -> bool {
    room.contains(p) && 0 < p.x < SCREEN_WIDTH && 0 < p.y < SCREEN_HEIGHT
}

/// The tiles with the tiles that `room` carves turned into floor.
pub open spec fn with_room(tiles: Seq<TileType>, room: Rect) -> Seq<TileType> {
    Seq::new(
        tiles.len(),
        |t: int|
            if carved_by(room, spec_index_to_point(t)) {
                TileType::Floor
            } else {
                tiles[t]
            },
    )
}

/// Whether `room` touches or overlaps one of `rooms`.
pub open spec fn overlaps_any(rooms: Seq<Rect>, room: Rect) -> bool {
    exists|j: int| 0 <= j < rooms.len() && (#[trigger] rooms[j]).overlaps(room)
}

/// Whether every room keeps its interior off the outermost ring of the
/// grid.
pub open spec fn rooms_inside(rooms: Seq<Rect>) -> bool {
    forall|j: int| 0 <= j < rooms.len() ==> (#[trigger] rooms[j]).inside_border()
}

/// Whether the room is between two and nine tiles wide and high.
pub open spec fn solid(room: Rect) -> bool {
    room.x1 + 2 <= room.x2 <= room.x1 + 9 && room.y1 + 2 <= room.y2 <= room.y1 + 9
}

/// Whether every room is between two and nine tiles wide and high.
pub open spec fn rooms_solid(rooms: Seq<Rect>) -> bool {
    forall|j: int| 0 <= j < rooms.len() ==> solid(#[trigger] rooms[j])
}

/// Whether no two rooms touch or overlap.
pub open spec fn rooms_apart(rooms: Seq<Rect>) -> bool {
    forall|i: int, j: int|
        0 <= i < j < rooms.len() ==> !(#[trigger] rooms[i]).overlaps(#[trigger] rooms[j])
}

/// Turns the tiles that `room` carves into floor.
pub fn carve_room(map: &mut TileMap, room: Rect)
    requires
        old(map).wf(),
    ensures
        final(map).wf(),
        final(map).tiles@ == with_room(old(map).tiles@, room),
        final(map).revealed_tiles@ == old(map).revealed_tiles@,
{
    let mut idx: usize = 0;
    while idx < NUM_TILES
        invariant
            map.wf(),
            idx <= NUM_TILES,
            old(map).tiles@.len() == NUM_TILES,
            map.revealed_tiles@ == old(map).revealed_tiles@,
            forall|t: int|
                0 <= t < idx ==> #[trigger] map.tiles@[t] == with_room(old(map).tiles@, room)[t],
            forall|t: int| idx <= t < NUM_TILES ==> #[trigger] map.tiles@[t] == old(map).tiles@[t],
        decreases NUM_TILES - idx,
    {
        let p: Point = index_to_point(idx);
        if room.point_in_rect(p) && p.x > 0 && p.y > 0 {
            map.set_tile(idx, TileType::Floor);
        }
        idx += 1;
    }
    assert(map.tiles@ =~= with_room(old(map).tiles@, room));
}

/// Places `room` unless it touches or overlaps a room placed before:
/// carves it and adds it behind the others. Returns whether it did.
pub fn place_room(map: &mut TileMap, rooms: &mut Vec<Rect>, room: Rect) -> (placed: bool)
    requires
        old(map).wf(),
    ensures
        final(map).wf(),
        placed == !overlaps_any(old(rooms)@, room),
        placed ==> final(map).tiles@ == with_room(old(map).tiles@, room)
            && final(rooms)@ == old(rooms)@.push(room),
        !placed ==> final(map).tiles@ == old(map).tiles@ && final(rooms)@ == old(rooms)@,
        final(map).revealed_tiles@ == old(map).revealed_tiles@,
{
    let mut j: usize = 0;
    while j < rooms.len()
        invariant
            j <= rooms@.len(),
            rooms@ == old(rooms)@,
            *map == *old(map),
            map.wf(),
            forall|k: int| 0 <= k < j ==> !(#[trigger] rooms@[k]).overlaps(room),
        decreases rooms@.len() - j,
    {
        if rooms[j].intersect(&room) {
            assert(rooms@[j as int].overlaps(room));
            return false;
        }
        j += 1;
    }
    carve_room(map, room);
    rooms.push(room);
    true
}

/// A room of the given extent in the part of the grid where room corners
/// are drawn lies inside the border.
pub proof fn lemma_drawn_room_inside(x: i32, y: i32, w: i32, h: i32)
    requires
        1 <= x < SCREEN_WIDTH - 10,
        1 <= y < SCREEN_HEIGHT - 10,
        2 <= w < 10,
        2 <= h < 10,
    ensures
        (Rect { x1: x, x2: (x + w) as i32, y1: y, y2: (y + h) as i32 }).inside_border(),
{
}

/// Draws rectangles until `NUM_ROOMS` rooms are placed, at most `budget`
/// times. Each rectangle has its first corner at least ten tiles from the
/// far edges, and sides of two to nine tiles. Whatever is drawn, the rooms
/// placed keep off the border and apart from one another, the tiles inside
/// them are floor, and the tiles outside them are untouched. Fails when the
/// attempts run out, as they must where the budget is smaller than the
/// number of rooms.
pub fn build_rooms_within(
    map: &mut TileMap,
    rooms: &mut Vec<Rect>,
    rng: &mut bracket_lib::prelude::RandomNumberGenerator,
    budget: u32,
) -> (r: Result<(), GameError>)
    requires
        old(map).wf(),
        old(rooms)@.len() == 0,
    ensures
        final(map).wf(),
        final(map).revealed_tiles@ == old(map).revealed_tiles@,
        r.is_ok() <==> final(rooms)@.len() == NUM_ROOMS,
        r.is_err() ==> r == Err::<(), GameError>(GameError::GenerationExhausted),
        budget < NUM_ROOMS ==> r.is_err(),
        exists|rects: Seq<Rect>| #[trigger]
            rooms_drawn(rects, budget as int, final(rooms)@, r.is_err()),
        final(rooms)@.len() <= NUM_ROOMS,
        final(rooms)@.len() <= budget,
        rooms_inside(final(rooms)@),
        rooms_solid(final(rooms)@),
        rooms_apart(final(rooms)@),
        forall|t: int|
            0 <= t < NUM_TILES ==> #[trigger] final(map).tiles@[t] == (if in_some_room(
                final(rooms)@,
                spec_index_to_point(t),
            ) {
                TileType::Floor
            } else {
                old(map).tiles@[t]
            }),
{
    let mut attempts: u32 = 0;
    let ghost mut rects: Seq<Rect> = Seq::empty();
    while rooms.len() < NUM_ROOMS && attempts < budget
        invariant
            map.wf(),
            old(map).wf(),
            map.revealed_tiles@ == old(map).revealed_tiles@,
            attempts <= budget,
            rects.len() == attempts,
            forall|k: int| 0 <= k < rects.len() ==> drawn_room(#[trigger] rects[k]),
            forall|k: int| 0 <= k < rects.len() ==> (#[trigger] placed(rects, k)).len() < NUM_ROOMS,
            rooms@ == placed(rects, rects.len() as int),
            rooms@.len() <= attempts,
            rooms@.len() <= NUM_ROOMS,
            rooms_inside(rooms@),
            rooms_solid(rooms@),
            rooms_apart(rooms@),
            forall|t: int|
                0 <= t < NUM_TILES ==> #[trigger] map.tiles@[t] == (if in_some_room(
                    rooms@,
                    spec_index_to_point(t),
                ) {
                    TileType::Floor
                } else {
                    old(map).tiles@[t]
                }),
        decreases budget - attempts,
    {
        let x: i32 = draw_range(rng, 1, SCREEN_WIDTH - 10);
        let y: i32 = draw_range(rng, 1, SCREEN_HEIGHT - 10);
        let w: i32 = draw_range(rng, 2, 10);
        let h: i32 = draw_range(rng, 2, 10);
        let room = Rect::with_size(x, y, w, h);
        let ghost rooms0 = rooms@;
        let ghost tiles0 = map.tiles@;
        let stands = place_room(map, rooms, room);
        proof {
            let longer = rects.push(room);
            assert(placed(rects, rects.len() as int) == rooms0);
            assert forall|k: int| 0 <= k < longer.len() implies drawn_room(#[trigger] longer[k]) by {
                if k < rects.len() {
                    assert(longer[k] == rects[k]);
                }
            }
            assert forall|k: int| 0 <= k < longer.len() implies (#[trigger] placed(longer, k)).len()
                < NUM_ROOMS by {
                lemma_placed_prefix(rects, longer, k);
                assert(placed(rects, k).len() < NUM_ROOMS);
            }
            lemma_placed_prefix(rects, longer, rects.len() as int);
            assert(longer[longer.len() - 1] == room);
            assert(rooms@ == placed(longer, longer.len() as int));
            rects = longer;
            lemma_drawn_room_inside(x, y, w, h);
            if stands {
                assert forall|i: int, j: int| 0 <= i < j < rooms@.len() implies !(
                #[trigger] rooms@[i]).overlaps(#[trigger] rooms@[j]) by {
                    if j == rooms0.len() {
                        assert(rooms@[i] == rooms0[i]);
                        assert(!rooms0[i].overlaps(room));
                    } else {
                        assert(rooms@[i] == rooms0[i] && rooms@[j] == rooms0[j]);
                    }
                }
                assert forall|j: int| 0 <= j < rooms@.len() implies (
                #[trigger] rooms@[j]).inside_border() by {
                    if j < rooms0.len() {
                        assert(rooms@[j] == rooms0[j]);
                    }
                }
                assert forall|j: int| 0 <= j < rooms@.len() implies solid(#[trigger] rooms@[j]) by {
                    if j < rooms0.len() {
                        assert(rooms@[j] == rooms0[j]);
                    }
                }
                assert forall|t: int| 0 <= t < NUM_TILES implies #[trigger] map.tiles@[t] == (
                if in_some_room(rooms@, spec_index_to_point(t)) {
                    TileType::Floor
                } else {
                    old(map).tiles@[t]
                }) by {
                    let p = spec_index_to_point(t);
                    lemma_in_some_room_push(rooms0, room, p);
                    assert(room.inside_border());
                    if room.contains(p) {
                        assert(carved_by(room, p));
                    }
                    assert(map.tiles@[t] == with_room(tiles0, room)[t]);
                }
            }
        }
        attempts += 1;
    }
    let r: Result<(), GameError> = if rooms.len() == NUM_ROOMS {
        Ok(())
    } else {
        Err(GameError::GenerationExhausted)
    };
    assert(rooms_drawn(rects, budget as int, rooms@, r.is_err()));
    r
}

/// Whether `rect` is a rectangle that may be drawn for a room: its first
/// corner off the border and at least ten tiles from the far edges, its
/// sides of two to nine tiles.
pub open spec fn drawn_room(rect: Rect) -> bool {
    &&& 1 <= rect.x1 < SCREEN_WIDTH - 10
    &&& 1 <= rect.y1 < SCREEN_HEIGHT - 10
    &&& rect.x1 + 2 <= rect.x2 < rect.x1 + 10
    &&& rect.y1 + 2 <= rect.y2 < rect.y1 + 10
}

/// The rooms placed of the first `n` rectangles drawn: each rectangle that
/// neither touches nor overlaps a room placed before it, in the order drawn.
pub open spec fn placed(rects: Seq<Rect>, n: int) -> Seq<Rect>
    decreases n,
{
    if n <= 0 {
        Seq::empty()
    } else {
        let earlier = placed(rects, n - 1);
        if overlaps_any(earlier, rects[n - 1]) {
            earlier
        } else {
            earlier.push(rects[n - 1])
        }
    }
}

/// Whether `rects` are the rectangles drawn in a search for rooms that ends
/// with `rooms`: no more than the budget allows; each drawn while rooms
/// were still wanting; the rooms are those placed of them; and the search
/// fails just where rooms are still wanting, which is only when the budget
/// is spent.
pub open spec fn rooms_drawn(rects: Seq<Rect>, budget: int, rooms: Seq<Rect>, failed: bool) -> bool {
    &&& rects.len() <= budget
    &&& forall|k: int| 0 <= k < rects.len() ==> drawn_room(#[trigger] rects[k])
    &&& forall|k: int| 0 <= k < rects.len() ==> (#[trigger] placed(rects, k)).len() < NUM_ROOMS
    &&& rooms == placed(rects, rects.len() as int)
    &&& failed <==> rooms.len() < NUM_ROOMS
    &&& failed ==> rects.len() == budget
}

/// The rooms placed depend only on the rectangles drawn so far.
proof fn lemma_placed_prefix(rects: Seq<Rect>, longer: Seq<Rect>, n: int)
    requires
        0 <= n <= rects.len() <= longer.len(),
        forall|k: int| 0 <= k < rects.len() ==> rects[k] == longer[k],
    ensures
        placed(rects, n) == placed(longer, n),
    decreases n,
{
    if n > 0 {
        lemma_placed_prefix(rects, longer, n - 1);
    }
}

/// Draws rectangles until `NUM_ROOMS` rooms are placed, at most
/// `MAX_ROOM_ATTEMPTS` times.
pub fn build_random_rooms(
    map: &mut TileMap,
    rooms: &mut Vec<Rect>,
    rng: &mut bracket_lib::prelude::RandomNumberGenerator,
) -> (r: Result<(), GameError>)
    requires
        old(map).wf(),
        old(rooms)@.len() == 0,
    ensures
        final(map).wf(),
        final(map).revealed_tiles@ == old(map).revealed_tiles@,
        r.is_ok() <==> final(rooms)@.len() == NUM_ROOMS,
        r.is_err() ==> r == Err::<(), GameError>(GameError::GenerationExhausted),
        exists|rects: Seq<Rect>| #[trigger]
            rooms_drawn(rects, MAX_ROOM_ATTEMPTS as int, final(rooms)@, r.is_err()),
        final(rooms)@.len() <= NUM_ROOMS,
        rooms_inside(final(rooms)@),
        rooms_solid(final(rooms)@),
        rooms_apart(final(rooms)@),
        forall|t: int|
            0 <= t < NUM_TILES ==> #[trigger] final(map).tiles@[t] == (if in_some_room(
                final(rooms)@,
                spec_index_to_point(t),
            ) {
                TileType::Floor
            } else {
                old(map).tiles@[t]
            }),
{
    build_rooms_within(map, rooms, rng, MAX_ROOM_ATTEMPTS)
}

/// Whether `p` lies in the interior of one of `rooms`.
pub open spec fn in_some_room(rooms: Seq<Rect>, p: Point) -> bool {
    exists|j: int| 0 <= j < rooms.len() && (#[trigger] rooms[j]).contains(p)
}

/// A point lies in one of the rooms and a new one where it lies in one of
/// the rooms or in the new one.
proof fn lemma_in_some_room_push(rooms: Seq<Rect>, room: Rect, p: Point)
    ensures
        in_some_room(rooms.push(room), p) == (in_some_room(rooms, p) || room.contains(p)),
{
    let longer = rooms.push(room);
    if in_some_room(longer, p) {
        let j = choose|j: int| 0 <= j < longer.len() && (#[trigger] longer[j]).contains(p);
        if j < rooms.len() {
            assert(rooms[j].contains(p));
        }
    }
    if in_some_room(rooms, p) {
        let j = choose|j: int| 0 <= j < rooms.len() && (#[trigger] rooms[j]).contains(p);
        assert(longer[j].contains(p));
    }
    if room.contains(p) {
        assert(longer[rooms.len() as int].contains(p));
    }
}

/// Whether `p` lies in the box of the columns from `x_lo` to `x_hi` and
/// the rows from `y_lo` to `y_hi`, all four included.
pub open spec fn in_span(x_lo: int, x_hi: int, y_lo: int, y_hi: int, p: Point) -> bool {
    x_lo <= p.x <= x_hi && y_lo <= p.y <= y_hi
}

/// The tiles with those of the box turned into floor.
pub open spec fn with_span(tiles: Seq<TileType>, x_lo: int, x_hi: int, y_lo: int, y_hi: int) -> Seq<
    TileType,
> {
    Seq::new(
        tiles.len(),
        |t: int|
            if in_span(x_lo, x_hi, y_lo, y_hi, spec_index_to_point(t)) {
                TileType::Floor
            } else {
                tiles[t]
            },
    )
}

/// Turns the tiles of the box into floor.
fn carve_span(map: &mut TileMap, x_lo: i32, x_hi: i32, y_lo: i32, y_hi: i32)
    requires
        old(map).wf(),
    ensures
        final(map).wf(),
        final(map).tiles@ == with_span(
            old(map).tiles@,
            x_lo as int,
            x_hi as int,
            y_lo as int,
            y_hi as int,
        ),
        final(map).revealed_tiles@ == old(map).revealed_tiles@,
{
    let mut idx: usize = 0;
    while idx < NUM_TILES
        invariant
            map.wf(),
            idx <= NUM_TILES,
            old(map).tiles@.len() == NUM_TILES,
            map.revealed_tiles@ == old(map).revealed_tiles@,
            forall|t: int|
                0 <= t < idx ==> #[trigger] map.tiles@[t] == with_span(
                    old(map).tiles@,
                    x_lo as int,
                    x_hi as int,
                    y_lo as int,
                    y_hi as int,
                )[t],
            forall|t: int| idx <= t < NUM_TILES ==> #[trigger] map.tiles@[t] == old(map).tiles@[t],
        decreases NUM_TILES - idx,
    {
        let p: Point = index_to_point(idx);
        if x_lo <= p.x && p.x <= x_hi && y_lo <= p.y && p.y <= y_hi {
            map.set_tile(idx, TileType::Floor);
        }
        idx += 1;
    }
    assert(map.tiles@ =~= with_span(
        old(map).tiles@,
        x_lo as int,
        x_hi as int,
        y_lo as int,
        y_hi as int,
    ));
}

/// The smaller of two numbers.
pub open spec fn lesser(a: int, b: int) -> int {
    if a <= b {
        a
    } else {
        b
    }
}

/// The larger of two numbers.
pub open spec fn greater(a: int, b: int) -> int {
    if a >= b {
        a
    } else {
        b
    }
}

/// The tiles after a tunnel along row `y` between the columns `x1` and
/// `x2`.
pub open spec fn with_horizontal_tunnel(tiles: Seq<TileType>, x1: int, x2: int, y: int) -> Seq<
    TileType,
> {
    with_span(tiles, lesser(x1, x2), greater(x1, x2), y, y)
}

/// The tiles after a tunnel along column `x` between the rows `y1` and
/// `y2`.
pub open spec fn with_vertical_tunnel(tiles: Seq<TileType>, y1: int, y2: int, x: int) -> Seq<
    TileType,
> {
    with_span(tiles, x, x, lesser(y1, y2), greater(y1, y2))
}

/// Digs a tunnel along row `y` between the columns `x1` and `x2`, both
/// included, as far as it runs on the grid.
pub fn apply_horizontal_tunnel(map: &mut TileMap, x1: i32, x2: i32, y: i32)
    requires
        old(map).wf(),
    ensures
        final(map).wf(),
        final(map).tiles@
            == with_horizontal_tunnel(old(map).tiles@, x1 as int, x2 as int, y as int),
        final(map).revealed_tiles@ == old(map).revealed_tiles@,
{
    let lo: i32 = if x1 <= x2 {
        x1
    } else {
        x2
    };
    let hi: i32 = if x1 >= x2 {
        x1
    } else {
        x2
    };
    carve_span(map, lo, hi, y, y);
}

/// Digs a tunnel along column `x` between the rows `y1` and `y2`, both
/// included, as far as it runs on the grid.
pub fn apply_vertical_tunnel(map: &mut TileMap, y1: i32, y2: i32, x: i32)
    requires
        old(map).wf(),
    ensures
        final(map).wf(),
        final(map).tiles@ == with_vertical_tunnel(old(map).tiles@, y1 as int, y2 as int, x as int),
        final(map).revealed_tiles@ == old(map).revealed_tiles@,
{
    let lo: i32 = if y1 <= y2 {
        y1
    } else {
        y2
    };
    let hi: i32 = if y1 >= y2 {
        y1
    } else {
        y2
    };
    carve_span(map, x, x, lo, hi);
}

/// The tiles after an L-shaped corridor from `from` to `to`: along the row
/// of `from` and then the column of `to` where `row_first` holds, else along
/// the column of `from` and then the row of `to`.
pub open spec fn with_corridor(tiles: Seq<TileType>, from: Point, to: Point, row_first: bool) -> Seq<
    TileType,
> {
    if row_first {
        with_vertical_tunnel(
            with_horizontal_tunnel(tiles, from.x as int, to.x as int, from.y as int),
            from.y as int,
            to.y as int,
            to.x as int,
        )
    } else {
        with_horizontal_tunnel(
            with_vertical_tunnel(tiles, from.y as int, to.y as int, from.x as int),
            from.x as int,
            to.x as int,
            to.y as int,
        )
    }
}

/// Digs an L-shaped corridor from `from` to `to`.
pub fn dig_corridor(map: &mut TileMap, from: Point, to: Point, row_first: bool)
    requires
        old(map).wf(),
    ensures
        final(map).wf(),
        final(map).tiles@ == with_corridor(old(map).tiles@, from, to, row_first),
        final(map).revealed_tiles@ == old(map).revealed_tiles@,
{
    if row_first {
        apply_horizontal_tunnel(map, from.x, to.x, from.y);
        apply_vertical_tunnel(map, from.y, to.y, to.x);
    } else {
        apply_vertical_tunnel(map, from.y, to.y, from.x);
        apply_horizontal_tunnel(map, from.x, to.x, to.y);
    }
}

/// A corridor turns tiles into floor and nothing else; both of its ends on
/// the grid become floor.
pub proof fn lemma_corridor_keeps_floor(
    tiles: Seq<TileType>,
    from: Point,
    to: Point,
    row_first: bool,
    t: int,
)
    requires
        tiles.len() == NUM_TILES,
        0 <= t < NUM_TILES,
    ensures
        tiles[t] == TileType::Floor ==> with_corridor(tiles, from, to, row_first)[t]
            == TileType::Floor,
        spec_index_to_point(t) == from || spec_index_to_point(t) == to ==> with_corridor(
            tiles,
            from,
            to,
            row_first,
        )[t] == TileType::Floor,
{
}

/// The x coordinate of the centre of a room.
pub fn center_x(room: &Rect) -> (x: i32)
    ensures
        x == room.spec_center().x,
{
    room.center().x
}

/// Whether the rooms stand in the order of the x coordinates of their
/// centres.
pub open spec fn ordered_by_center(rooms: Seq<Rect>) -> bool {
    forall|i: int, j: int|
        0 <= i < j < rooms.len() ==> (#[trigger] rooms[i]).spec_center().x <= (
        #[trigger] rooms[j]).spec_center().x
}

/// The rooms in the order of the x coordinates of their centres; rooms
/// with the same coordinate keep the order in which they were handed in.
/// The list handed in stays as it is.
pub fn sorted_by_center(rooms: &Vec<Rect>) -> (sorted: Vec<Rect>)
    ensures
        sorted@.to_multiset() == rooms@.to_multiset(),
        ordered_by_center(sorted@),
{
    let mut sorted: Vec<Rect> = Vec::new();
    let mut k: usize = 0;
    assert(rooms@.subrange(0, 0) =~= Seq::<Rect>::empty());
    while k < rooms.len()
        invariant
            k <= rooms@.len(),
            sorted@.len() == k,
            sorted@.to_multiset() == rooms@.subrange(0, k as int).to_multiset(),
            ordered_by_center(sorted@),
        decreases rooms@.len() - k,
    {
        let room: Rect = rooms[k];
        let key: i32 = center_x(&room);
        let mut pos: usize = 0;
        while pos < sorted.len() && center_x(&sorted[pos]) <= key
            invariant
                pos <= sorted@.len(),
                key == room.spec_center().x,
                forall|j: int| 0 <= j < pos ==> (#[trigger] sorted@[j]).spec_center().x <= key,
            decreases sorted@.len() - pos,
        {
            pos += 1;
        }
        let ghost before = sorted@;
        sorted.insert(pos, room);
        proof {
            let after = sorted@;
            assert forall|i: int, j: int| 0 <= i < j < after.len() implies (
            #[trigger] after[i]).spec_center().x <= (#[trigger] after[j]).spec_center().x by {
                let bi = if i < pos {
                    i
                } else {
                    i - 1
                };
                let bj = if j < pos {
                    j
                } else {
                    j - 1
                };
                if i != pos {
                    assert(after[i] == before[bi]);
                }
                if j != pos {
                    assert(after[j] == before[bj]);
                }
                if i == pos {
                    assert(before[pos as int].spec_center().x > key);
                    assert(before[pos as int].spec_center().x <= before[bj].spec_center().x || bj
                        == pos);
                } else if j == pos {
                } else {
                    assert(bi < bj);
                }
            }
            assert(after.remove(pos as int) =~= before);
            vstd::seq_lib::to_multiset_remove(after, pos as int);
            after.to_multiset_ensures();
            assert(after.contains(room)) by {
                assert(after[pos as int] == room);
            }
            assert(after.to_multiset() =~= before.to_multiset().insert(room));
            assert(rooms@.subrange(0, k + 1) =~= rooms@.subrange(0, k as int).push(room));
            vstd::seq_lib::to_multiset_build(rooms@.subrange(0, k as int), room);
        }
        k += 1;
    }
    assert(rooms@.subrange(0, k as int) =~= rooms@);
    sorted
}

/// The tiles after the first `n` corridors between neighbours in `sorted`,
/// the `k`-th of them shaped by the `k`-th flip.
pub open spec fn with_corridors(tiles: Seq<TileType>, sorted: Seq<Rect>, flips: Seq<bool>, n: int) -> Seq<
    TileType,
>
    decreases n,
{
    if n <= 0 {
        tiles
    } else {
        with_corridor(
            with_corridors(tiles, sorted, flips, n - 1),
            sorted[n - 1].spec_center(),
            sorted[n].spec_center(),
            flips[n - 1],
        )
    }
}

/// Joins the rooms, taken in the order of the x coordinates of their
/// centres, each to the next by an L-shaped corridor whose shape a coin
/// decides. The rooms themselves stay in the order in which they were
/// placed.
pub fn build_corridors(
    map: &mut TileMap,
    rooms: &Vec<Rect>,
    rng: &mut bracket_lib::prelude::RandomNumberGenerator,
)
    requires
        old(map).wf(),
    ensures
        final(map).wf(),
        final(map).revealed_tiles@ == old(map).revealed_tiles@,
        forall|t: int|
            0 <= t < NUM_TILES && old(map).tiles@[t] == TileType::Floor
                ==> #[trigger] final(map).tiles@[t] == TileType::Floor,
        exists|sorted: Seq<Rect>, flips: Seq<bool>|
            sorted.to_multiset() == rooms@.to_multiset() && ordered_by_center(sorted) && flips.len()
                + 1 >= sorted.len() && #[trigger] with_corridors(
                old(map).tiles@,
                sorted,
                flips,
                sorted.len() - 1,
            ) == final(map).tiles@,
{
    let sorted = sorted_by_center(rooms);
    let ghost mut flips: Seq<bool> = Seq::empty();
    let mut i: usize = 1;
    while i < sorted.len()
        invariant
            map.wf(),
            1 <= i,
            i <= sorted@.len() || (sorted@.len() == 0 && i == 1),
            map.revealed_tiles@ == old(map).revealed_tiles@,
            flips.len() == i - 1,
            map.tiles@ == with_corridors(old(map).tiles@, sorted@, flips, i - 1),
            forall|t: int|
                0 <= t < NUM_TILES && old(map).tiles@[t] == TileType::Floor
                    ==> #[trigger] map.tiles@[t] == TileType::Floor,
        decreases sorted@.len() - i,
    {
        let from: Point = sorted[i - 1].center();
        let to: Point = sorted[i].center();
        let row_first: bool = draw_range(rng, 0, 2) == 1;
        let ghost tiles0 = map.tiles@;
        dig_corridor(map, from, to, row_first);
        proof {
            assert forall|t: int|
                0 <= t < NUM_TILES
                    && old(map).tiles@[t] == TileType::Floor implies #[trigger] map.tiles@[t]
                == TileType::Floor by {
                assert(tiles0[t] == TileType::Floor);
                lemma_corridor_keeps_floor(tiles0, from, to, row_first, t);
            }
            let longer = flips.push(row_first);
            lemma_corridors_prefix(old(map).tiles@, sorted@, flips, longer, i - 1);
            flips = longer;
        }
        i += 1;
    }
    proof {
        let dug = with_corridors(old(map).tiles@, sorted@, flips, sorted@.len() - 1);
        if sorted@.len() == 0 {
            assert(with_corridors(old(map).tiles@, sorted@, flips, 0) == old(map).tiles@);
            assert(dug == old(map).tiles@);
        } else {
            assert(i == sorted@.len());
        }
        assert(dug == map.tiles@);
        assert(sorted@.to_multiset() == rooms@.to_multiset() && ordered_by_center(sorted@)
            && flips.len() + 1 >= sorted@.len() && with_corridors(
            old(map).tiles@,
            sorted@,
            flips,
            sorted@.len() - 1,
        ) == map.tiles@);
    }
}

/// The corridors dug depend only on the flips that have been used.
proof fn lemma_corridors_prefix(
    tiles: Seq<TileType>,
    sorted: Seq<Rect>,
    flips: Seq<bool>,
    longer: Seq<bool>,
    n: int,
)
    requires
        0 <= n <= flips.len() <= longer.len(),
        forall|k: int| 0 <= k < flips.len() ==> flips[k] == longer[k],
    ensures
        with_corridors(tiles, sorted, flips, n) == with_corridors(tiles, sorted, longer, n),
    decreases n,
{
    if n > 0 {
        lemma_corridors_prefix(tiles, sorted, flips, longer, n - 1);
    }
}

/// Solid rock with the rooms carved out of it.
pub open spec fn carved(rooms: Seq<Rect>) -> Seq<TileType> {
    Seq::new(
        NUM_TILES as nat,
        |t: int|
            if in_some_room(rooms, spec_index_to_point(t)) {
                TileType::Floor
            } else {
                TileType::Wall
            },
    )
}

/// Whether the tiles are the rooms carved out of solid rock and joined,
/// in the order of their centres, by corridors of some shapes.
pub open spec fn rooms_joined(tiles: Seq<TileType>, rooms: Seq<Rect>) -> bool {
    exists|sorted: Seq<Rect>, flips: Seq<bool>|
        sorted.to_multiset() == rooms.to_multiset() && ordered_by_center(sorted) && flips.len() + 1
            >= sorted.len() && #[trigger] with_corridors(
            carved(rooms),
            sorted,
            flips,
            sorted.len() - 1,
        ) == tiles
}

} // verus!
