use vstd::prelude::*;

use crate::cell::{floor_cell, sentinel_cell, wall_cell, Cell};
use crate::entity::Entity;
use crate::order::{
    all_pairs, lemma_pairs_upto_wf, lemma_sort_spec_props, rd_wf, room_pair_distances,
    sort_by_distance, sort_spec, sorted_by_dist,
};
use crate::rng::{lcg_next, rand_in_range, Rng};
use crate::room::{
    center_x, center_y, lemma_center_bounds, mk_rd, overlaps, room_nonneg, Room, RoomDistance,
};

verus! {

/// Width of the default map in cells; the grid carries one extra column.
pub const MAP_WIDTH: i32 = 80;

/// Height of the default map in cells; the grid carries one extra row.
pub const MAP_HEIGHT: i32 = 22;

/// Smallest width a sampled room may get.
pub const ROOM_MIN_W: i32 = 4;

/// Smallest height a sampled room may get.
pub const ROOM_MIN_H: i32 = 3;

/// Upper bound (exclusive) on a sampled room's width.
pub const ROOM_MAX_W: i32 = 8;

/// Upper bound (exclusive) on a sampled room's height.
pub const ROOM_MAX_H: i32 = 10;

/// The room quota the sampler aims for.
pub const MAX_ROOMS: i32 = 20;

/// Cap on placement attempts, so that a grid too tight for its quota ends
/// the sampling with fewer rooms instead of spinning forever.
pub const MAX_PLACE_ATTEMPTS: i32 = 500;

/// Failure of a bounds-checked carving call: the requested cells do not all
/// lie on the grid, so nothing was written.
#[derive(Copy, Clone, PartialEq, Eq, Structural, Debug)]
pub enum MapError {
    OutOfBounds,
}

/// The dungeon: a grid of cells indexed `[x][y]`, the rooms accepted so far,
/// and the entities that live on the map.
pub struct DungeonMap {
    pub entities: Vec<Entity>,
    pub cells: Vec<Vec<Cell>>,
    pub rooms: Vec<Room>,
}

/// The cell of a grid at `(x, y)`; the grid is a vector of columns.
pub open spec fn cell_at(cells: Seq<Vec<Cell>>, x: int, y: int) -> Cell {
    cells[x]@[y]
}

/// A `width + 1` by `height + 1` grid of cells.
pub open spec fn grid_dims(cells: Seq<Vec<Cell>>, width: int, height: int) -> bool {
    cells.len() == width + 1 && forall|i: int|
        0 <= i < cells.len() ==> (#[trigger] cells[i])@.len() == height + 1
}

/// No cell of the grid is passable.
pub open spec fn all_impassable(cells: Seq<Vec<Cell>>) -> bool {
    forall|x: int, y: int|
        0 <= x < cells.len() && 0 <= y < cells[x]@.len() ==> !(#[trigger] cell_at(
            cells,
            x,
            y,
        )).passable
}

/// Every grid coordinate is addressable by an `i32`.
pub open spec fn grid_i32_bounded(cells: Seq<Vec<Cell>>) -> bool {
    cells.len() <= 0x8000_0000 && forall|i: int|
        0 <= i < cells.len() ==> (#[trigger] cells[i])@.len() <= 0x8000_0000
}

/// Whether `(x, y)` names a cell of the grid that an entity may stand on;
/// coordinates off the grid are simply not passable.
pub open spec fn passable_at(cells: Seq<Vec<Cell>>, x: int, y: int) -> bool {
    0 <= x < cells.len() && 0 <= y < cells[x]@.len() && cells[x]@[y].passable
}

/// The rectangle `[x, x + w) x [y, y + h)`.
pub open spec fn in_rect(x: int, y: int, w: int, h: int, i: int, j: int) -> bool {
    x <= i < x + w && y <= j < y + h
}

/// Whether carving the rectangle `[x, x + w) x [y, y + h)` touches only
/// cells of the grid (an empty rectangle trivially does), with every carved
/// coordinate still representable as an `i32`.
pub open spec fn room_fits(cells: Seq<Vec<Cell>>, x: int, y: int, w: int, h: int) -> bool {
    w <= 0 || h <= 0 || (0 <= x && 0 <= y && x + w <= i32::MAX && y + h <= i32::MAX && x + w
        <= cells.len() && forall|i: int| x <= i < x + w ==> y + h <= (#[trigger] cells[i])@.len())
}

/// The smaller of two bounds; carving a run orders its endpoints with this.
pub open spec fn imin(a: int, b: int) -> int {
    if a <= b {
        a
    } else {
        b
    }
}

/// The larger of two bounds.
pub open spec fn imax(a: int, b: int) -> int {
    if a <= b {
        b
    } else {
        a
    }
}

/// Whether the horizontal run at row `y` from `x1` to `x2` (both ends
/// included, in either order) lies wholly on the grid.
pub open spec fn h_span_fits(cells: Seq<Vec<Cell>>, x1: int, x2: int, y: int) -> bool {
    0 <= imin(x1, x2) && imax(x1, x2) < cells.len() && 0 <= y && forall|i: int|
        imin(x1, x2) <= i <= imax(x1, x2) ==> y < (#[trigger] cells[i])@.len()
}

/// The cells of the horizontal run at row `y` from `x1` to `x2`.
pub open spec fn on_h_run(x1: int, x2: int, y: int, i: int, j: int) -> bool {
    j == y && imin(x1, x2) <= i <= imax(x1, x2)
}

/// Whether the vertical run at column `x` from `y1` to `y2` (both ends
/// included, in either order) lies wholly on the grid.
pub open spec fn v_span_fits(cells: Seq<Vec<Cell>>, y1: int, y2: int, x: int) -> bool {
    0 <= imin(y1, y2) && 0 <= x < cells.len() && imax(y1, y2) < cells[x]@.len()
}

/// The cells of the vertical run at column `x` from `y1` to `y2`.
pub open spec fn on_v_run(y1: int, y2: int, x: int, i: int, j: int) -> bool {
    i == x && imin(y1, y2) <= j <= imax(y1, y2)
}

/// The cells of a room's carved rectangle.
pub open spec fn in_room(r: Room, x: int, y: int) -> bool {
    r.x1 <= x < r.x2 && r.y1 <= y < r.y2
}

/// Whether `(x, y)` lies in some accepted room's rectangle.
pub open spec fn in_some_room(rooms: Seq<Room>, x: int, y: int) -> bool {
    exists|i: int| 0 <= i < rooms.len() && in_room(#[trigger] rooms[i], x, y)
}

/// An accepted room lies strictly inside the border ring: corners ordered,
/// with at least one wall column and row between it and the ring.
pub open spec fn room_interior_ok(r: Room, width: int, height: int) -> bool {
    1 <= r.x1 < r.x2 <= width - 2 && 1 <= r.y1 < r.y2 <= height - 2
}

/// The two straight runs one carve-list record asks for: a horizontal run
/// at the first room's center row out to the second room's center column,
/// then a vertical run at the first room's center column.
pub open spec fn on_rd_tunnels(rd: RoomDistance, x: int, y: int) -> bool {
    on_h_run(center_x(rd.room_one), center_x(rd.room_two), center_y(rd.room_one), x, y) || on_v_run(
        center_y(rd.room_one),
        center_y(rd.room_two),
        center_x(rd.room_one),
        x,
        y,
    )
}

/// Whether `(x, y)` lies on some corridor of the carve list.
pub open spec fn on_some_tunnel(s: Seq<RoomDistance>, x: int, y: int) -> bool {
    exists|k: int| 0 <= k < s.len() && on_rd_tunnels(#[trigger] s[k], x, y)
}

/// Whether `(x, y)` was carved to floor: it lies in an accepted room or on
/// a corridor of the carve list.
pub open spec fn carved(rooms: Seq<Room>, s: Seq<RoomDistance>, x: int, y: int) -> bool {
    in_some_room(rooms, x, y) || on_some_tunnel(s, x, y)
}

/// The ring cells the border pass writes: both extreme rows for columns
/// `[0, width)` and both extreme columns for rows `[0, height)`. The far
/// corner `(width, height)` is the one ring cell no pass reaches; it keeps
/// whatever the grid held there.
pub open spec fn on_written_ring(width: int, height: int, x: int, y: int) -> bool {
    (y == 0 && 0 <= x < width) || (y == height && 0 <= x < width) || (x == 0 && 0 <= y < height)
        || (x == width && 0 <= y < height)
}

/// One placement attempt after another, as a function of the generator
/// state: each attempt draws a width, a height, then a position that keeps
/// the candidate inside the border ring, and accepts the candidate exactly
/// when it overlaps no room accepted before it. Placement stops at the
/// quota, or when the attempts are spent. The result is the accepted rooms
/// in order of acceptance, and the generator state left behind.
pub open spec fn place_rooms_spec(
    state: u64,
    rooms: Seq<Room>,
    attempts_left: int,
    width: int,
    height: int,
) -> (Seq<Room>, u64)
    decreases attempts_left,
{
    if attempts_left <= 0 || rooms.len() as int >= MAX_ROOMS as int {
        (rooms, state)
    } else {
        let w = rand_in_range(state, ROOM_MIN_W as int, ROOM_MAX_W as int);
        let s1 = lcg_next(state);
        let h = rand_in_range(s1, ROOM_MIN_H as int, ROOM_MAX_H as int);
        let s2 = lcg_next(s1);
        let x = rand_in_range(s2, 1, width - w - 1);
        let s3 = lcg_next(s2);
        let y = rand_in_range(s3, 1, height - h - 1);
        let s4 = lcg_next(s3);
        let cand = Room { x1: x as i32, y1: y as i32, x2: (x + w) as i32, y2: (y + h) as i32 };
        if exists|i: int| 0 <= i < rooms.len() && overlaps(cand, #[trigger] rooms[i]) {
            place_rooms_spec(s4, rooms, attempts_left - 1, width, height)
        } else {
            place_rooms_spec(s4, rooms.push(cand), attempts_left - 1, width, height)
        }
    }
}

/// One unfolding of `place_rooms_spec` when an attempt is still available
/// and the quota is not met.
proof fn lemma_place_rooms_step(state: u64, rooms: Seq<Room>, n: int, width: int, height: int)
    requires
        n > 0,
        rooms.len() < (MAX_ROOMS as int),
    ensures
        ({
            let w = rand_in_range(state, ROOM_MIN_W as int, ROOM_MAX_W as int);
            let s1 = lcg_next(state);
            let h = rand_in_range(s1, ROOM_MIN_H as int, ROOM_MAX_H as int);
            let s2 = lcg_next(s1);
            let x = rand_in_range(s2, 1, width - w - 1);
            let s3 = lcg_next(s2);
            let y = rand_in_range(s3, 1, height - h - 1);
            let s4 = lcg_next(s3);
            let cand = Room {
                x1: x as i32,
                y1: y as i32,
                x2: (x + w) as i32,
                y2: (y + h) as i32,
            };
            place_rooms_spec(state, rooms, n, width, height) == (if exists|i: int|
                0 <= i < rooms.len() && overlaps(cand, #[trigger] rooms[i]) {
                place_rooms_spec(s4, rooms, n - 1, width, height)
            } else {
                place_rooms_spec(s4, rooms.push(cand), n - 1, width, height)
            })
        }),
{
}

/// Carving one more accepted room keeps the grid described by the room
/// list: floor exactly on the rooms' rectangles, the base grid elsewhere.
proof fn lemma_rooms_cells_extend(
    base: Seq<Vec<Cell>>,
    pre: Seq<Vec<Cell>>,
    post: Seq<Vec<Cell>>,
    pre_rooms: Seq<Room>,
    room: Room,
    width: int,
    height: int,
)
    requires
        grid_dims(pre, width, height),
        grid_dims(post, width, height),
        forall|a: int, b: int|
            0 <= a <= width && 0 <= b <= height ==> #[trigger] cell_at(pre, a, b) == (if in_some_room(
                pre_rooms,
                a,
                b,
            ) {
                floor_cell(a, b)
            } else {
                cell_at(base, a, b)
            }),
        forall|a: int, b: int|
            0 <= a <= width && 0 <= b <= height ==> #[trigger] cell_at(post, a, b) == (if in_room(
                room,
                a,
                b,
            ) {
                floor_cell(a, b)
            } else {
                cell_at(pre, a, b)
            }),
    ensures
        forall|a: int, b: int|
            0 <= a <= width && 0 <= b <= height ==> #[trigger] cell_at(post, a, b) == (if in_some_room(
                pre_rooms.push(room),
                a,
                b,
            ) {
                floor_cell(a, b)
            } else {
                cell_at(base, a, b)
            }),
{
    let rooms = pre_rooms.push(room);
    assert forall|a: int, b: int| 0 <= a <= width && 0 <= b <= height implies #[trigger] cell_at(
        post,
        a,
        b,
    ) == (if in_some_room(rooms, a, b) {
        floor_cell(a, b)
    } else {
        cell_at(base, a, b)
    }) by {
        if in_some_room(rooms, a, b) {
            let i = choose|i: int| 0 <= i < rooms.len() && in_room(#[trigger] rooms[i], a, b);
            if i < pre_rooms.len() {
                assert(in_room(pre_rooms[i], a, b));
                assert(in_some_room(pre_rooms, a, b));
                assert(cell_at(pre, a, b) == floor_cell(a, b));
            } else {
                assert(in_room(room, a, b));
            }
        } else {
            assert(!in_room(room, a, b)) by {
                if in_room(room, a, b) {
                    assert(in_room(rooms[pre_rooms.len() as int], a, b));
                }
            }
            assert(!in_some_room(pre_rooms, a, b)) by {
                if in_some_room(pre_rooms, a, b) {
                    let i = choose|i: int|
                        0 <= i < pre_rooms.len() && in_room(#[trigger] pre_rooms[i], a, b);
                    assert(in_room(rooms[i], a, b));
                }
            }
        }
    }
}

/// Both rooms of a carve-list record lie strictly inside the border ring.
pub open spec fn rd_rooms_interior(rd: RoomDistance, width: int, height: int) -> bool {
    room_interior_ok(rd.room_one, width, height) && room_interior_ok(rd.room_two, width, height)
}

/// Carving the two runs of one more record keeps the grid described by the
/// carve list: floor exactly on the first `k + 1` records' runs, the base
/// grid elsewhere.
proof fn lemma_tunnels_cells_extend(
    base: Seq<Vec<Cell>>,
    pre: Seq<Vec<Cell>>,
    mid: Seq<Vec<Cell>>,
    post: Seq<Vec<Cell>>,
    s: Seq<RoomDistance>,
    k: int,
    width: int,
    height: int,
)
    requires
        0 <= k < s.len(),
        forall|a: int, b: int|
            0 <= a <= width && 0 <= b <= height ==> #[trigger] cell_at(pre, a, b) == (if on_some_tunnel(
                s.take(k),
                a,
                b,
            ) {
                floor_cell(a, b)
            } else {
                cell_at(base, a, b)
            }),
        forall|a: int, b: int|
            0 <= a <= width && 0 <= b <= height ==> #[trigger] cell_at(mid, a, b) == (if on_h_run(
                center_x(s[k].room_one),
                center_x(s[k].room_two),
                center_y(s[k].room_one),
                a,
                b,
            ) {
                floor_cell(a, b)
            } else {
                cell_at(pre, a, b)
            }),
        forall|a: int, b: int|
            0 <= a <= width && 0 <= b <= height ==> #[trigger] cell_at(post, a, b) == (if on_v_run(
                center_y(s[k].room_one),
                center_y(s[k].room_two),
                center_x(s[k].room_one),
                a,
                b,
            ) {
                floor_cell(a, b)
            } else {
                cell_at(mid, a, b)
            }),
    ensures
        forall|a: int, b: int|
            0 <= a <= width && 0 <= b <= height ==> #[trigger] cell_at(post, a, b) == (if on_some_tunnel(
                s.take(k + 1),
                a,
                b,
            ) {
                floor_cell(a, b)
            } else {
                cell_at(base, a, b)
            }),
{
    assert forall|a: int, b: int| 0 <= a <= width && 0 <= b <= height implies #[trigger] cell_at(
        post,
        a,
        b,
    ) == (if on_some_tunnel(s.take(k + 1), a, b) {
        floor_cell(a, b)
    } else {
        cell_at(base, a, b)
    }) by {
        if on_rd_tunnels(s[k], a, b) {
            assert(s.take(k + 1)[k] == s[k]);
            assert(on_some_tunnel(s.take(k + 1), a, b));
            assert(cell_at(post, a, b) == floor_cell(a, b));
        } else {
            assert(cell_at(post, a, b) == cell_at(pre, a, b));
            if on_some_tunnel(s.take(k), a, b) {
                let m = choose|m: int|
                    0 <= m < s.take(k).len() && on_rd_tunnels(#[trigger] s.take(k)[m], a, b);
                assert(on_rd_tunnels(s.take(k + 1)[m], a, b));
                assert(on_some_tunnel(s.take(k + 1), a, b));
            } else {
                assert(!on_some_tunnel(s.take(k + 1), a, b)) by {
                    if on_some_tunnel(s.take(k + 1), a, b) {
                        let m = choose|m: int|
                            0 <= m < s.take(k + 1).len() && on_rd_tunnels(
                                #[trigger] s.take(k + 1)[m],
                                a,
                                b,
                            );
                        if m < k {
                            assert(on_rd_tunnels(s.take(k)[m], a, b));
                        } else {
                            assert(on_rd_tunnels(s[k], a, b));
                        }
                    }
                }
            }
        }
    }
}

/// Everything carved lies strictly inside the border ring, so the final
/// grid reads off phase by phase: the ring and the untouched far corner
/// stay walls, carved cells are floor, and the rest of the interior is the
/// wall the first pass wrote.
proof fn lemma_digger_assembly(
    base: Seq<Vec<Cell>>,
    filled: Seq<Vec<Cell>>,
    roomed: Seq<Vec<Cell>>,
    tunneled: Seq<Vec<Cell>>,
    walled: Seq<Vec<Cell>>,
    rooms: Seq<Room>,
    s: Seq<RoomDistance>,
    width: int,
    height: int,
)
    requires
        1 <= width,
        1 <= height,
        grid_dims(base, width, height),
        all_impassable(base),
        forall|a: int, b: int|
            0 <= a <= width && 0 <= b <= height ==> #[trigger] cell_at(filled, a, b) == (if 1 <= a
                < width && 1 <= b < height {
                wall_cell(a, b)
            } else {
                cell_at(base, a, b)
            }),
        forall|a: int, b: int|
            0 <= a <= width && 0 <= b <= height ==> #[trigger] cell_at(roomed, a, b) == (if in_some_room(
                rooms,
                a,
                b,
            ) {
                floor_cell(a, b)
            } else {
                cell_at(filled, a, b)
            }),
        forall|a: int, b: int|
            0 <= a <= width && 0 <= b <= height ==> #[trigger] cell_at(tunneled, a, b) == (if on_some_tunnel(
                s,
                a,
                b,
            ) {
                floor_cell(a, b)
            } else {
                cell_at(roomed, a, b)
            }),
        forall|a: int, b: int|
            0 <= a <= width && 0 <= b <= height ==> #[trigger] cell_at(walled, a, b) == (if on_written_ring(
                width,
                height,
                a,
                b,
            ) {
                wall_cell(a, b)
            } else {
                cell_at(tunneled, a, b)
            }),
        forall|k: int|
            0 <= k < rooms.len() ==> room_interior_ok(#[trigger] rooms[k], width, height),
        forall|k: int| 0 <= k < s.len() ==> rd_rooms_interior(#[trigger] s[k], width, height),
    ensures
        forall|a: int, b: int|
            0 <= a <= width && 0 <= b <= height ==> #[trigger] cell_at(walled, a, b) == (if a
                == width && b == height {
                cell_at(base, a, b)
            } else if a == 0 || b == 0 || a == width || b == height {
                wall_cell(a, b)
            } else if carved(rooms, s, a, b) {
                floor_cell(a, b)
            } else {
                wall_cell(a, b)
            }),
        forall|a: int, b: int|
            0 <= a <= width && 0 <= b <= height && (a == 0 || b == 0 || a == width || b == height)
                ==> !(#[trigger] cell_at(walled, a, b)).passable,
{
    assert forall|a: int, b: int|
        0 <= a <= width && 0 <= b <= height && carved(rooms, s, a, b) implies 1 <= a <= width - 2
        && 1 <= b <= height - 2 by {
        if in_some_room(rooms, a, b) {
            let i = choose|i: int| 0 <= i < rooms.len() && in_room(#[trigger] rooms[i], a, b);
            assert(room_interior_ok(rooms[i], width, height));
        } else {
            let m = choose|m: int| 0 <= m < s.len() && on_rd_tunnels(#[trigger] s[m], a, b);
            assert(rd_rooms_interior(s[m], width, height));
            lemma_center_bounds(s[m].room_one);
            lemma_center_bounds(s[m].room_two);
        }
    }
    assert forall|a: int, b: int| 0 <= a <= width && 0 <= b <= height implies #[trigger] cell_at(
        walled,
        a,
        b,
    ) == (if a == width && b == height {
        cell_at(base, a, b)
    } else if a == 0 || b == 0 || a == width || b == height {
        wall_cell(a, b)
    } else if carved(rooms, s, a, b) {
        floor_cell(a, b)
    } else {
        wall_cell(a, b)
    }) by {
        if a == width && b == height {
            assert(!on_written_ring(width, height, a, b));
            assert(!carved(rooms, s, a, b));
            assert(cell_at(walled, a, b) == cell_at(base, a, b));
        } else if a == 0 || b == 0 || a == width || b == height {
            assert(on_written_ring(width, height, a, b));
        } else {
            assert(!on_written_ring(width, height, a, b));
            if carved(rooms, s, a, b) {
                if on_some_tunnel(s, a, b) {
                    assert(cell_at(walled, a, b) == floor_cell(a, b));
                } else {
                    assert(in_some_room(rooms, a, b));
                    assert(cell_at(walled, a, b) == floor_cell(a, b));
                }
            } else {
                assert(cell_at(walled, a, b) == wall_cell(a, b));
            }
        }
    }
    assert forall|a: int, b: int|
        0 <= a <= width && 0 <= b <= height && (a == 0 || b == 0 || a == width || b == height)
        implies !(#[trigger] cell_at(walled, a, b)).passable by {
        if a == width && b == height {
            assert(cell_at(walled, a, b) == cell_at(base, a, b));
            assert(!cell_at(base, a, b).passable);
        }
    }
}

/// Whether a candidate overlaps any room accepted so far.
#[verifier::loop_isolation(false)]
fn intersects_any(rooms: &Vec<Room>, cand: &Room) -> (r: bool)
    ensures
        r == exists|i: int| 0 <= i < rooms@.len() && overlaps(*cand, #[trigger] rooms@[i]),
{
    let mut k: usize = 0;
    while k < rooms.len()
        invariant
            0 <= k <= rooms@.len(),
            forall|i: int| 0 <= i < k ==> !overlaps(*cand, #[trigger] rooms@[i]),
        decreases rooms@.len() - k,
    {
        if cand.intersect(&rooms[k]) {
            return true;
        }
        k += 1;
    }
    false
}

/// Bounds-checked passability lookup: out-of-range coordinates are reported
/// as not passable rather than faulting.
pub fn is_passable(x: i32, y: i32, map: &DungeonMap) -> (r: bool)
    ensures
        r == passable_at(map.cells@, x as int, y as int),
{
    if x < 0 || y < 0 {
        return false;
    }
    let xu = x as usize;
    let yu = y as usize;
    if xu >= map.cells.len() {
        return false;
    }
    if yu >= map.cells[xu].len() {
        return false;
    }
    map.cells[xu][yu].passable
}

impl DungeonMap {
    /// A fresh map: a `(width + 1) x (height + 1)` grid filled with the
    /// impassable out-of-bounds sentinel, no rooms, no entities.
    #[verifier::loop_isolation(false)]
    pub fn new(width: i32, height: i32) -> (r: DungeonMap)
        requires
            0 <= width < i32::MAX,
            0 <= height < i32::MAX,
        ensures
            grid_dims(r.cells@, width as int, height as int),
            forall|x: int, y: int|
                0 <= x <= width && 0 <= y <= height ==> #[trigger] cell_at(r.cells@, x, y)
                    == sentinel_cell(),
            all_impassable(r.cells@),
            r.rooms@.len() == 0,
            r.entities@.len() == 0,
    {
        let w1: usize = width as usize + 1;
        let h1: usize = height as usize + 1;
        let mut cells: Vec<Vec<Cell>> = Vec::new();
        while cells.len() < w1
            invariant
                cells@.len() <= w1,
                forall|i: int| 0 <= i < cells@.len() ==> (#[trigger] cells@[i])@.len() == h1,
                forall|i: int, j: int|
                    0 <= i < cells@.len() && 0 <= j < h1 ==> #[trigger] cell_at(cells@, i, j)
                        == sentinel_cell(),
            decreases w1 - cells.len(),
        {
            let mut col: Vec<Cell> = Vec::new();
            while col.len() < h1
                invariant
                    col@.len() <= h1,
                    forall|j: int| 0 <= j < col@.len() ==> #[trigger] col@[j] == sentinel_cell(),
                decreases h1 - col.len(),
            {
                col.push(Cell { x: -1, y: -1, c: '!', passable: false });
            }
            let ghost vpre = cells@;
            cells.push(col);
            proof {
                assert forall|i: int, j: int|
                    0 <= i < cells@.len() && 0 <= j < h1 implies #[trigger] cell_at(cells@, i, j)
                    == sentinel_cell() by {
                    if i == vpre.len() {
                        assert(cell_at(cells@, i, j) == col@[j]);
                    } else {
                        assert(cell_at(cells@, i, j) == cell_at(vpre, i, j));
                    }
                }
            }
        }
        DungeonMap { entities: Vec::new(), cells, rooms: Vec::new() }
    }

    /// Carve the rectangle `[x, x + w) x [y, y + h)` to floor. If any of its
    /// cells would fall off the grid, nothing is written and the out-of-range
    /// failure is reported instead.
    #[verifier::loop_isolation(false)]
    pub fn make_room(&mut self, x: i32, y: i32, w: i32, h: i32) -> (r: Result<(), MapError>)
        ensures
            r.is_ok() == room_fits(old(self).cells@, x as int, y as int, w as int, h as int),
            r.is_err() ==> *final(self) == *old(self),
            final(self).rooms@ == old(self).rooms@,
            final(self).entities@ == old(self).entities@,
            final(self).cells@.len() == old(self).cells@.len(),
            forall|i: int|
                0 <= i < old(self).cells@.len() ==> (#[trigger] final(self).cells@[i])@.len() == old(
                    self,
                ).cells@[i]@.len(),
            r.is_ok() ==> forall|i: int, j: int|
                0 <= i < old(self).cells@.len() && 0 <= j < old(self).cells@[i]@.len()
                    ==> #[trigger] cell_at(final(self).cells@, i, j) == (if in_rect(
                    x as int,
                    y as int,
                    w as int,
                    h as int,
                    i,
                    j,
                ) {
                    floor_cell(i, j)
                } else {
                    cell_at(old(self).cells@, i, j)
                }),
    {
        if w <= 0 || h <= 0 {
            return Ok(());
        }
        if x < 0 || y < 0 {
            return Err(MapError::OutOfBounds);
        }
        let xw: i64 = x as i64 + w as i64;
        let yh: i64 = y as i64 + h as i64;
        if xw > i32::MAX as i64 || yh > i32::MAX as i64 {
            return Err(MapError::OutOfBounds);
        }
        let xu = x as usize;
        let yu = y as usize;
        let wu = w as usize;
        let hu = h as usize;
        if wu > self.cells.len() || xu > self.cells.len() - wu {
            return Err(MapError::OutOfBounds);
        }
        let mut i = xu;
        while i < xu + wu
            invariant
                xu <= i <= xu + wu,
                forall|k: int| xu <= k < i ==> yu + hu <= (#[trigger] self.cells@[k])@.len(),
            decreases xu + wu - i,
        {
            let col_len = self.cells[i].len();
            if hu > col_len || yu > col_len - hu {
                return Err(MapError::OutOfBounds);
            }
            i += 1;
        }
        let ghost pre = self.cells@;
        let mut i = xu;
        while i < xu + wu
            invariant
                xu <= i <= xu + wu,
                self.cells@.len() == pre.len(),
                forall|k: int| 0 <= k < pre.len() ==> (#[trigger] self.cells@[k])@.len()
                    == pre[k]@.len(),
                self.rooms@ == old(self).rooms@,
                self.entities@ == old(self).entities@,
                forall|a: int, b: int|
                    0 <= a < pre.len() && 0 <= b < pre[a]@.len() ==> #[trigger] cell_at(
                        self.cells@,
                        a,
                        b,
                    ) == (if xu <= a < i && yu <= b < yu + hu {
                        floor_cell(a, b)
                    } else {
                        cell_at(pre, a, b)
                    }),
            decreases xu + wu - i,
        {
            let mut j = yu;
            while j < yu + hu
                invariant
                    xu <= i < xu + wu,
                    yu <= j <= yu + hu,
                    self.cells@.len() == pre.len(),
                    forall|k: int| 0 <= k < pre.len() ==> (#[trigger] self.cells@[k])@.len()
                        == pre[k]@.len(),
                    self.rooms@ == old(self).rooms@,
                    self.entities@ == old(self).entities@,
                    forall|a: int, b: int|
                        0 <= a < pre.len() && 0 <= b < pre[a]@.len() ==> #[trigger] cell_at(
                            self.cells@,
                            a,
                            b,
                        ) == (if (xu <= a < i && yu <= b < yu + hu) || (a == i && yu <= b < j) {
                            floor_cell(a, b)
                        } else {
                            cell_at(pre, a, b)
                        }),
                decreases yu + hu - j,
            {
                let ghost vpre = self.cells@;
                self.cells[i][j] = Cell { x: i as i32, y: j as i32, c: '.', passable: true };
                proof {
                    assert forall|a: int, b: int|
                        0 <= a < pre.len() && 0 <= b < pre[a]@.len() implies #[trigger] cell_at(
                        self.cells@,
                        a,
                        b,
                    ) == (if (xu <= a < i && yu <= b < yu + hu) || (a == i && yu <= b < j + 1) {
                        floor_cell(a, b)
                    } else {
                        cell_at(pre, a, b)
                    }) by {
                        if a == i as int && b == j as int {
                            assert(cell_at(self.cells@, a, b) == floor_cell(a, b));
                        } else {
                            assert(cell_at(self.cells@, a, b) == cell_at(vpre, a, b));
                        }
                    }
                }
                j += 1;
            }
            i += 1;
        }
        Ok(())
    }

    /// Carve the horizontal run of floor at row `y` between columns `x1` and
    /// `x2`, both endpoints included, in either order. Out-of-range requests
    /// write nothing and report the failure.
    #[verifier::loop_isolation(false)]
    pub fn make_h_tunnel(&mut self, x1: i32, x2: i32, y: i32) -> (r: Result<(), MapError>)
        ensures
            r.is_ok() == h_span_fits(old(self).cells@, x1 as int, x2 as int, y as int),
            r.is_err() ==> *final(self) == *old(self),
            final(self).rooms@ == old(self).rooms@,
            final(self).entities@ == old(self).entities@,
            final(self).cells@.len() == old(self).cells@.len(),
            forall|i: int|
                0 <= i < old(self).cells@.len() ==> (#[trigger] final(self).cells@[i])@.len() == old(
                    self,
                ).cells@[i]@.len(),
            r.is_ok() ==> forall|i: int, j: int|
                0 <= i < old(self).cells@.len() && 0 <= j < old(self).cells@[i]@.len()
                    ==> #[trigger] cell_at(final(self).cells@, i, j) == (if on_h_run(
                    x1 as int,
                    x2 as int,
                    y as int,
                    i,
                    j,
                ) {
                    floor_cell(i, j)
                } else {
                    cell_at(old(self).cells@, i, j)
                }),
    {
        let lo = if x1 <= x2 {
            x1
        } else {
            x2
        };
        let hi = if x1 <= x2 {
            x2
        } else {
            x1
        };
        if lo < 0 || y < 0 {
            return Err(MapError::OutOfBounds);
        }
        let lou = lo as usize;
        let hiu = hi as usize;
        let yu = y as usize;
        if hiu >= self.cells.len() {
            return Err(MapError::OutOfBounds);
        }
        let mut i = lou;
        while i <= hiu
            invariant
                lou <= i <= hiu + 1,
                forall|k: int| lou <= k < i ==> yu < (#[trigger] self.cells@[k])@.len(),
            decreases hiu + 1 - i,
        {
            if yu >= self.cells[i].len() {
                return Err(MapError::OutOfBounds);
            }
            i += 1;
        }
        let ghost pre = self.cells@;
        let mut i = lou;
        while i <= hiu
            invariant
                lou <= i <= hiu + 1,
                self.cells@.len() == pre.len(),
                forall|k: int| 0 <= k < pre.len() ==> (#[trigger] self.cells@[k])@.len()
                    == pre[k]@.len(),
                self.rooms@ == old(self).rooms@,
                self.entities@ == old(self).entities@,
                forall|a: int, b: int|
                    0 <= a < pre.len() && 0 <= b < pre[a]@.len() ==> #[trigger] cell_at(
                        self.cells@,
                        a,
                        b,
                    ) == (if b == yu && lou <= a < i {
                        floor_cell(a, b)
                    } else {
                        cell_at(pre, a, b)
                    }),
            decreases hiu + 1 - i,
        {
            let ghost vpre = self.cells@;
            self.cells[i][yu] = Cell { x: i as i32, y: y, c: '.', passable: true };
            proof {
                assert forall|a: int, b: int|
                    0 <= a < pre.len() && 0 <= b < pre[a]@.len() implies #[trigger] cell_at(
                    self.cells@,
                    a,
                    b,
                ) == (if b == yu && lou <= a < i + 1 {
                    floor_cell(a, b)
                } else {
                    cell_at(pre, a, b)
                }) by {
                    if a == i as int && b == yu as int {
                        assert(cell_at(self.cells@, a, b) == floor_cell(a, b));
                    } else {
                        assert(cell_at(self.cells@, a, b) == cell_at(vpre, a, b));
                    }
                }
            }
            i += 1;
        }
        Ok(())
    }

    /// Carve the vertical run of floor at column `x` between rows `y1` and
    /// `y2`, both endpoints included, in either order. Out-of-range requests
    /// write nothing and report the failure.
    #[verifier::loop_isolation(false)]
    pub fn make_v_tunnel(&mut self, y1: i32, y2: i32, x: i32) -> (r: Result<(), MapError>)
        ensures
            r.is_ok() == v_span_fits(old(self).cells@, y1 as int, y2 as int, x as int),
            r.is_err() ==> *final(self) == *old(self),
            final(self).rooms@ == old(self).rooms@,
            final(self).entities@ == old(self).entities@,
            final(self).cells@.len() == old(self).cells@.len(),
            forall|i: int|
                0 <= i < old(self).cells@.len() ==> (#[trigger] final(self).cells@[i])@.len() == old(
                    self,
                ).cells@[i]@.len(),
            r.is_ok() ==> forall|i: int, j: int|
                0 <= i < old(self).cells@.len() && 0 <= j < old(self).cells@[i]@.len()
                    ==> #[trigger] cell_at(final(self).cells@, i, j) == (if on_v_run(
                    y1 as int,
                    y2 as int,
                    x as int,
                    i,
                    j,
                ) {
                    floor_cell(i, j)
                } else {
                    cell_at(old(self).cells@, i, j)
                }),
    {
        let lo = if y1 <= y2 {
            y1
        } else {
            y2
        };
        let hi = if y1 <= y2 {
            y2
        } else {
            y1
        };
        if lo < 0 || x < 0 {
            return Err(MapError::OutOfBounds);
        }
        let lou = lo as usize;
        let hiu = hi as usize;
        let xu = x as usize;
        if xu >= self.cells.len() {
            return Err(MapError::OutOfBounds);
        }
        if hiu >= self.cells[xu].len() {
            return Err(MapError::OutOfBounds);
        }
        let ghost pre = self.cells@;
        let mut j = lou;
        while j <= hiu
            invariant
                lou <= j <= hiu + 1,
                self.cells@.len() == pre.len(),
                forall|k: int| 0 <= k < pre.len() ==> (#[trigger] self.cells@[k])@.len()
                    == pre[k]@.len(),
                self.rooms@ == old(self).rooms@,
                self.entities@ == old(self).entities@,
                forall|a: int, b: int|
                    0 <= a < pre.len() && 0 <= b < pre[a]@.len() ==> #[trigger] cell_at(
                        self.cells@,
                        a,
                        b,
                    ) == (if a == xu && lou <= b < j {
                        floor_cell(a, b)
                    } else {
                        cell_at(pre, a, b)
                    }),
            decreases hiu + 1 - j,
        {
            let ghost vpre = self.cells@;
            self.cells[xu][j] = Cell { x: x, y: j as i32, c: '.', passable: true };
            proof {
                assert forall|a: int, b: int|
                    0 <= a < pre.len() && 0 <= b < pre[a]@.len() implies #[trigger] cell_at(
                    self.cells@,
                    a,
                    b,
                ) == (if a == xu && lou <= b < j + 1 {
                    floor_cell(a, b)
                } else {
                    cell_at(pre, a, b)
                }) by {
                    if a == xu as int && b == j as int {
                        assert(cell_at(self.cells@, a, b) == floor_cell(a, b));
                    } else {
                        assert(cell_at(self.cells@, a, b) == cell_at(vpre, a, b));
                    }
                }
            }
            j += 1;
        }
        Ok(())
    }

    /// Overwrite the interior `[1, width) x [1, height)` with impassable
    /// wall, leaving the ring and the far column and row untouched.
    #[verifier::loop_isolation(false)]
    fn fill_interior(&mut self, width: i32, height: i32)
        requires
            1 <= width,
            1 <= height,
            grid_dims(old(self).cells@, width as int, height as int),
        ensures
            grid_dims(final(self).cells@, width as int, height as int),
            final(self).rooms@ == old(self).rooms@,
            final(self).entities@ == old(self).entities@,
            forall|a: int, b: int|
                0 <= a <= width && 0 <= b <= height ==> #[trigger] cell_at(final(self).cells@, a, b)
                    == (if 1 <= a < width && 1 <= b < height {
                    wall_cell(a, b)
                } else {
                    cell_at(old(self).cells@, a, b)
                }),
    {
        let ghost pre = self.cells@;
        let mut w: i32 = 1;
        while w < width
            invariant
                1 <= w <= width,
                grid_dims(self.cells@, width as int, height as int),
                self.rooms@ == old(self).rooms@,
                self.entities@ == old(self).entities@,
                forall|a: int, b: int|
                    0 <= a <= width && 0 <= b <= height ==> #[trigger] cell_at(self.cells@, a, b)
                        == (if 1 <= a < w && 1 <= b < height {
                        wall_cell(a, b)
                    } else {
                        cell_at(pre, a, b)
                    }),
            decreases width - w,
        {
            let mut h: i32 = 1;
            while h < height
                invariant
                    1 <= w < width,
                    1 <= h <= height,
                    grid_dims(self.cells@, width as int, height as int),
                    self.rooms@ == old(self).rooms@,
                    self.entities@ == old(self).entities@,
                    forall|a: int, b: int|
                        0 <= a <= width && 0 <= b <= height ==> #[trigger] cell_at(
                            self.cells@,
                            a,
                            b,
                        ) == (if (1 <= a < w && 1 <= b < height) || (a == w && 1 <= b < h) {
                            wall_cell(a, b)
                        } else {
                            cell_at(pre, a, b)
                        }),
                decreases height - h,
            {
                let ghost vpre = self.cells@;
                self.cells[w as usize][h as usize] = Cell { x: w, y: h, c: '#', passable: false };
                proof {
                    assert forall|a: int, b: int|
                        0 <= a <= width && 0 <= b <= height implies #[trigger] cell_at(
                        self.cells@,
                        a,
                        b,
                    ) == (if (1 <= a < w && 1 <= b < height) || (a == w && 1 <= b < h + 1) {
                        wall_cell(a, b)
                    } else {
                        cell_at(pre, a, b)
                    }) by {
                        if a == w as int && b == h as int {
                            assert(cell_at(self.cells@, a, b) == wall_cell(a, b));
                        } else {
                            assert(cell_at(self.cells@, a, b) == cell_at(vpre, a, b));
                        }
                    }
                }
                h += 1;
            }
            w += 1;
        }
    }

    /// Sample candidate rooms and carve the accepted ones, exactly as
    /// `place_rooms_spec` describes from the generator's starting state.
    #[verifier::loop_isolation(false)]
    #[verifier::rlimit(80)]
    fn place_rooms(&mut self, width: i32, height: i32, rng: &mut Rng)
        requires
            ROOM_MAX_W + 2 <= width,
            ROOM_MAX_H + 2 <= height,
            width < i32::MAX,
            height < i32::MAX,
            grid_dims(old(self).cells@, width as int, height as int),
            old(self).rooms@.len() == 0,
        ensures
            grid_dims(final(self).cells@, width as int, height as int),
            final(self).entities@ == old(self).entities@,
            (final(self).rooms@, final(rng).state) == place_rooms_spec(
                old(rng).state,
                Seq::<Room>::empty(),
                MAX_PLACE_ATTEMPTS as int,
                width as int,
                height as int,
            ),
            final(self).rooms@.len() <= MAX_ROOMS,
            forall|k: int|
                0 <= k < final(self).rooms@.len() ==> room_interior_ok(
                    #[trigger] final(self).rooms@[k],
                    width as int,
                    height as int,
                ),
            forall|i: int, j: int|
                #![trigger final(self).rooms@[i], final(self).rooms@[j]]
                0 <= i < j < final(self).rooms@.len() ==> !overlaps(
                    final(self).rooms@[i],
                    final(self).rooms@[j],
                ),
            forall|a: int, b: int|
                0 <= a <= width && 0 <= b <= height ==> #[trigger] cell_at(final(self).cells@, a, b)
                    == (if in_some_room(final(self).rooms@, a, b) {
                    floor_cell(a, b)
                } else {
                    cell_at(old(self).cells@, a, b)
                }),
    {
        let ghost seed = rng.state;
        let ghost base = self.cells@;
        proof {
            assert(self.rooms@ =~= Seq::<Room>::empty());
        }
        let mut num_rooms: i32 = 0;
        let mut attempts: i32 = 0;
        while num_rooms < MAX_ROOMS && attempts < MAX_PLACE_ATTEMPTS
            invariant
                0 <= attempts <= MAX_PLACE_ATTEMPTS,
                0 <= num_rooms <= MAX_ROOMS,
                num_rooms as int == self.rooms@.len(),
                grid_dims(self.cells@, width as int, height as int),
                self.entities@ == old(self).entities@,
                forall|k: int|
                    0 <= k < self.rooms@.len() ==> room_interior_ok(
                        #[trigger] self.rooms@[k],
                        width as int,
                        height as int,
                    ),
                forall|i: int, j: int|
                    #![trigger self.rooms@[i], self.rooms@[j]]
                    0 <= i < j < self.rooms@.len() ==> !overlaps(self.rooms@[i], self.rooms@[j]),
                forall|a: int, b: int|
                    0 <= a <= width && 0 <= b <= height ==> #[trigger] cell_at(self.cells@, a, b)
                        == (if in_some_room(self.rooms@, a, b) {
                        floor_cell(a, b)
                    } else {
                        cell_at(base, a, b)
                    }),
                place_rooms_spec(
                    rng.state,
                    self.rooms@,
                    MAX_PLACE_ATTEMPTS - attempts,
                    width as int,
                    height as int,
                ) == place_rooms_spec(
                    seed,
                    Seq::<Room>::empty(),
                    MAX_PLACE_ATTEMPTS as int,
                    width as int,
                    height as int,
                ),
            decreases MAX_PLACE_ATTEMPTS - attempts,
        {
            let ghost pre_state = rng.state;
            let ghost pre_rooms = self.rooms@;
            let ghost pre_n = (MAX_PLACE_ATTEMPTS - attempts) as int;
            attempts += 1;
            let rand_w = rng.rand_int(ROOM_MIN_W, ROOM_MAX_W);
            let rand_h = rng.rand_int(ROOM_MIN_H, ROOM_MAX_H);
            let rand_x = rng.rand_int(1, width - rand_w - 1);
            let rand_y = rng.rand_int(1, height - rand_h - 1);
            let room = Room { x1: rand_x, y1: rand_y, x2: rand_x + rand_w, y2: rand_y + rand_h };
            let failed = intersects_any(&self.rooms, &room);
            if !failed {
                let ghost cells_pre = self.cells@;
                let res = self.make_room(rand_x, rand_y, rand_w, rand_h);
                proof {
                    assert(room_fits(
                        cells_pre,
                        rand_x as int,
                        rand_y as int,
                        rand_w as int,
                        rand_h as int,
                    ));
                    assert(res.is_ok());
                }
                self.rooms.push(room);
                num_rooms += 1;
                proof {
                    assert(room_interior_ok(room, width as int, height as int));
                    assert forall|i: int, j: int|
                        #![trigger self.rooms@[i], self.rooms@[j]]
                        0 <= i < j < self.rooms@.len() implies !overlaps(
                        self.rooms@[i],
                        self.rooms@[j],
                    ) by {
                        if j == self.rooms@.len() - 1 {
                            assert(self.rooms@[j] == room);
                            assert(!overlaps(room, pre_rooms[i]));
                        }
                    }
                    assert(forall|a: int, b: int|
                        0 <= a <= width && 0 <= b <= height ==> #[trigger] cell_at(self.cells@, a, b)
                            == (if in_room(room, a, b) {
                            floor_cell(a, b)
                        } else {
                            cell_at(cells_pre, a, b)
                        }));
                    lemma_rooms_cells_extend(
                        base,
                        cells_pre,
                        self.cells@,
                        pre_rooms,
                        room,
                        width as int,
                        height as int,
                    );
                }
            }
            proof {
                lemma_place_rooms_step(
                    pre_state,
                    pre_rooms,
                    pre_n,
                    width as int,
                    height as int,
                );
                let w_s = rand_in_range(pre_state, ROOM_MIN_W as int, ROOM_MAX_W as int);
                let s1 = lcg_next(pre_state);
                let h_s = rand_in_range(s1, ROOM_MIN_H as int, ROOM_MAX_H as int);
                let s2 = lcg_next(s1);
                let x_s = rand_in_range(s2, 1, width - w_s - 1);
                let s3 = lcg_next(s2);
                let y_s = rand_in_range(s3, 1, height - h_s - 1);
                let s4 = lcg_next(s3);
                assert(w_s == rand_w as int);
                assert(h_s == rand_h as int);
                assert(x_s == rand_x as int);
                assert(y_s == rand_y as int);
                assert(s4 == rng.state);
                let cand = (Room {
                    x1: x_s as i32,
                    y1: y_s as i32,
                    x2: (x_s + w_s) as i32,
                    y2: (y_s + h_s) as i32,
                });
                assert(cand == room);
                assert((exists|i: int|
                    0 <= i < pre_rooms.len() && overlaps(cand, #[trigger] pre_rooms[i])) == failed);
                assert(place_rooms_spec(pre_state, pre_rooms, pre_n, width as int, height as int)
                    == place_rooms_spec(
                    rng.state,
                    self.rooms@,
                    pre_n - 1,
                    width as int,
                    height as int,
                ));
            }
        }
        proof {
            assert(place_rooms_spec(
                rng.state,
                self.rooms@,
                MAX_PLACE_ATTEMPTS - attempts,
                width as int,
                height as int,
            ) == (self.rooms@, rng.state));
        }
    }

    /// Carve the two straight runs of every carve-list record, in list
    /// order: a horizontal run at the first room's center row, then a
    /// vertical run at the first room's center column.
    #[verifier::loop_isolation(false)]
    fn carve_tunnels(&mut self, s: &Vec<RoomDistance>, width: i32, height: i32)
        requires
            grid_dims(old(self).cells@, width as int, height as int),
            forall|k: int|
                0 <= k < s@.len() ==> rd_rooms_interior(#[trigger] s@[k], width as int, height as int),
        ensures
            grid_dims(final(self).cells@, width as int, height as int),
            final(self).rooms@ == old(self).rooms@,
            final(self).entities@ == old(self).entities@,
            forall|a: int, b: int|
                0 <= a <= width && 0 <= b <= height ==> #[trigger] cell_at(final(self).cells@, a, b)
                    == (if on_some_tunnel(s@, a, b) {
                    floor_cell(a, b)
                } else {
                    cell_at(old(self).cells@, a, b)
                }),
    {
        let ghost base = self.cells@;
        proof {
            assert(s@.take(0) =~= Seq::<RoomDistance>::empty());
        }
        let mut k: usize = 0;
        while k < s.len()
            invariant
                0 <= k <= s@.len(),
                grid_dims(self.cells@, width as int, height as int),
                self.rooms@ == old(self).rooms@,
                self.entities@ == old(self).entities@,
                forall|a: int, b: int|
                    0 <= a <= width && 0 <= b <= height ==> #[trigger] cell_at(self.cells@, a, b)
                        == (if on_some_tunnel(s@.take(k as int), a, b) {
                        floor_cell(a, b)
                    } else {
                        cell_at(base, a, b)
                    }),
            decreases s@.len() - k,
        {
            let rd = s[k];
            let (r_x, r_y) = rd.room_one.center();
            let (o_x, o_y) = rd.room_two.center();
            proof {
                assert(rd_rooms_interior(s@[k as int], width as int, height as int));
                lemma_center_bounds(rd.room_one);
                lemma_center_bounds(rd.room_two);
            }
            let ghost pre = self.cells@;
            let res1 = self.make_h_tunnel(r_x, o_x, r_y);
            proof {
                assert(res1.is_ok());
            }
            let ghost mid = self.cells@;
            let res2 = self.make_v_tunnel(r_y, o_y, r_x);
            proof {
                assert(res2.is_ok());
                lemma_tunnels_cells_extend(
                    base,
                    pre,
                    mid,
                    self.cells@,
                    s@,
                    k as int,
                    width as int,
                    height as int,
                );
            }
            k += 1;
        }
        proof {
            assert(s@.take(s@.len() as int) =~= s@);
        }
    }

    /// Force the outer ring back to impassable wall: both extreme rows for
    /// columns `[0, width)`, then both extreme columns for rows
    /// `[0, height)`, overwriting any carving that reached the edge.
    #[verifier::loop_isolation(false)]
    fn wall_border(&mut self, width: i32, height: i32)
        requires
            0 <= width,
            0 <= height,
            grid_dims(old(self).cells@, width as int, height as int),
        ensures
            grid_dims(final(self).cells@, width as int, height as int),
            final(self).rooms@ == old(self).rooms@,
            final(self).entities@ == old(self).entities@,
            forall|a: int, b: int|
                0 <= a <= width && 0 <= b <= height ==> #[trigger] cell_at(final(self).cells@, a, b)
                    == (if on_written_ring(width as int, height as int, a, b) {
                    wall_cell(a, b)
                } else {
                    cell_at(old(self).cells@, a, b)
                }),
    {
        let ghost pre = self.cells@;
        let mut w: i32 = 0;
        while w < width
            invariant
                0 <= w <= width,
                grid_dims(self.cells@, width as int, height as int),
                self.rooms@ == old(self).rooms@,
                self.entities@ == old(self).entities@,
                forall|a: int, b: int|
                    0 <= a <= width && 0 <= b <= height ==> #[trigger] cell_at(self.cells@, a, b)
                        == (if (b == 0 || b == height) && 0 <= a < w {
                        wall_cell(a, b)
                    } else {
                        cell_at(pre, a, b)
                    }),
            decreases width - w,
        {
            let ghost vpre = self.cells@;
            self.cells[w as usize][0] = Cell { x: w, y: 0, c: '#', passable: false };
            self.cells[w as usize][height as usize] = Cell {
                x: w,
                y: height,
                c: '#',
                passable: false,
            };
            proof {
                assert forall|a: int, b: int|
                    0 <= a <= width && 0 <= b <= height implies #[trigger] cell_at(
                    self.cells@,
                    a,
                    b,
                ) == (if (b == 0 || b == height) && 0 <= a < w + 1 {
                    wall_cell(a, b)
                } else {
                    cell_at(pre, a, b)
                }) by {
                    if a == w as int && b == 0 {
                        assert(cell_at(self.cells@, a, b) == wall_cell(a, b));
                    } else if a == w as int && b == height as int {
                        assert(cell_at(self.cells@, a, b) == wall_cell(a, b));
                    } else {
                        assert(cell_at(self.cells@, a, b) == cell_at(vpre, a, b));
                    }
                }
            }
            w += 1;
        }
        let ghost mid = self.cells@;
        let mut h: i32 = 0;
        while h < height
            invariant
                0 <= h <= height,
                grid_dims(self.cells@, width as int, height as int),
                self.rooms@ == old(self).rooms@,
                self.entities@ == old(self).entities@,
                forall|a: int, b: int|
                    0 <= a <= width && 0 <= b <= height ==> #[trigger] cell_at(self.cells@, a, b)
                        == (if (a == 0 || a == width) && 0 <= b < h {
                        wall_cell(a, b)
                    } else {
                        cell_at(mid, a, b)
                    }),
            decreases height - h,
        {
            let ghost vpre = self.cells@;
            self.cells[0][h as usize] = Cell { x: 0, y: h, c: '#', passable: false };
            self.cells[width as usize][h as usize] = Cell {
                x: width,
                y: h,
                c: '#',
                passable: false,
            };
            proof {
                assert forall|a: int, b: int|
                    0 <= a <= width && 0 <= b <= height implies #[trigger] cell_at(
                    self.cells@,
                    a,
                    b,
                ) == (if (a == 0 || a == width) && 0 <= b < h + 1 {
                    wall_cell(a, b)
                } else {
                    cell_at(mid, a, b)
                }) by {
                    if a == 0 && b == h as int {
                        assert(cell_at(self.cells@, a, b) == wall_cell(a, b));
                    } else if a == width as int && b == h as int {
                        assert(cell_at(self.cells@, a, b) == wall_cell(a, b));
                    } else {
                        assert(cell_at(self.cells@, a, b) == cell_at(vpre, a, b));
                    }
                }
            }
            h += 1;
        }
        proof {
            assert forall|a: int, b: int|
                0 <= a <= width && 0 <= b <= height implies #[trigger] cell_at(self.cells@, a, b)
                == (if on_written_ring(width as int, height as int, a, b) {
                wall_cell(a, b)
            } else {
                cell_at(pre, a, b)
            }) by {
                if (a == 0 || a == width) && 0 <= b < height {
                    assert(cell_at(self.cells@, a, b) == wall_cell(a, b));
                } else if (b == 0 || b == height) && 0 <= a < width {
                    assert(cell_at(self.cells@, a, b) == cell_at(mid, a, b));
                    assert(cell_at(mid, a, b) == wall_cell(a, b));
                } else {
                    assert(cell_at(self.cells@, a, b) == cell_at(mid, a, b));
                    assert(cell_at(mid, a, b) == cell_at(pre, a, b));
                }
            }
        }
    }

    /// Dig the dungeon into a freshly walled grid: wall the interior,
    /// sample and carve up to `MAX_ROOMS` non-overlapping rooms (giving up
    /// after `MAX_PLACE_ATTEMPTS` candidates, so a tight grid yields fewer
    /// rooms instead of hanging), carve an L-shaped corridor for every
    /// unordered pair of accepted rooms in ascending order of center
    /// distance, and force the outer ring back to wall. Returns the sorted
    /// carve list that drove the corridors.
    ///
    /// Everything here is a function of the grid handed in, the generator's
    /// seed state, and the two dimensions, so a fixed seed reproduces the
    /// same rooms, corridors and cells exactly.
    pub fn map_digger(&mut self, width: i32, height: i32, rng: &mut Rng) -> (r: Vec<RoomDistance>)
        requires
            ROOM_MAX_W + 2 <= width,
            ROOM_MAX_H + 2 <= height,
            width < i32::MAX,
            height < i32::MAX,
            grid_dims(old(self).cells@, width as int, height as int),
            all_impassable(old(self).cells@),
            old(self).rooms@.len() == 0,
        ensures
            grid_dims(final(self).cells@, width as int, height as int),
            final(self).entities@ == old(self).entities@,
            (final(self).rooms@, final(rng).state) == place_rooms_spec(
                old(rng).state,
                Seq::<Room>::empty(),
                MAX_PLACE_ATTEMPTS as int,
                width as int,
                height as int,
            ),
            r@ == sort_spec(all_pairs(final(self).rooms@)),
            final(self).rooms@.len() <= MAX_ROOMS,
            forall|k: int|
                0 <= k < final(self).rooms@.len() ==> room_interior_ok(
                    #[trigger] final(self).rooms@[k],
                    width as int,
                    height as int,
                ),
            forall|i: int, j: int|
                #![trigger final(self).rooms@[i], final(self).rooms@[j]]
                0 <= i < j < final(self).rooms@.len() ==> !overlaps(
                    final(self).rooms@[i],
                    final(self).rooms@[j],
                ),
            sorted_by_dist(r@),
            r@.len() == all_pairs(final(self).rooms@).len(),
            forall|k: int| 0 <= k < r@.len() ==> rd_wf(#[trigger] r@[k], final(self).rooms@),
            forall|a: int, b: int|
                0 <= a <= width && 0 <= b <= height ==> #[trigger] cell_at(final(self).cells@, a, b)
                    == (if a == width && b == height {
                    cell_at(old(self).cells@, a, b)
                } else if a == 0 || b == 0 || a == width || b == height {
                    wall_cell(a, b)
                } else if carved(final(self).rooms@, r@, a, b) {
                    floor_cell(a, b)
                } else {
                    wall_cell(a, b)
                }),
            forall|a: int, b: int|
                0 <= a <= width && 0 <= b <= height && (a == 0 || b == 0 || a == width || b
                    == height) ==> !(#[trigger] cell_at(final(self).cells@, a, b)).passable,
            forall|k: int, a: int, b: int|
                0 <= k < final(self).rooms@.len() && #[trigger] in_room(
                    final(self).rooms@[k],
                    a,
                    b,
                ) ==> cell_at(final(self).cells@, a, b).passable,
    {
        let ghost base = self.cells@;
        self.fill_interior(width, height);
        let ghost filled = self.cells@;
        self.place_rooms(width, height, rng);
        let ghost roomed = self.cells@;
        let ghost rooms = self.rooms@;
        proof {
            assert forall|k: int| 0 <= k < rooms.len() implies room_nonneg(
                #[trigger] rooms[k],
            ) by {
                assert(room_interior_ok(rooms[k], width as int, height as int));
            }
        }
        let mut pairs = room_pair_distances(&self.rooms);
        sort_by_distance(&mut pairs);
        proof {
            lemma_sort_spec_props(all_pairs(rooms));
            lemma_pairs_upto_wf(rooms, rooms.len() as int);
            assert forall|k: int| 0 <= k < pairs@.len() implies rd_wf(
                #[trigger] pairs@[k],
                rooms,
            ) by {
                assert(all_pairs(rooms).contains(pairs@[k]));
                let m = choose|m: int|
                    0 <= m < all_pairs(rooms).len() && all_pairs(rooms)[m] == pairs@[k];
                assert(rd_wf(all_pairs(rooms)[m], rooms));
            }
            assert forall|k: int| 0 <= k < pairs@.len() implies rd_rooms_interior(
                #[trigger] pairs@[k],
                width as int,
                height as int,
            ) by {
                assert(rd_wf(pairs@[k], rooms));
                let (i, j) = choose|i: int, j: int|
                    #![trigger rooms[i], rooms[j]]
                    0 <= i < j < rooms.len() && pairs@[k] == mk_rd(rooms[i], rooms[j]);
                assert(room_interior_ok(rooms[i], width as int, height as int));
                assert(room_interior_ok(rooms[j], width as int, height as int));
            }
        }
        self.carve_tunnels(&pairs, width, height);
        let ghost tunneled = self.cells@;
        self.wall_border(width, height);
        proof {
            lemma_digger_assembly(
                base,
                filled,
                roomed,
                tunneled,
                self.cells@,
                rooms,
                pairs@,
                width as int,
                height as int,
            );
            assert forall|k: int, a: int, b: int|
                0 <= k < self.rooms@.len() && #[trigger] in_room(
                    self.rooms@[k],
                    a,
                    b,
                ) implies cell_at(self.cells@, a, b).passable by {
                assert(room_interior_ok(self.rooms@[k], width as int, height as int));
                assert(in_some_room(self.rooms@, a, b));
                assert(carved(self.rooms@, pairs@, a, b));
                assert(cell_at(self.cells@, a, b) == floor_cell(a, b));
            }
        }
        pairs
    }
}

} // verus!
