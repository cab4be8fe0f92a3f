use vstd::prelude::*;

verus! {

/// An axis-aligned rectangular room, held by its two opposite corners.
/// The cells of `[x1, x2) x [y1, y2)` are the ones carved to floor; the
/// overlap test below treats the corners as a closed rectangle, so two
/// accepted rooms always keep at least one wall cell between them.
#[derive(Copy, Clone, PartialEq, Eq, Structural, Debug)]
pub struct Room {
    pub x1: i32,
    pub x2: i32,
    pub y1: i32,
    pub y2: i32,
}

/// An unordered pair of rooms together with the squared distance between
/// their centers; built transiently to drive the corridor-carving order.
#[derive(Copy, Clone, PartialEq, Eq, Structural, Debug)]
pub struct RoomDistance {
    pub dist_sq: i64,
    pub room_one: Room,
    pub room_two: Room,
}

/// Halving rounded toward zero: the meaning of `/ 2` on machine integers.
pub open spec fn div2_toward_zero(a: int) -> int {
    if a >= 0 {
        a / 2
    } else {
        -((-a) / 2)
    }
}

/// The x coordinate of a room's center: the midpoint of its corners.
pub open spec fn center_x(r: Room) -> int {
    div2_toward_zero(r.x1 + r.x2)
}

/// The y coordinate of a room's center.
pub open spec fn center_y(r: Room) -> int {
    div2_toward_zero(r.y1 + r.y2)
}

/// The closed-rectangle overlap test two candidate rooms are held to.
pub open spec fn overlaps(a: Room, b: Room) -> bool {
    a.x1 <= b.x2 && a.x2 >= b.x1 && a.y1 <= b.y2 && a.y2 >= b.y1
}

/// Squared Euclidean distance between two points. Ordering pairs by this
/// value orders them exactly as the Euclidean distance itself would.
pub open spec fn sq_dist(x1: int, y1: int, x2: int, y2: int) -> int {
    (x2 - x1) * (x2 - x1) + (y2 - y1) * (y2 - y1)
}

/// Squared distance between the centers of two rooms.
pub open spec fn center_dist_sq(a: Room, b: Room) -> int {
    sq_dist(center_x(a), center_y(a), center_x(b), center_y(b))
}

/// The distance record the carving order is built from.
pub open spec fn mk_rd(a: Room, b: Room) -> RoomDistance {
    RoomDistance { dist_sq: center_dist_sq(a, b) as i64, room_one: a, room_two: b }
}

/// A room whose corners are ordered and nonnegative, as every accepted
/// room's are; its center then has nonnegative coordinates too.
pub open spec fn room_nonneg(r: Room) -> bool {
    0 <= r.x1 <= r.x2 && 0 <= r.y1 <= r.y2
}

/// The overlap test does not depend on the order of its two rooms.
pub proof fn lemma_overlaps_symmetric(a: Room, b: Room)
    ensures
        overlaps(a, b) == overlaps(b, a),
{
}

/// A room's center lies within its corner rectangle.
pub proof fn lemma_center_bounds(r: Room)
    requires
        0 <= r.x1 <= r.x2,
        0 <= r.y1 <= r.y2,
    ensures
        r.x1 <= center_x(r) <= r.x2,
        r.y1 <= center_y(r) <= r.y2,
{
    assert(r.x1 <= (r.x1 + r.x2) / 2 <= r.x2);
    assert(r.y1 <= (r.y1 + r.y2) / 2 <= r.y2);
}

impl Room {
    /// The midpoint of the two corners, each axis rounded toward zero.
    pub fn center(&self) -> (r: (i32, i32))
        ensures
            r.0 == center_x(*self),
            r.1 == center_y(*self),
    {
        let sx: i64 = self.x1 as i64 + self.x2 as i64;
        let sy: i64 = self.y1 as i64 + self.y2 as i64;
        let cx: i64 = if sx >= 0 {
            sx / 2
        } else {
            -((-sx) / 2)
        };
        let cy: i64 = if sy >= 0 {
            sy / 2
        } else {
            -((-sy) / 2)
        };
        (cx as i32, cy as i32)
    }

    /// Whether this room's closed rectangle touches the other's; candidates
    /// for which this holds against any accepted room are rejected.
    pub fn intersect(&self, other: &Room) -> (r: bool)
        ensures
            r == overlaps(*self, *other),
    {
        self.x1 <= other.x2 && self.x2 >= other.x1 && self.y1 <= other.y2 && self.y2 >= other.y1
    }
}

/// Squared center-to-center distance between two points with nonnegative
/// coordinates; integer-valued, so it can be compared exactly.
pub fn distance_between_points(x1: i32, y1: i32, x2: i32, y2: i32) -> (r: i64)
    requires
        0 <= x1,
        0 <= y1,
        0 <= x2,
        0 <= y2,
    ensures
        r == sq_dist(x1 as int, y1 as int, x2 as int, y2 as int),
{
    let dx: i64 = x2 as i64 - x1 as i64;
    let dy: i64 = y2 as i64 - y1 as i64;
    proof {
        assert(0 <= dx * dx <= 0x7fff_ffff * 0x7fff_ffff) by (nonlinear_arith)
            requires
                -0x7fff_ffff <= dx <= 0x7fff_ffff,
        ;
        assert(0 <= dy * dy <= 0x7fff_ffff * 0x7fff_ffff) by (nonlinear_arith)
            requires
                -0x7fff_ffff <= dy <= 0x7fff_ffff,
        ;
    }
    dx * dx + dy * dy
}

} // verus!
