use vstd::prelude::*;

verus! {

/// One grid cell: its position, its display glyph, and whether an entity
/// may stand on it.
#[derive(Copy, Clone, PartialEq, Eq, Structural, Debug)]
pub struct Cell {
    pub x: i32,
    pub y: i32,
    pub c: char,
    pub passable: bool,
}

/// The floor cell carving writes at `(x, y)`.
pub open spec fn floor_cell(x: int, y: int) -> Cell {
    Cell { x: x as i32, y: y as i32, c: '.', passable: true }
}

/// The wall cell the generator writes at `(x, y)`.
pub open spec fn wall_cell(x: int, y: int) -> Cell {
    Cell { x: x as i32, y: y as i32, c: '#', passable: false }
}

/// The out-of-bounds sentinel a fresh grid is filled with.
pub open spec fn sentinel_cell() -> Cell {
    Cell { x: -1i32, y: -1i32, c: '!', passable: false }
}

} // verus!
