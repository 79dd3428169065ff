use vstd::prelude::*;

verus! {

/// A cell coordinate on the board. Positions carry no bounds of their own:
/// the board that owns the occupancy mapping enforces its size limits.
#[derive(Clone, Copy, PartialEq, Eq, Structural, Hash, Debug)]
pub struct Position {
    pub x: u16,
    pub y: u16,
}

/// The absolute difference of two integers.
pub open spec fn abs_diff(a: int, b: int) -> int {
    if a >= b {
        a - b
    } else {
        b - a
    }
}

/// Manhattan distance: the sum of the absolute coordinate differences on each axis.
pub open spec fn manhattan_distance(a: Position, b: Position) -> int {
    abs_diff(a.x as int, b.x as int) + abs_diff(a.y as int, b.y as int)
}

impl Position {
    pub fn new(x: u16, y: u16) -> (p: Position)
        ensures
            p == (Position { x, y }),
    {
        Position { x, y }
    }

    pub fn get_distance_to(&self, position2: Position) -> (d: u32)
        ensures
            d == manhattan_distance(*self, position2),
    {
        let dx: u32 = if self.x >= position2.x {
            (self.x - position2.x) as u32
        } else {
            (position2.x - self.x) as u32
        };
        let dy: u32 = if self.y >= position2.y {
            (self.y - position2.y) as u32
        } else {
            (position2.y - self.y) as u32
        };
        dx + dy
    }
}

/// The Manhattan distance is symmetric, and it is zero exactly when the two
/// positions coincide.
pub proof fn lemma_distance_symmetric_and_definite(a: Position, b: Position)
    ensures
        manhattan_distance(a, b) == manhattan_distance(b, a),
        manhattan_distance(a, b) == 0 <==> a == b,
{
}

} // verus!
