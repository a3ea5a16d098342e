//! Integer 2D grid coordinates with component-wise arithmetic and
//! Manhattan distance, plus the frontier node used by the pathfinder.

use vstd::prelude::*;

verus! {

/// Coordinates handled by the library stay within this magnitude, so that
/// component-wise sums and Manhattan distances never overflow an `i32`.
pub const COORD_LIMIT: i32 = 0x1000_0000;

#[derive(Copy, Clone, Debug, Default, PartialEq, Eq, Hash, Structural)]
pub struct Vector2Int {
    pub x: i32,
    pub y: i32,
}

/// Absolute value over mathematical integers.
pub open spec fn abs_val(v: int) -> int {
    if v < 0 {
        -v
    } else {
        v
    }
}

/// Manhattan distance over mathematical integers.
pub open spec fn manhattan_s(a: Vector2Int, b: Vector2Int) -> int {
    abs_val(a.x - b.x) + abs_val(a.y - b.y)
}

/// Both components within `COORD_LIMIT` in magnitude.
pub open spec fn in_bounds(v: Vector2Int) -> bool {
    -COORD_LIMIT <= v.x <= COORD_LIMIT && -COORD_LIMIT <= v.y <= COORD_LIMIT
}

/// Two cells are orthogonal neighbours.
pub open spec fn adjacent(a: Vector2Int, b: Vector2Int) -> bool {
    manhattan_s(a, b) == 1
}

/// The four orthogonal unit steps: up, down, left, right.
pub open spec fn ortho_dirs() -> Seq<Vector2Int> {
    seq![
        Vector2Int { x: 0, y: 1 },
        Vector2Int { x: 0, y: -1i32 },
        Vector2Int { x: -1i32, y: 0 },
        Vector2Int { x: 1, y: 0 },
    ]
}

impl Vector2Int {
    pub fn new(x: i32, y: i32) -> (r: Vector2Int)
        ensures
            r == (Vector2Int { x, y }),
    {
        Vector2Int { x, y }
    }

    pub fn manhattan(&self, other: Vector2Int) -> (r: i32)
        requires
            in_bounds(*self),
            in_bounds(other),
        ensures
            r == manhattan_s(*self, other),
    {
        let dx = self.x - other.x;
        let dy = self.y - other.y;
        let ax = if dx < 0 { -dx } else { dx };
        let ay = if dy < 0 { -dy } else { dy };
        ax + ay
    }

    /// Component-wise sum.
    pub fn plus(self, other: Vector2Int) -> (r: Vector2Int)
        requires
            in_bounds(self),
            in_bounds(other),
        ensures
            r == (Vector2Int { x: (self.x + other.x) as i32, y: (self.y + other.y) as i32 }),
    {
        Vector2Int { x: self.x + other.x, y: self.y + other.y }
    }

    /// Component-wise difference.
    pub fn minus(self, other: Vector2Int) -> (r: Vector2Int)
        requires
            in_bounds(self),
            in_bounds(other),
        ensures
            r == (Vector2Int { x: (self.x - other.x) as i32, y: (self.y - other.y) as i32 }),
    {
        Vector2Int { x: self.x - other.x, y: self.y - other.y }
    }
}

/// The four orthogonal unit steps as an executable list.
pub fn ortho_directions() -> (dirs: Vec<Vector2Int>)
    ensures
        dirs@ =~= ortho_dirs(),
{
    let mut dirs: Vec<Vector2Int> = Vec::new();
    dirs.push(Vector2Int { x: 0, y: 1 });
    dirs.push(Vector2Int { x: 0, y: -1 });
    dirs.push(Vector2Int { x: -1, y: 0 });
    dirs.push(Vector2Int { x: 1, y: 0 });
    dirs
}

/// Frontier entry of the pathfinder: a cell together with its path cost.
#[derive(Copy, Clone, PartialEq, Eq, Structural)]
pub struct Node {
    pub v: Vector2Int,
    pub cost: u32,
}

} // verus!
