//! Grid coordinates, the four axis directions, adjacency, and the row-major
//! cell indexing shared by the generator, the pathfinder and the reservation
//! manager.

use vstd::prelude::*;

verus! {

/// A grid cell position. Equality and hashing are by value.
#[derive(Clone, Copy, PartialEq, Eq, Structural, Hash, Debug)]
pub struct Coord {
    pub x: usize,
    pub y: usize,
}

/// One of the four grid-axis directions. `North` is towards larger `y`,
/// `East` towards larger `x`.
#[derive(Clone, Copy, PartialEq, Eq, Structural, Debug)]
pub enum Dir {
    North,
    South,
    East,
    West,
}

impl Dir {
    /// A fixed numbering of the four directions, used to index direction rows.
    pub open spec fn index_spec(self) -> int {
        match self {
            Dir::North => 0,
            Dir::South => 1,
            Dir::East => 2,
            Dir::West => 3,
        }
    }

    /// Returns the fixed number of this direction.
    pub fn index(self) -> (r: usize)
        ensures
            r == self.index_spec(),
            r < 4,
    {
        match self {
            Dir::North => 0,
            Dir::South => 1,
            Dir::East => 2,
            Dir::West => 3,
        }
    }

    /// Where a step in direction `self` from `(x, y)` lands, over the
    /// unbounded integers (the result may lie outside any grid).
    pub open spec fn step_spec(self, x: int, y: int) -> (int, int) {
        match self {
            Dir::North => (x, y + 1),
            Dir::South => (x, y - 1),
            Dir::East => (x + 1, y),
            Dir::West => (x - 1, y),
        }
    }
}

/// Holds when `c` lies inside a `width` by `height` grid.
pub open spec fn in_bounds(width: int, height: int, c: Coord) -> bool {
    c.x < width && c.y < height
}

/// Holds when `a` and `b` are distinct cells that share a grid edge.
pub open spec fn adjacent(a: Coord, b: Coord) -> bool {
    ||| (a.x == b.x && (a.y + 1 == b.y || b.y + 1 == a.y))
    ||| (a.y == b.y && (a.x + 1 == b.x || b.x + 1 == a.x))
}

/// The direction of `b` as seen from the adjacent cell `a`.
pub open spec fn dir_of(a: Coord, b: Coord) -> Dir {
    if a.x == b.x && a.y + 1 == b.y {
        Dir::North
    } else if a.x == b.x && b.y + 1 == a.y {
        Dir::South
    } else if a.y == b.y && a.x + 1 == b.x {
        Dir::East
    } else {
        Dir::West
    }
}

/// The row-major index of `c` in a grid `width` cells wide.
pub open spec fn cidx(width: int, c: Coord) -> int {
    c.y * width + c.x
}

/// The Manhattan distance between two cells.
pub open spec fn manhattan(a: Coord, b: Coord) -> int {
    abs_diff(a.x as int, b.x as int) + abs_diff(a.y as int, b.y as int)
}

/// The absolute difference of two integers.
pub open spec fn abs_diff(a: int, b: int) -> int {
    if a >= b {
        a - b
    } else {
        b - a
    }
}

/// Row-major indexing stays inside the grid.
pub proof fn lemma_cidx_bounds(width: int, height: int, c: Coord)
    requires
        0 < width,
        0 < height,
        in_bounds(width, height, c),
    ensures
        0 <= cidx(width, c) < width * height,
{
    assert(c.y * width + c.x < width * height) by (nonlinear_arith)
        requires
            0 < width,
            0 <= c.x < width,
            0 <= c.y < height,
    ;
}

/// Row-major indexing is injective on in-bounds cells.
pub proof fn lemma_cidx_injective(width: int, height: int, a: Coord, b: Coord)
    requires
        0 < width,
        0 < height,
        in_bounds(width, height, a),
        in_bounds(width, height, b),
        cidx(width, a) == cidx(width, b),
    ensures
        a == b,
{
    assert(a.y == b.y && a.x == b.x) by (nonlinear_arith)
        requires
            0 < width,
            0 <= a.x < width,
            0 <= b.x < width,
            a.y * width + a.x == b.y * width + b.x,
    ;
}

/// Computes the row-major index of an in-bounds cell.
pub fn cell_index(width: usize, height: usize, c: Coord) -> (r: usize)
    requires
        0 < width,
        0 < height,
        in_bounds(width as int, height as int, c),
        width * height <= usize::MAX,
    ensures
        r == cidx(width as int, c),
        r < width * height,
{
    proof {
        lemma_cidx_bounds(width as int, height as int, c);
    }
    c.y * width + c.x
}

/// Fills a vector with `n` copies of `value`.
pub fn filled<T: Copy>(value: T, n: usize) -> (r: Vec<T>)
    ensures
        r@.len() == n,
        forall|i: int| 0 <= i < n ==> r@[i] == value,
{
    let mut r: Vec<T> = Vec::new();
    let mut k: usize = 0;
    while k < n
        invariant
            k <= n,
            r@.len() == k,
            forall|i: int| 0 <= i < k ==> r@[i] == value,
        decreases n - k,
    {
        r.push(value);
        k = k + 1;
    }
    r
}

/// Computes the Manhattan distance between two cells.
pub fn manhattan_dist(a: Coord, b: Coord) -> (r: usize)
    requires
        a.x + a.y + b.x + b.y <= usize::MAX,
    ensures
        r == manhattan(a, b),
{
    let dx = if a.x >= b.x {
        a.x - b.x
    } else {
        b.x - a.x
    };
    let dy = if a.y >= b.y {
        a.y - b.y
    } else {
        b.y - a.y
    };
    dx + dy
}

/// A single step between adjacent cells moves the Manhattan distance to any
/// fixed cell by at most one.
pub proof fn lemma_manhattan_step(a: Coord, b: Coord, t: Coord)
    requires
        adjacent(a, b),
    ensures
        manhattan(a, t) <= manhattan(b, t) + 1,
{
}

/// The Manhattan distance never exceeds the number of steps of a walk: along
/// any chain of adjacent cells, endpoint distance is at most the chain length.
pub proof fn lemma_manhattan_chain(p: Seq<Coord>)
    requires
        p.len() >= 1,
        forall|i: int| 0 <= i < p.len() - 1 ==> adjacent(#[trigger] p[i], p[i + 1]),
    ensures
        manhattan(p[0], p[p.len() - 1]) <= p.len() - 1,
    decreases p.len(),
{
    if p.len() > 1 {
        let q = p.subrange(1, p.len() as int);
        assert forall|i: int| 0 <= i < q.len() - 1 implies adjacent(#[trigger] q[i], q[i + 1]) by {
            assert(q[i] == p[i + 1]);
            assert(q[i + 1] == p[i + 2]);
        }
        lemma_manhattan_chain(q);
        assert(q[0] == p[1]);
        assert(q[q.len() - 1] == p[p.len() - 1]);
        lemma_manhattan_step(p[0], p[1], p[p.len() - 1]);
    }
}

} // verus!
