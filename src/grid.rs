//! The maze model: cells, coordinates, adjacency and walks.
use vstd::prelude::*;

verus! {

/// The symbol of a wall cell; every other symbol can be walked on.
pub const WALL: char = '#';

/// The symbol that marks the start cell.
pub const START: char = '1';

/// The symbol that marks the goal cell.
pub const GOAL: char = 'F';

/// The symbol of an open cell.
pub const OPEN: char = '_';

/// One of the four symbols a maze is made of.
pub open spec fn is_symbol(c: char) -> bool {
    c == WALL || c == OPEN || c == START || c == GOAL
}

/// A cell coordinate: column `x` and row `y`, zero-based from the top left.
#[derive(Clone, Copy, Debug, PartialEq, Eq, Hash, Structural)]
pub struct Point {
    pub x: usize,
    pub y: usize,
}

/// Every one of the `height` rows holds exactly `width` cells.
pub open spec fn rectangular(maze: Seq<Vec<char>>, width: int, height: int) -> bool {
    &&& maze.len() == height
    &&& forall|y: int| 0 <= y < height ==> (#[trigger] maze[y])@.len() == width
}

pub open spec fn in_bounds(width: int, height: int, p: Point) -> bool {
    p.x < width && p.y < height
}

/// The symbol at `p`; meaningful for in-bounds points of a rectangular maze.
pub open spec fn cell(maze: Seq<Vec<char>>, p: Point) -> char {
    maze[p.y as int]@[p.x as int]
}

/// `p` lies in the maze and is not a wall.
pub open spec fn walkable(maze: Seq<Vec<char>>, width: int, height: int, p: Point) -> bool {
    in_bounds(width, height, p) && cell(maze, p) != WALL
}

/// `p` and `q` are orthogonal neighbours (Manhattan distance one).
pub open spec fn adjacent(p: Point, q: Point) -> bool {
    ||| p.x == q.x && (p.y + 1 == q.y || q.y + 1 == p.y)
    ||| p.y == q.y && (p.x + 1 == q.x || q.x + 1 == p.x)
}

/// A non-empty sequence of walkable cells, each a neighbour of the one before.
pub open spec fn is_walk(maze: Seq<Vec<char>>, width: int, height: int, w: Seq<Point>) -> bool {
    &&& w.len() >= 1
    &&& forall|i: int| 0 <= i < w.len() ==> walkable(maze, width, height, #[trigger] w[i])
    &&& forall|i: int| 0 <= i < w.len() - 1 ==> #[trigger] adjacent(w[i], w[i + 1])
}

/// A walk that leads from `s` to `g`.
pub open spec fn is_walk_between(
    maze: Seq<Vec<char>>,
    width: int,
    height: int,
    w: Seq<Point>,
    s: Point,
    g: Point,
) -> bool {
    is_walk(maze, width, height, w) && w[0] == s && w.last() == g
}

/// Some walk leads from `s` to `g`.
pub open spec fn connected(maze: Seq<Vec<char>>, width: int, height: int, s: Point, g: Point) -> bool {
    exists|w: Seq<Point>| is_walk_between(maze, width, height, w, s, g)
}

/// A walk from `s` to `g` that visits no cell twice and that no walk from `s`
/// to `g` undercuts in length.
pub open spec fn is_shortest_path(
    maze: Seq<Vec<char>>,
    width: int,
    height: int,
    path: Seq<Point>,
    s: Point,
    g: Point,
) -> bool {
    &&& is_walk_between(maze, width, height, path, s, g)
    &&& path.no_duplicates()
    &&& forall|w: Seq<Point>| #[trigger]
        is_walk_between(maze, width, height, w, s, g) ==> path.len() <= w.len()
}

/// `q` comes before `p` in row-major order.
pub open spec fn before(q: Point, p: Point) -> bool {
    q.y < p.y || (q.y == p.y && q.x < p.x)
}

/// Some cell of the maze holds `c`.
pub open spec fn holds_symbol(maze: Seq<Vec<char>>, width: int, height: int, c: char) -> bool {
    exists|p: Point| in_bounds(width, height, p) && #[trigger] cell(maze, p) == c
}

/// `p` is the first cell in row-major order that holds `c`.
pub open spec fn first_with(
    maze: Seq<Vec<char>>,
    width: int,
    height: int,
    c: char,
    p: Point,
) -> bool {
    &&& in_bounds(width, height, p)
    &&& cell(maze, p) == c
    &&& forall|q: Point|
        in_bounds(width, height, q) && #[trigger] before(q, p) ==> cell(maze, q) != c
}

} // verus!
