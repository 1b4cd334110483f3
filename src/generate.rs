//! Random mazes by recursive division: walls with one gap each split the
//! room in two until no part is two cells wide in both directions.
use vstd::prelude::*;
use crate::grid::{cell, in_bounds, is_symbol, rectangular, Point, GOAL, OPEN, START, WALL};
use crate::loader::views;

verus! {

/// `p` lies on the outer rim of a `width` by `height` grid.
pub open spec fn on_border(width: int, height: int, p: Point) -> bool {
    p.x == 0 || p.y == 0 || p.x == width - 1 || p.y == height - 1
}

/// `p` lies in the rectangle of `width` by `height` cells whose top left is (`x`, `y`).
pub open spec fn in_region(x: int, y: int, width: int, height: int, p: Point) -> bool {
    x <= p.x < x + width && y <= p.y < y + height
}

/// `q` names a cell of the grid.
pub open spec fn in_grid(maze: Seq<Vec<char>>, q: Point) -> bool {
    q.y < maze.len() && q.x < maze[q.y as int]@.len()
}

/// Relies on `rand::seq::SliceRandom::shuffle` over the thread-local
/// generator: it permutes the items by swaps, so the same items remain.
#[verifier::external_body]
fn shuffle_points(v: &mut Vec<Point>)
    ensures
        final(v)@.to_multiset() == old(v)@.to_multiset(),
{
    rand::seq::SliceRandom::shuffle(v.as_mut_slice(), &mut rand::thread_rng())
}

/// Sets the cell at `p` to `c`.
fn set_cell(maze: &mut Vec<Vec<char>>, p: Point, c: char)
    requires
        p.y < old(maze)@.len(),
        p.x < old(maze)@[p.y as int]@.len(),
    ensures
        final(maze)@.len() == old(maze)@.len(),
        forall|y: int| 0 <= y < old(maze)@.len() ==> (#[trigger] final(maze)@[y])@.len() == old(maze)@[y]@.len(),
        forall|q: Point| in_grid(old(maze)@, q)
            ==> #[trigger] cell(final(maze)@, q) == if q == p { c } else { cell(old(maze)@, q) },
{
    maze[p.y][p.x] = c;
}

/// `q` lies on the dividing line of the region of `width` by `height` cells
/// at (`x`, `y`): the row `y + wall` when `horizontal`, the column `x + wall`
/// otherwise.
pub open spec fn on_line(x: int, y: int, width: int, height: int, horizontal: bool, wall: int, q: Point) -> bool {
    if horizontal {
        q.y == y + wall && x <= q.x < x + width
    } else {
        q.x == x + wall && y <= q.y < y + height
    }
}

/// The cell of the dividing line left open: offset `gap` along the line.
pub open spec fn gap_cell(x: int, y: int, horizontal: bool, wall: int, gap: int, q: Point) -> bool {
    if horizontal {
        q.y == y + wall && q.x == x + gap
    } else {
        q.x == x + wall && q.y == y + gap
    }
}

/// The region of `width` by `height` cells at (`x`, `y`) lies in the grid.
pub open spec fn region_fits(maze: Seq<Vec<char>>, x: int, y: int, width: int, height: int) -> bool {
    &&& y + height <= maze.len()
    &&& forall|j: int| y <= j < y + height ==> x + width <= (#[trigger] maze[j])@.len()
}

/// `after` is `before` with every cell of the dividing line but its gap made a wall.
pub open spec fn walled_line(
    before: Seq<Vec<char>>,
    after: Seq<Vec<char>>,
    x: int,
    y: int,
    width: int,
    height: int,
    horizontal: bool,
    wall: int,
    gap: int,
) -> bool {
    &&& 0 <= wall < (if horizontal { height } else { width })
    &&& 0 <= gap < (if horizontal { width } else { height })
    &&& forall|q: Point| in_grid(before, q) && on_line(x, y, width, height, horizontal, wall, q)
        ==> #[trigger] cell(after, q) == if gap_cell(x, y, horizontal, wall, gap, q) {
            cell(before, q)
        } else {
            WALL
        }
}

/// Lays the dividing line of the region: a row (`horizontal`) or a column
/// `wall` cells in from its top or left side, all wall but the cell `gap`
/// cells along it.
pub fn lay_wall(
    maze: &mut Vec<Vec<char>>,
    x: usize,
    y: usize,
    width: usize,
    height: usize,
    horizontal: bool,
    wall: usize,
    gap: usize,
)
    requires
        region_fits(old(maze)@, x as int, y as int, width as int, height as int),
        wall < (if horizontal { height } else { width }),
        gap < (if horizontal { width } else { height }),
    ensures
        final(maze)@.len() == old(maze)@.len(),
        forall|j: int| 0 <= j < old(maze)@.len() ==> (#[trigger] final(maze)@[j])@.len() == old(maze)@[j]@.len(),
        forall|q: Point| in_grid(old(maze)@, q) ==> #[trigger] cell(final(maze)@, q) == if on_line(
            x as int, y as int, width as int, height as int, horizontal, wall as int, q,
        ) && !gap_cell(x as int, y as int, horizontal, wall as int, gap as int, q) {
            WALL
        } else {
            cell(old(maze)@, q)
        },
{
    let rows = maze.len();
    let ghost x_ = x as int;
    let ghost y_ = y as int;
    if horizontal {
        let wall_y = y + wall;
        let row_len = maze[wall_y].len();
        let x_end = x + width;
        let gap_x = x + gap;
        let mut i: usize = x;
        while i < x_end
            invariant
                x_end == x + width,
                gap_x == x + gap,
                x_ == x,
                y_ == y,
                x_end <= row_len,
                row_len == old(maze)@[wall_y as int]@.len(),
                wall_y == y + wall,
                wall_y < old(maze)@.len(),
                x <= i <= x_end,
                maze@.len() == old(maze)@.len(),
                forall|j: int| 0 <= j < old(maze)@.len() ==> (#[trigger] maze@[j])@.len() == old(maze)@[j]@.len(),
                forall|q: Point| in_grid(old(maze)@, q) ==> #[trigger] cell(maze@, q) == if on_line(
                    x_, y_, width as int, height as int, true, wall as int, q,
                ) && q.x < i && !gap_cell(x_, y_, true, wall as int, gap as int, q) {
                    WALL
                } else {
                    cell(old(maze)@, q)
                },
            decreases x_end - i,
        {
            let ghost prev = maze@;
            if i != gap_x {
                set_cell(maze, Point { x: i, y: wall_y }, WALL);
            }
            assert forall|q: Point| in_grid(old(maze)@, q) implies #[trigger] cell(maze@, q) == if on_line(
                x_, y_, width as int, height as int, true, wall as int, q,
            ) && q.x < i + 1 && !gap_cell(x_, y_, true, wall as int, gap as int, q) {
                WALL
            } else {
                cell(old(maze)@, q)
            } by {
                assert(in_grid(prev, q));
                if i != gap_x {
                    assert(cell(maze@, q) == if q == (Point { x: i, y: wall_y }) { WALL } else { cell(prev, q) });
                } else {
                    assert(maze@ == prev);
                }
                if q == (Point { x: i, y: wall_y }) {
                    assert(on_line(x_, y_, width as int, height as int, true, wall as int, q));
                } else {
                    assert(cell(maze@, q) == cell(prev, q));
                }
                assert(cell(prev, q) == if on_line(x_, y_, width as int, height as int, true, wall as int, q)
                    && q.x < i && !gap_cell(x_, y_, true, wall as int, gap as int, q) {
                    WALL
                } else {
                    cell(old(maze)@, q)
                });
            }
            i = i + 1;
        }
    } else {
        assert(x + width <= old(maze)@[y as int]@.len());
        let row_len = maze[y].len();
        let wall_x = x + wall;
        let y_end = y + height;
        let gap_y = y + gap;
        let mut i: usize = y;
        while i < y_end
            invariant
                y_end == y + height,
                gap_y == y + gap,
                x_ == x,
                y_ == y,
                y_end <= rows,
                rows == old(maze)@.len(),
                wall_x == x + wall,
                region_fits(old(maze)@, x as int, y as int, width as int, height as int),
                wall < width,
                y <= i <= y_end,
                maze@.len() == old(maze)@.len(),
                forall|j: int| 0 <= j < old(maze)@.len() ==> (#[trigger] maze@[j])@.len() == old(maze)@[j]@.len(),
                forall|q: Point| in_grid(old(maze)@, q) ==> #[trigger] cell(maze@, q) == if on_line(
                    x_, y_, width as int, height as int, false, wall as int, q,
                ) && q.y < i && !gap_cell(x_, y_, false, wall as int, gap as int, q) {
                    WALL
                } else {
                    cell(old(maze)@, q)
                },
            decreases y_end - i,
        {
            assert(x + width <= old(maze)@[i as int]@.len());
            let ghost prev = maze@;
            if i != gap_y {
                set_cell(maze, Point { x: wall_x, y: i }, WALL);
            }
            assert forall|q: Point| in_grid(old(maze)@, q) implies #[trigger] cell(maze@, q) == if on_line(
                x_, y_, width as int, height as int, false, wall as int, q,
            ) && q.y < i + 1 && !gap_cell(x_, y_, false, wall as int, gap as int, q) {
                WALL
            } else {
                cell(old(maze)@, q)
            } by {
                assert(in_grid(prev, q));
                if i != gap_y {
                    assert(cell(maze@, q) == if q == (Point { x: wall_x, y: i }) { WALL } else { cell(prev, q) });
                } else {
                    assert(maze@ == prev);
                }
                if q == (Point { x: wall_x, y: i }) {
                    assert(on_line(x_, y_, width as int, height as int, false, wall as int, q));
                } else {
                    assert(cell(maze@, q) == cell(prev, q));
                }
                assert(cell(prev, q) == if on_line(x_, y_, width as int, height as int, false, wall as int, q)
                    && q.y < i && !gap_cell(x_, y_, false, wall as int, gap as int, q) {
                    WALL
                } else {
                    cell(old(maze)@, q)
                });
            }
            i = i + 1;
        }
    }
}

/// The cell in column `i`, row `j` lies on the dividing line and is not its gap.
pub open spec fn walls_at(x: int, y: int, width: int, height: int, horizontal: bool, wall: int, gap: int, i: int, j: int) -> bool {
    if horizontal {
        j == y + wall && x <= i < x + width && i != x + gap
    } else {
        i == x + wall && y <= j < y + height && j != y + gap
    }
}

/// The grid `m` with the dividing line laid: all of it wall but the gap.
pub open spec fn laid(m: Seq<Seq<char>>, x: int, y: int, width: int, height: int, horizontal: bool, wall: int, gap: int) -> Seq<Seq<char>> {
    Seq::new(m.len(), |j: int| Seq::new(m[j].len(), |i: int|
        if walls_at(x, y, width, height, horizontal, wall, gap, i, j) { WALL } else { m[j][i] }))
}

/// The draw at position `k`, or 0 once the draws are used up.
pub open spec fn draw_at(draws: Seq<usize>, k: int) -> int {
    if 0 <= k < draws.len() { draws[k] as int } else { 0 }
}

/// The position after the draw at `k`; it stays put once the draws are used up.
pub open spec fn advance(draws: Seq<usize>, k: int) -> int {
    if 0 <= k < draws.len() { k + 1 } else { k }
}

/// Recursive division of the region of `width` by `height` cells at (`x`, `y`)
/// with the choices read from `draws` from position `k` on: for a square region
/// first the direction (an even draw lays a row), then the wall offset and the
/// gap offset, each taken modulo the length it ranges over. The grid it leaves,
/// and the position after the last draw it read.
pub open spec fn division(m: Seq<Seq<char>>, x: int, y: int, width: int, height: int, draws: Seq<usize>, k: int) -> (Seq<Seq<char>>, int)
    decreases width + height,
{
    if width < 2 || height < 2 {
        (m, k)
    } else {
        let horizontal = if width < height { true } else if height < width { false } else { draw_at(draws, k) % 2 == 0 };
        let k1 = if width == height { advance(draws, k) } else { k };
        let wall = draw_at(draws, k1) % (if horizontal { height } else { width });
        let k2 = advance(draws, k1);
        let gap = draw_at(draws, k2) % (if horizontal { width } else { height });
        let k3 = advance(draws, k2);
        let m1 = laid(m, x, y, width, height, horizontal, wall, gap);
        if horizontal {
            let r = division(m1, x, y, width, wall, draws, k3);
            division(r.0, x, y + wall + 1, width, height - wall - 1, draws, r.1)
        } else {
            let r = division(m1, x, y, wall, height, draws, k3);
            division(r.0, x + wall + 1, y, width - wall - 1, height, draws, r.1)
        }
    }
}

/// Every row, and the number of rows, fits a `usize`, as a `Vec` always does.
pub open spec fn addressable(maze: Seq<Vec<char>>) -> bool {
    maze.len() <= usize::MAX && forall|j: int| 0 <= j < maze.len() ==> (#[trigger] maze[j])@.len() <= usize::MAX
}

/// The draw at position `k` and the position after it.
fn take_draw(draws: &Vec<usize>, k: usize) -> (r: (usize, usize))
    requires
        k <= draws@.len(),
    ensures
        r.0 == draw_at(draws@, k as int),
        r.1 == advance(draws@, k as int),
        r.1 <= draws@.len(),
{
    if k < draws.len() { (draws[k], k + 1) } else { (0, k) }
}

/// Splits the region of `width` by `height` cells at (`x`, `y`) as `division`
/// does with the choices in `draws` from position `k` on, and returns the
/// position after the last draw read. A region narrower or lower than two
/// cells is left alone. Otherwise a first dividing line crosses the whole
/// region, all wall but its gap, which keeps its symbol; cells outside the
/// region stay as they are, and cells inside stay or become walls.
pub fn divide_maze_from(
    maze: &mut Vec<Vec<char>>,
    x: usize,
    y: usize,
    width: usize,
    height: usize,
    draws: &Vec<usize>,
    k: usize,
) -> (next: usize)
    requires
        width >= 2 && height >= 2 ==> region_fits(old(maze)@, x as int, y as int, width as int, height as int),
        k <= draws@.len(),
        addressable(old(maze)@),
    ensures
        (views(final(maze)@), next as int) == division(views(old(maze)@), x as int, y as int, width as int, height as int, draws@, k as int),
        next <= draws@.len(),
        width < 2 || height < 2 ==> final(maze)@ == old(maze)@,
        final(maze)@.len() == old(maze)@.len(),
        forall|j: int| 0 <= j < old(maze)@.len() ==> (#[trigger] final(maze)@[j])@.len() == old(maze)@[j]@.len(),
        forall|q: Point| in_grid(old(maze)@, q) && !in_region(x as int, y as int, width as int, height as int, q)
            ==> #[trigger] cell(final(maze)@, q) == cell(old(maze)@, q),
        forall|q: Point| in_grid(old(maze)@, q) && in_region(x as int, y as int, width as int, height as int, q)
            ==> #[trigger] cell(final(maze)@, q) == cell(old(maze)@, q) || cell(final(maze)@, q) == WALL,
        width >= 2 && height >= 2 ==> exists|horizontal: bool, wall: int, gap: int|
            walled_line(old(maze)@, final(maze)@, x as int, y as int, width as int, height as int, horizontal, wall, gap),
    decreases width + height,
{
    if width < 2 || height < 2 {
        return k;
    }
    let (horizontal, k1) = if width < height {
        (true, k)
    } else if height < width {
        (false, k)
    } else {
        let (d, k1) = take_draw(draws, k);
        (d % 2 == 0, k1)
    };
    let (d1, k2) = take_draw(draws, k1);
    let (d2, k3) = take_draw(draws, k2);
    let (wall, gap) = if horizontal {
        (d1 % height, d2 % width)
    } else {
        (d1 % width, d2 % height)
    };
    let rows = maze.len();
    let row_len = maze[y].len();
    assert(x + width <= row_len && y + height <= rows);
    let ghost m0 = maze@;
    lay_wall(maze, x, y, width, height, horizontal, wall, gap);
    let ghost m1 = maze@;
    proof {
        let l = laid(views(m0), x as int, y as int, width as int, height as int, horizontal, wall as int, gap as int);
        assert forall|j: int| 0 <= j < views(m1).len() implies #[trigger] views(m1)[j] == l[j] by {
            assert forall|i: int| 0 <= i < views(m1)[j].len() implies views(m1)[j][i] == l[j][i] by {
                assert(m0[j]@.len() <= usize::MAX);
                let q = Point { x: i as usize, y: j as usize };
                assert(views(m0)[j] == m0[j]@);
                assert(views(m1)[j] == m1[j]@);
                assert(in_grid(m0, q));
                assert(cell(m1, q) == m1[j]@[i]);
                assert((on_line(x as int, y as int, width as int, height as int, horizontal, wall as int, q)
                    && !gap_cell(x as int, y as int, horizontal, wall as int, gap as int, q))
                    == walls_at(x as int, y as int, width as int, height as int, horizontal, wall as int, gap as int, i, j));
                assert(l[j][i] == if walls_at(x as int, y as int, width as int, height as int, horizontal, wall as int, gap as int, i, j) {
                    WALL
                } else {
                    views(m0)[j][i]
                });
            }
            assert(views(m1)[j] =~= l[j]);
        }
        assert(views(m1) =~= l);
    }
    let last = if horizontal {
        let wall_y = y + wall;
        assert(region_fits(m1, x as int, y as int, width as int, wall as int));
        assert(region_fits(m1, x as int, wall_y + 1, width as int, y + height - wall_y - 1));
        assert(addressable(m1));
        let k4 = divide_maze_from(maze, x, y, width, wall, draws, k3);
        let ghost m2 = maze@;
        assert(addressable(m2));
        let k5 = divide_maze_from(maze, x, wall_y + 1, width, y + height - wall_y - 1, draws, k4);
        assert(forall|q: Point| in_grid(m0, q) ==> in_grid(m1, q) && in_grid(m2, q));
        k5
    } else {
        let wall_x = x + wall;
        assert(region_fits(m1, x as int, y as int, wall as int, height as int));
        assert(region_fits(m1, wall_x + 1, y as int, x + width - wall_x - 1, height as int));
        assert(addressable(m1));
        let k4 = divide_maze_from(maze, x, y, wall, height, draws, k3);
        let ghost m2 = maze@;
        assert(addressable(m2));
        let k5 = divide_maze_from(maze, wall_x + 1, y, x + width - wall_x - 1, height, draws, k4);
        assert(forall|q: Point| in_grid(m0, q) ==> in_grid(m1, q) && in_grid(m2, q));
        k5
    };
    assert(walled_line(m0, maze@, x as int, y as int, width as int, height as int, horizontal, wall as int, gap as int));
    last
}

/// Relies on `rand::random::<usize>`: a random word, of which nothing is promised.
#[verifier::external_body]
fn random_word() -> (r: usize) {
    rand::random::<usize>()
}

/// `n` random words.
fn random_draws(n: usize) -> (r: Vec<usize>)
    ensures
        r@.len() == n,
{
    let mut r: Vec<usize> = Vec::new();
    let mut i: usize = 0;
    while i < n
        invariant
            i <= n,
            r@.len() == i,
        decreases n - i,
    {
        r.push(random_word());
        i = i + 1;
    }
    r
}

/// Splits the region of `width` by `height` cells at (`x`, `y`) as
/// `divide_maze_from` does, with random choices: twice as many draws as the
/// region has cells, more than a division can read.
pub fn divide_maze(maze: &mut Vec<Vec<char>>, x: usize, y: usize, width: usize, height: usize)
    requires
        width >= 2 && height >= 2 ==> region_fits(old(maze)@, x as int, y as int, width as int, height as int),
        addressable(old(maze)@),
    ensures
        exists|draws: Seq<usize>|
            views(final(maze)@) == (#[trigger] division(views(old(maze)@), x as int, y as int, width as int, height as int, draws, 0)).0,
        width < 2 || height < 2 ==> final(maze)@ == old(maze)@,
        final(maze)@.len() == old(maze)@.len(),
        forall|j: int| 0 <= j < old(maze)@.len() ==> (#[trigger] final(maze)@[j])@.len() == old(maze)@[j]@.len(),
        forall|q: Point| in_grid(old(maze)@, q) && !in_region(x as int, y as int, width as int, height as int, q)
            ==> #[trigger] cell(final(maze)@, q) == cell(old(maze)@, q),
        forall|q: Point| in_grid(old(maze)@, q) && in_region(x as int, y as int, width as int, height as int, q)
            ==> #[trigger] cell(final(maze)@, q) == cell(old(maze)@, q) || cell(final(maze)@, q) == WALL,
        width >= 2 && height >= 2 ==> exists|horizontal: bool, wall: int, gap: int|
            walled_line(old(maze)@, final(maze)@, x as int, y as int, width as int, height as int, horizontal, wall, gap),
{
    let n = if height > 0 && width <= usize::MAX / 2 / height {
        assert(2 * width * height <= usize::MAX) by (nonlinear_arith)
            requires height > 0, width <= usize::MAX / 2 / height;
        2 * width * height
    } else {
        0
    };
    let draws = random_draws(n);
    divide_maze_from(maze, x, y, width, height, &draws, 0);
}

/// `p` lies inside the rim of a `width` by `height` grid.
pub open spec fn interior(width: int, height: int, p: Point) -> bool {
    1 <= p.x < width - 1 && 1 <= p.y < height - 1
}

/// Walls all round and every cell one of the four symbols.
pub open spec fn walled(maze: Seq<Vec<char>>, width: int, height: int) -> bool {
    &&& rectangular(maze, width, height)
    &&& forall|p: Point| in_bounds(width, height, p) && on_border(width, height, p)
        ==> #[trigger] cell(maze, p) == WALL
    &&& forall|p: Point| in_bounds(width, height, p) ==> is_symbol(#[trigger] cell(maze, p))
}

/// Walls all round and every cell a wall or open: no start or goal yet.
pub open spec fn bare(maze: Seq<Vec<char>>, width: int, height: int) -> bool {
    &&& rectangular(maze, width, height)
    &&& forall|p: Point| in_bounds(width, height, p) && on_border(width, height, p)
        ==> #[trigger] cell(maze, p) == WALL
    &&& forall|p: Point| in_bounds(width, height, p)
        ==> #[trigger] cell(maze, p) == WALL || cell(maze, p) == OPEN
}

/// One start cell `s` and one goal cell `g`, two distinct inside cells, and no
/// other cell holds either symbol.
pub open spec fn marked_once(maze: Seq<Vec<char>>, width: int, height: int) -> bool {
    exists|s: Point, g: Point| {
        &&& s != g
        &&& interior(width, height, s)
        &&& interior(width, height, g)
        &&& forall|p: Point| in_bounds(width, height, p)
            ==> (#[trigger] cell(maze, p) == START <==> p == s) && (cell(maze, p) == GOAL <==> p == g)
    }
}

/// No cell is a start or a goal, and at most one inside cell is open.
pub open spec fn unmarked(maze: Seq<Vec<char>>, width: int, height: int) -> bool {
    &&& forall|p: Point| in_bounds(width, height, p)
        ==> #[trigger] cell(maze, p) != START && cell(maze, p) != GOAL
    &&& forall|p: Point, q: Point| interior(width, height, p) && interior(width, height, q)
        && #[trigger] cell(maze, p) == OPEN && #[trigger] cell(maze, q) == OPEN ==> p == q
}

/// `p` comes before the scan position (`x`, `y`) in row-major order.
pub open spec fn scanned(p: Point, x: int, y: int) -> bool {
    p.y < y || (p.y == y && p.x < x)
}

/// A `width` by `height` grid with walls all round and open inside.
pub open spec fn frame(width: int, height: int) -> Seq<Seq<char>> {
    Seq::new(height as nat, |j: int| Seq::new(width as nat, |i: int|
        if i == 0 || j == 0 || i == width - 1 || j == height - 1 { WALL } else { OPEN }))
}

/// The walled `width` by `height` grid with its inside divided as `division`
/// does with the choices in `draws`; no start or goal yet.
pub fn build_maze(width: usize, height: usize, draws: &Vec<usize>) -> (r: Vec<Vec<char>>)
    requires
        width >= 2,
        height >= 2,
    ensures
        views(r@) == division(frame(width as int, height as int), 1, 1, width - 2, height - 2, draws@, 0).0,
        bare(r@, width as int, height as int),
{
    let ghost (w, h) = (width as int, height as int);
    let mut maze: Vec<Vec<char>> = Vec::new();
    let mut j: usize = 0;
    while j < height
        invariant
            w == width,
            h == height,
            j <= height,
            maze@.len() == j,
            forall|k: int| 0 <= k < j ==> (#[trigger] maze@[k])@ == frame(w, h)[k],
        decreases height - j,
    {
        let mut row: Vec<char> = Vec::new();
        let mut i: usize = 0;
        while i < width
            invariant
                w == width,
                h == height,
                j < height,
                i <= width,
                row@ == frame(w, h)[j as int].subrange(0, i as int),
            decreases width - i,
        {
            if i == 0 || j == 0 || i == width - 1 || j == height - 1 {
                row.push(WALL);
            } else {
                row.push(OPEN);
            }
            i = i + 1;
            assert(row@ =~= frame(w, h)[j as int].subrange(0, i as int));
        }
        assert(row@ =~= frame(w, h)[j as int]);
        maze.push(row);
        j = j + 1;
    }
    assert(views(maze@) =~= frame(w, h));
    assert(bare(maze@, w, h)) by {
        assert forall|j: int| 0 <= j < h implies (#[trigger] maze@[j])@.len() == w by {
            assert(maze@[j]@ == frame(w, h)[j]);
        }
        assert forall|p: Point| in_bounds(w, h, p) implies #[trigger] cell(maze@, p)
            == if on_border(w, h, p) { WALL } else { OPEN } by {
            assert(maze@[p.y as int]@ == frame(w, h)[p.y as int]);
        }
    }
    let ghost framed = maze@;
    divide_maze_from(&mut maze, 1, 1, width - 2, height - 2, draws, 0);
    assert(bare(maze@, w, h)) by {
        assert forall|p: Point| in_bounds(w, h, p) implies #[trigger] cell(maze@, p) == cell(framed, p)
            || cell(maze@, p) == WALL by {
            assert(in_grid(framed, p));
        }
        assert forall|p: Point| in_bounds(w, h, p) && on_border(w, h, p) implies #[trigger] cell(maze@, p) == WALL by {
            assert(in_grid(framed, p));
            assert(!in_region(1, 1, w - 2, h - 2, p));
        }
    }
    maze
}

/// A start on the first of `cells` and a goal on the second, where there are
/// at least two; the maze is left as it is otherwise.
pub fn place_markers(maze: &mut Vec<Vec<char>>, cells: &Vec<Point>)
    requires
        cells@.len() >= 2 ==> in_grid(old(maze)@, cells@[0]) && in_grid(old(maze)@, cells@[1]),
    ensures
        final(maze)@.len() == old(maze)@.len(),
        forall|j: int| 0 <= j < old(maze)@.len() ==> (#[trigger] final(maze)@[j])@.len() == old(maze)@[j]@.len(),
        forall|q: Point| in_grid(old(maze)@, q) ==> #[trigger] cell(final(maze)@, q) ==
            if cells@.len() >= 2 && q == cells@[1] {
                GOAL
            } else if cells@.len() >= 2 && q == cells@[0] {
                START
            } else {
                cell(old(maze)@, q)
            },
{
    if cells.len() >= 2 {
        let ghost m0 = maze@;
        set_cell(maze, cells[0], START);
        let ghost m1 = maze@;
        set_cell(maze, cells[1], GOAL);
        assert forall|q: Point| in_grid(m0, q) implies #[trigger] cell(maze@, q) ==
            if q == cells@[1] { GOAL } else if q == cells@[0] { START } else { cell(m0, q) } by {
            assert(in_grid(m1, q));
        }
    }
}

/// A random `width` by `height` maze: walls all round, the inside split by
/// `divide_maze`, and then, where at least two inside cells are open, a start
/// and a goal on two distinct ones chosen at random; where fewer are open,
/// neither is placed.
pub fn generate_maze(width: usize, height: usize) -> (r: Vec<Vec<char>>)
    requires
        width >= 2,
        height >= 2,
    ensures
        walled(r@, width as int, height as int),
        marked_once(r@, width as int, height as int) || unmarked(r@, width as int, height as int),
{
    let ghost (w, h) = (width as int, height as int);
    let n = if width <= usize::MAX / 2 / height {
        assert(2 * width * height <= usize::MAX) by (nonlinear_arith)
            requires height > 0, width <= usize::MAX / 2 / height;
        2 * width * height
    } else {
        0
    };
    let draws = random_draws(n);
    let mut maze = build_maze(width, height, &draws);
    let mut empty: Vec<Point> = Vec::new();
    let mut y: usize = 1;
    while y < height - 1
        invariant
            bare(maze@, w, h),
            w == width,
            h == height,
            width >= 2,
            1 <= y <= height,
            forall|i: int| 0 <= i < empty@.len() ==> interior(w, h, #[trigger] empty@[i])
                && cell(maze@, empty@[i]) == OPEN && scanned(empty@[i], 0, y as int),
            forall|i: int, j: int| 0 <= i < j < empty@.len() ==> #[trigger] empty@[i] != #[trigger] empty@[j],
            forall|p: Point| interior(w, h, p) && #[trigger] cell(maze@, p) == OPEN && scanned(p, 0, y as int)
                ==> empty@.contains(p),
        decreases height - y,
    {
        let mut x: usize = 1;
        while x < width - 1
            invariant
                bare(maze@, w, h),
                w == width,
                h == height,
                1 <= y < height - 1,
                1 <= x <= width,
                forall|i: int| 0 <= i < empty@.len() ==> interior(w, h, #[trigger] empty@[i])
                    && cell(maze@, empty@[i]) == OPEN && scanned(empty@[i], x as int, y as int),
                forall|i: int, j: int| 0 <= i < j < empty@.len() ==> #[trigger] empty@[i] != #[trigger] empty@[j],
                forall|p: Point| interior(w, h, p) && #[trigger] cell(maze@, p) == OPEN && scanned(p, x as int, y as int)
                    ==> empty@.contains(p),
            decreases width - x,
        {
            if maze[y][x] == OPEN {
                let ghost e0 = empty@;
                empty.push(Point { x, y });
                assert forall|p: Point| interior(w, h, p) && #[trigger] cell(maze@, p) == OPEN
                    && scanned(p, x + 1, y as int) implies empty@.contains(p) by {
                    if p == (Point { x, y }) {
                        assert(empty@[e0.len() as int] == p);
                    } else {
                        let k = choose|k: int| 0 <= k < e0.len() && e0[k] == p;
                        assert(empty@[k] == p);
                    }
                }
            }
            x = x + 1;
        }
        y = y + 1;
    }
    proof {
        assert forall|p: Point| interior(w, h, p) && #[trigger] cell(maze@, p) == OPEN implies empty@.contains(p) by {
            assert(scanned(p, 0, y as int));
        }
    }
    if empty.len() >= 2 {
        let ghost before = empty@;
        shuffle_points(&mut empty);
        proof {
            before.to_multiset_ensures();
            empty@.to_multiset_ensures();
            assert(empty@.contains(empty@[0]));
            assert(empty@.contains(empty@[1]));
            assert(empty@.to_multiset().count(empty@[0]) > 0);
            assert(empty@.to_multiset().count(empty@[1]) > 0);
            assert(before.to_multiset().count(empty@[0]) > 0);
            assert(before.to_multiset().count(empty@[1]) > 0);
            assert(before.no_duplicates());
            before.lemma_multiset_has_no_duplicates();
            empty@.lemma_multiset_has_no_duplicates_conv();
            assert(empty@[0] != empty@[1]);
        }
        let ghost m0 = maze@;
        place_markers(&mut maze, &empty);
        proof {
            let start = empty@[0];
            let goal = empty@[1];
            assert forall|p: Point| in_bounds(w, h, p) implies #[trigger] cell(maze@, p)
                == if p == goal { GOAL } else if p == start { START } else { cell(m0, p) } by {
                assert(in_grid(m0, p));
            }
            assert(walled(maze@, w, h));
            assert(marked_once(maze@, w, h)) by {
                assert(start != goal);
            }
        }
    } else {
        proof {
            assert forall|p: Point, q: Point| interior(w, h, p) && interior(w, h, q)
                && #[trigger] cell(maze@, p) == OPEN && #[trigger] cell(maze@, q) == OPEN implies p == q by {
                assert(empty@.contains(p));
                assert(empty@.contains(q));
            }
            assert(unmarked(maze@, w, h));
        }
    }
    maze
}

} // verus!
