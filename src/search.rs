//! Locating the start and goal cells, and breadth-first search between them.
use vstd::prelude::*;
use vstd::set_lib::{lemma_int_range, lemma_len_subset, set_int_range};
use crate::grid::{
    adjacent, before, cell, connected, first_with, is_shortest_path, is_walk, is_walk_between, holds_symbol, in_bounds, rectangular, walkable, Point, GOAL, START,
    WALL,
};

verus! {

/// The first start cell and the first goal cell in row-major order, or `None`
/// when the maze lacks either symbol.
pub fn find_start_end(maze: &Vec<Vec<char>>, width: usize, height: usize) -> (r: Option<(Point, Point)>)
    requires
        rectangular(maze@, width as int, height as int),
    ensures
        r is Some <==> holds_symbol(maze@, width as int, height as int, START)
            && holds_symbol(maze@, width as int, height as int, GOAL),
        r matches Some((s, g)) ==> first_with(maze@, width as int, height as int, START, s)
            && first_with(maze@, width as int, height as int, GOAL, g),
{
    let mut start: Option<Point> = None;
    let mut end: Option<Point> = None;
    let mut y: usize = 0;
    while y < height
        invariant
            rectangular(maze@, width as int, height as int),
            y <= height,
            start matches Some(s) ==> first_with(maze@, width as int, height as int, START, s),
            start is None ==> forall|q: Point|
                in_bounds(width as int, y as int, q) ==> #[trigger] cell(maze@, q) != START,
            end matches Some(g) ==> first_with(maze@, width as int, height as int, GOAL, g),
            end is None ==> forall|q: Point|
                in_bounds(width as int, y as int, q) ==> #[trigger] cell(maze@, q) != GOAL,
        decreases height - y,
    {
        let row = &maze[y];
        let mut x: usize = 0;
        while x < width
            invariant
                rectangular(maze@, width as int, height as int),
                y < height,
                x <= width,
                row@ == maze@[y as int]@,
                start matches Some(s) ==> first_with(maze@, width as int, height as int, START, s),
                start is None ==> forall|q: Point|
                    in_bounds(width as int, height as int, q) && (q.y < y || (q.y == y && q.x < x))
                        ==> #[trigger] cell(maze@, q) != START,
                end matches Some(g) ==> first_with(maze@, width as int, height as int, GOAL, g),
                end is None ==> forall|q: Point|
                    in_bounds(width as int, height as int, q) && (q.y < y || (q.y == y && q.x < x))
                        ==> #[trigger] cell(maze@, q) != GOAL,
            decreases width - x,
        {
            let c = row[x];
            let p = Point { x, y };
            if c == START && start.is_none() {
                start = Some(p);
            }
            if c == GOAL && end.is_none() {
                end = Some(p);
            }
            x = x + 1;
        }
        y = y + 1;
    }
    match (start, end) {
        (Some(s), Some(e)) => Some((s, e)),
        _ => None,
    }
}

/// The neighbour of `p` one step in direction `d`: down, right, up, left for
/// `d` = 0, 1, 2, 3; `None` where that step leaves the non-negative quadrant.
pub open spec fn step(p: Point, d: int) -> Option<Point> {
    if d == 0 {
        if p.y + 1 <= usize::MAX { Some(Point { x: p.x, y: (p.y + 1) as usize }) } else { None }
    } else if d == 1 {
        if p.x + 1 <= usize::MAX { Some(Point { x: (p.x + 1) as usize, y: p.y }) } else { None }
    } else if d == 2 {
        if p.y >= 1 { Some(Point { x: p.x, y: (p.y - 1) as usize }) } else { None }
    } else {
        if p.x >= 1 { Some(Point { x: (p.x - 1) as usize, y: p.y }) } else { None }
    }
}

/// The step in direction `d`, as a sequence of length one where it lands on a
/// walkable cell and as the empty sequence otherwise.
pub open spec fn open_step(maze: Seq<Vec<char>>, width: int, height: int, p: Point, d: int) -> Seq<Point> {
    match step(p, d) {
        Some(q) => if walkable(maze, width, height, q) { seq![q] } else { seq![] },
        None => seq![],
    }
}

/// The walkable neighbours of `p`, in the order down, right, up, left.
pub open spec fn neighbours(maze: Seq<Vec<char>>, width: int, height: int, p: Point) -> Seq<Point> {
    open_step(maze, width, height, p, 0) + open_step(maze, width, height, p, 1)
        + open_step(maze, width, height, p, 2) + open_step(maze, width, height, p, 3)
}

/// The neighbour list holds exactly the walkable cells adjacent to `p`.
pub proof fn lemma_neighbours(maze: Seq<Vec<char>>, width: int, height: int, p: Point)
    ensures
        forall|q: Point| #[trigger] neighbours(maze, width, height, p).contains(q)
            <==> adjacent(p, q) && walkable(maze, width, height, q),
{
    let n = neighbours(maze, width, height, p);
    let a = open_step(maze, width, height, p, 0);
    let b = open_step(maze, width, height, p, 1);
    let c = open_step(maze, width, height, p, 2);
    let d = open_step(maze, width, height, p, 3);
    assert forall|q: Point| n.contains(q) <==> adjacent(p, q) && walkable(maze, width, height, q) by {
        if n.contains(q) {
            let i = choose|i: int| 0 <= i < n.len() && n[i] == q;
            assert(n == a + b + c + d);
        }
        if adjacent(p, q) && walkable(maze, width, height, q) {
            if q.x == p.x && q.y == p.y + 1 {
                assert(a == seq![q]);
                assert(n[0] == q);
            } else if q.y == p.y && q.x == p.x + 1 {
                assert(b == seq![q]);
                assert(n[a.len() as int] == q);
            } else if q.x == p.x && q.y + 1 == p.y {
                assert(c == seq![q]);
                assert(n[(a.len() + b.len()) as int] == q);
            } else {
                assert(d == seq![q]);
                assert(n[(a.len() + b.len() + c.len()) as int] == q);
            }
        }
    }
}

/// The walkable neighbours of `point`, in the order down, right, up, left.
pub fn get_adjacent_cells(point: &Point, maze: &Vec<Vec<char>>, width: usize, height: usize) -> (r: Vec<Point>)
    requires
        rectangular(maze@, width as int, height as int),
    ensures
        r@ == neighbours(maze@, width as int, height as int, *point),
{
    let ghost m = maze@;
    let ghost (w, h) = (width as int, height as int);
    let p = *point;
    let mut adjacent: Vec<Point> = Vec::new();
    if p.x < width && p.y < height && p.y + 1 < height && maze[p.y + 1][p.x] != WALL {
        adjacent.push(Point { x: p.x, y: p.y + 1 });
    }
    assert(adjacent@ == open_step(m, w, h, p, 0));
    if p.y < height && p.x < width && p.x + 1 < width && maze[p.y][p.x + 1] != WALL {
        adjacent.push(Point { x: p.x + 1, y: p.y });
    }
    assert(adjacent@ == open_step(m, w, h, p, 0) + open_step(m, w, h, p, 1));
    if p.x < width && p.y >= 1 && p.y - 1 < height && maze[p.y - 1][p.x] != WALL {
        adjacent.push(Point { x: p.x, y: p.y - 1 });
    }
    assert(adjacent@ == open_step(m, w, h, p, 0) + open_step(m, w, h, p, 1) + open_step(m, w, h, p, 2));
    if p.y < height && p.x >= 1 && p.x - 1 < width && maze[p.y][p.x - 1] != WALL {
        adjacent.push(Point { x: p.x - 1, y: p.y });
    }
    adjacent
}

/// The parent recorded for `p` in a table indexed by row, then column; `None`
/// where `p` lies outside the table.
pub open spec fn parent_at(parent: Seq<Vec<Option<Point>>>, p: Point) -> Option<Point> {
    if p.y < parent.len() && p.x < parent[p.y as int]@.len() {
        parent[p.y as int]@[p.x as int]
    } else {
        None
    }
}

/// The cell reached from `p` by following `k` parent links.
pub open spec fn ancestor(parent: Seq<Vec<Option<Point>>>, p: Point, k: nat) -> Option<Point>
    decreases k,
{
    if k == 0 {
        Some(p)
    } else {
        match ancestor(parent, p, (k - 1) as nat) {
            Some(a) => parent_at(parent, a),
            None => None,
        }
    }
}

/// Once the chain of parent links breaks off, it stays broken.
proof fn lemma_ancestor_broken(parent: Seq<Vec<Option<Point>>>, p: Point, j: nat, k: nat)
    requires
        j <= k,
        ancestor(parent, p, j) is None,
    ensures
        ancestor(parent, p, k) is None,
    decreases k - j,
{
    if j < k {
        lemma_ancestor_broken(parent, p, j, (k - 1) as nat);
    }
}

/// The chain of parent links from `end` back to `start`, listed from `start`
/// to `end`. The chain stops at its first arrival at `start`.
pub fn reconstruct_path(parent: &Vec<Vec<Option<Point>>>, end: Point, start: Point) -> (r: Vec<Point>)
    requires
        exists|n: nat| ancestor(parent@, end, n) == Some(start),
    ensures
        r@.len() >= 1,
        r@[0] == start,
        forall|i: int| 0 < i < r@.len() ==> r@[i] != start,
        forall|i: int| 0 <= i < r@.len()
            ==> ancestor(parent@, end, (r@.len() - 1 - i) as nat) == Some(#[trigger] r@[i]),
{
    let ghost n = choose|n: nat| ancestor(parent@, end, n) == Some(start);
    let mut back: Vec<Point> = Vec::new();
    let mut current = end;
    while current != start
        invariant
            ancestor(parent@, end, n) == Some(start),
            back@.len() <= n,
            ancestor(parent@, end, back@.len() as nat) == Some(current),
            forall|k: int| 0 <= k < back@.len()
                ==> ancestor(parent@, end, k as nat) == Some(#[trigger] back@[k]),
            forall|k: int| 0 <= k < back@.len() ==> #[trigger] back@[k] != start,
        decreases n - back@.len(),
    {
        proof {
            let k = back@.len() as nat;
            if ancestor(parent@, end, k + 1) is None {
                lemma_ancestor_broken(parent@, end, k + 1, n);
            }
        }
        back.push(current);
        current = parent[current.y][current.x].unwrap();
    }
    back.push(start);
    let ghost len = back@.len();
    let mut path: Vec<Point> = Vec::new();
    let mut i: usize = back.len();
    while i > 0
        invariant
            i <= back@.len(),
            back@.len() == len,
            path@.len() == len - i,
            forall|j: int| 0 <= j < path@.len() ==> #[trigger] path@[j] == back@[len - 1 - j],
        decreases i,
    {
        i = i - 1;
        path.push(back[i]);
    }
    path
}

/// What a search for a path from `s` to `g` owes: a shortest path where one
/// exists (the lone cell where `s` and `g` coincide), and `None` where none does.
pub open spec fn answers(
    maze: Seq<Vec<char>>,
    width: int,
    height: int,
    s: Point,
    g: Point,
    r: Option<Vec<Point>>,
) -> bool {
    match r {
        Some(path) => is_shortest_path(maze, width, height, path@, s, g) && (s == g ==> path@ == seq![s]),
        None => !connected(maze, width, height, s, g),
    }
}

/// Two results that both meet the search's contract for the same maze, start
/// and goal agree on whether a path exists, and on its length where one does.
pub proof fn lemma_answers_agree(
    maze: Seq<Vec<char>>,
    width: int,
    height: int,
    s: Point,
    g: Point,
    r1: Option<Vec<Point>>,
    r2: Option<Vec<Point>>,
)
    requires
        answers(maze, width, height, s, g, r1),
        answers(maze, width, height, s, g, r2),
    ensures
        r1 is Some <==> r2 is Some,
        r1 is Some ==> r1.unwrap()@.len() == r2.unwrap()@.len(),
{
    if let Some(p1) = r1 {
        assert(is_walk_between(maze, width, height, p1@, s, g));
        if let Some(p2) = r2 {
            assert(is_walk_between(maze, width, height, p2@, s, g));
        }
    }
    if let Some(p2) = r2 {
        assert(is_walk_between(maze, width, height, p2@, s, g));
    }
}

/// A `height` by `width` table with every entry `v`.
pub(crate) fn filled<T: Copy>(width: usize, height: usize, v: T) -> (r: Vec<Vec<T>>)
    ensures
        r@.len() == height,
        forall|y: int| 0 <= y < height ==> (#[trigger] r@[y])@.len() == width,
        forall|y: int, x: int| 0 <= y < height && 0 <= x < width ==> r@[y]@[x] == v,
{
    let mut r: Vec<Vec<T>> = Vec::new();
    let mut y: usize = 0;
    while y < height
        invariant
            y <= height,
            r@.len() == y,
            forall|j: int| 0 <= j < y ==> (#[trigger] r@[j])@.len() == width,
            forall|j: int, x: int| 0 <= j < y && 0 <= x < width ==> r@[j]@[x] == v,
        decreases height - y,
    {
        let mut row: Vec<T> = Vec::new();
        let mut x: usize = 0;
        while x < width
            invariant
                x <= width,
                row@.len() == x,
                forall|i: int| 0 <= i < x ==> row@[i] == v,
            decreases width - x,
        {
            row.push(v);
            x = x + 1;
        }
        r.push(row);
        y = y + 1;
    }
    r
}

/// Row-major rank of a cell.
spec fn rank(width: int, p: Point) -> int {
    p.y * width + p.x
}

proof fn lemma_rank(width: int, height: int, p: Point, q: Point)
    requires
        in_bounds(width, height, p),
        in_bounds(width, height, q),
    ensures
        0 <= rank(width, p) < width * height,
        rank(width, p) == rank(width, q) ==> p == q,
{
    assert(0 <= rank(width, p) < width * height) by (nonlinear_arith)
        requires p.x < width, p.y < height, p.x >= 0, p.y >= 0;
    if rank(width, p) == rank(width, q) {
        assert(p.y == q.y) by (nonlinear_arith)
            requires
                p.y * width + p.x == q.y * width + q.x,
                0 <= p.x < width, 0 <= q.x < width, p.y >= 0, q.y >= 0;
    }
}

/// Distinct in-bounds cells number at most `width * height`.
proof fn lemma_cells_bounded(q: Seq<Point>, width: int, height: int)
    requires
        width >= 0,
        height >= 0,
        q.no_duplicates(),
        forall|i: int| 0 <= i < q.len() ==> in_bounds(width, height, #[trigger] q[i]),
    ensures
        q.len() <= width * height,
{
    let r = q.map_values(|p: Point| rank(width, p));
    assert forall|i: int, j: int| 0 <= i < r.len() && 0 <= j < r.len() && i != j implies r[i] != r[j] by {
        lemma_rank(width, height, q[i], q[j]);
    }
    assert(r.no_duplicates());
    r.unique_seq_to_set();
    if q.len() > 0 {
        lemma_rank(width, height, q[0], q[0]);
    }
    assert(width * height >= 0) by (nonlinear_arith)
        requires width >= 0, height >= 0;
    assert forall|v: int| r.to_set().contains(v) implies set_int_range(0, width * height).contains(v) by {
        let i = choose|i: int| 0 <= i < r.len() && r[i] == v;
        lemma_rank(width, height, q[i], q[i]);
    }
    lemma_int_range(0, width * height);
    lemma_len_subset(r.to_set(), set_int_range(0, width * height));
}

/// The queue index reached from index `c` by `k` parent steps.
spec fn up(pj: Seq<int>, c: int, k: nat) -> int
    decreases k,
{
    if k == 0 { c } else { pj[up(pj, c, (k - 1) as nat)] }
}

/// The search state: the queue `q` of discovered cells with their distances
/// `lv` and the queue index `pj` of each one's parent; `at` gives each queued
/// cell's index.
spec fn queue_ok(
    maze: Seq<Vec<char>>,
    width: int,
    height: int,
    q: Seq<Point>,
    lv: Seq<int>,
    pj: Seq<int>,
    at: Map<Point, int>,
    head: int,
    parent: Seq<Vec<Option<Point>>>,
) -> bool {
    &&& q.len() >= 1
    &&& lv.len() == q.len()
    &&& pj.len() == q.len()
    &&& lv[0] == 0
    &&& 0 <= head <= q.len()
    &&& forall|i: int| 0 <= i < q.len() ==> walkable(maze, width, height, #[trigger] q[i])
        && at.contains_key(q[i]) && at[q[i]] == i
    &&& forall|p: Point| #[trigger] at.contains_key(p) ==> 0 <= at[p] < q.len() && q[at[p]] == p
    &&& forall|i: int, j: int| 0 <= i <= j < q.len() ==> lv[i] <= lv[j]
    &&& head < q.len() ==> lv[q.len() - 1] <= lv[head] + 1
    &&& forall|i: int| 0 < i < q.len() ==> 0 <= #[trigger] pj[i] < i
        && lv[i] == lv[pj[i]] + 1
        && adjacent(q[pj[i]], q[i])
        && parent_at(parent, q[i]) == Some(q[pj[i]])
    &&& forall|i: int, p: Point| 0 <= i < head && #[trigger] adjacent(q[i], p)
        && walkable(maze, width, height, p)
        ==> at.contains_key(p) && lv[at[p]] <= lv[i] + 1
}

/// Along any walk from the first queued cell, each cell is queued no deeper
/// than its position on the walk, unless the unexplored part of the queue
/// starts no deeper than that position.
proof fn lemma_walk_frontier(
    maze: Seq<Vec<char>>,
    width: int,
    height: int,
    q: Seq<Point>,
    lv: Seq<int>,
    pj: Seq<int>,
    at: Map<Point, int>,
    head: int,
    parent: Seq<Vec<Option<Point>>>,
    w: Seq<Point>,
    k: int,
)
    requires
        queue_ok(maze, width, height, q, lv, pj, at, head, parent),
        is_walk(maze, width, height, w),
        w[0] == q[0],
        0 <= k < w.len(),
    ensures
        (at.contains_key(w[k]) && lv[at[w[k]]] <= k) || (head < q.len() && lv[head] <= k),
    decreases k,
{
    assert(walkable(maze, width, height, q[0]));
    if k > 0 {
        lemma_walk_frontier(maze, width, height, q, lv, pj, at, head, parent, w, k - 1);
        if at.contains_key(w[k - 1]) && lv[at[w[k - 1]]] <= k - 1 {
            let b = at[w[k - 1]];
            let i = k - 1;
            assert(adjacent(w[i], w[i + 1]));
            assert(walkable(maze, width, height, w[k]));
            if b < head {
                assert(adjacent(q[b], w[k]));
            } else {
                assert(lv[head] <= lv[b]);
            }
        }
    }
}

/// Following parent links from a queued cell steps one level shallower each time.
proof fn lemma_chain(
    maze: Seq<Vec<char>>,
    width: int,
    height: int,
    q: Seq<Point>,
    lv: Seq<int>,
    pj: Seq<int>,
    at: Map<Point, int>,
    head: int,
    parent: Seq<Vec<Option<Point>>>,
    c: int,
    k: nat,
)
    requires
        queue_ok(maze, width, height, q, lv, pj, at, head, parent),
        0 <= c < q.len(),
        k <= lv[c],
    ensures
        0 <= up(pj, c, k) < q.len(),
        lv[up(pj, c, k)] == lv[c] - k,
        ancestor(parent, q[c], k) == Some(q[up(pj, c, k)]),
    decreases k,
{
    if k > 0 {
        lemma_chain(maze, width, height, q, lv, pj, at, head, parent, c, (k - 1) as nat);
        let a = up(pj, c, (k - 1) as nat);
        assert(lv[0] <= lv[a]);
        assert(a != 0);
        assert(pj[a] < a);
    }
}

/// The parent chain that the search hands back on reaching the cell at queue
/// index `c` is a shortest path from the first queued cell to that cell.
proof fn lemma_found_path(
    maze: Seq<Vec<char>>,
    width: int,
    height: int,
    q: Seq<Point>,
    lv: Seq<int>,
    pj: Seq<int>,
    at: Map<Point, int>,
    c: int,
    parent: Seq<Vec<Option<Point>>>,
    path: Seq<Point>,
)
    requires
        queue_ok(maze, width, height, q, lv, pj, at, c, parent),
        0 <= c < q.len(),
        path.len() >= 1,
        path[0] == q[0],
        forall|i: int| 0 < i < path.len() ==> path[i] != q[0],
        forall|i: int| 0 <= i < path.len()
            ==> ancestor(parent, q[c], (path.len() - 1 - i) as nat) == Some(#[trigger] path[i]),
    ensures
        is_shortest_path(maze, width, height, path, q[0], q[c]),
{
    let n = lv[c];
    let len = path.len() as int;
    assert(lv[0] <= lv[c]);
    if len - 1 > n {
        lemma_chain(maze, width, height, q, lv, pj, at, c, parent, c, n as nat);
        let a = up(pj, c, n as nat);
        if a != 0 {
            assert(pj[a] < a);
        }
        assert(path[len - 1 - n] == q[0]);
    }
    if len - 1 < n {
        lemma_chain(maze, width, height, q, lv, pj, at, c, parent, c, (len - 1) as nat);
        let a = up(pj, c, (len - 1) as nat);
        assert(path[0] == q[a]);
        assert(at[q[a]] == a);
        assert(at[q[0]] == 0);
    }
    assert(len - 1 == n);
    assert forall|i: int| 0 <= i < len implies path[i] == q[up(pj, c, (len - 1 - i) as nat)]
        && lv[up(pj, c, (len - 1 - i) as nat)] == i by {
        lemma_chain(maze, width, height, q, lv, pj, at, c, parent, c, (len - 1 - i) as nat);
    }
    assert forall|i: int| 0 <= i < len implies walkable(maze, width, height, #[trigger] path[i]) by {
        lemma_chain(maze, width, height, q, lv, pj, at, c, parent, c, (len - 1 - i) as nat);
    }
    assert forall|i: int| 0 <= i < len - 1 implies #[trigger] adjacent(path[i], path[i + 1]) by {
        let k = (len - 2 - i) as nat;
        lemma_chain(maze, width, height, q, lv, pj, at, c, parent, c, k);
        lemma_chain(maze, width, height, q, lv, pj, at, c, parent, c, k + 1);
        let a = up(pj, c, k);
        assert(up(pj, c, k + 1) == pj[a]);
        assert(lv[a] >= 1);
        assert(a != 0);
    }
    assert forall|i: int, j: int| 0 <= i < len && 0 <= j < len && i != j
        implies path[i] != path[j] by {
        lemma_chain(maze, width, height, q, lv, pj, at, c, parent, c, (len - 1 - i) as nat);
        lemma_chain(maze, width, height, q, lv, pj, at, c, parent, c, (len - 1 - j) as nat);
        let a = up(pj, c, (len - 1 - i) as nat);
        let b = up(pj, c, (len - 1 - j) as nat);
        assert(at[q[a]] == a);
        assert(at[q[b]] == b);
    }
    assert(path.no_duplicates());
    assert forall|wk: Seq<Point>| #[trigger] is_walk_between(maze, width, height, wk, q[0], q[c])
        implies path.len() <= wk.len() by {
        lemma_walk_frontier(maze, width, height, q, lv, pj, at, c, parent, wk, wk.len() - 1);
    }
}

/// The shortest path from the start cell to the goal cell, by breadth-first
/// search that tries neighbours in the order down, right, up, left; `None`
/// where the maze lacks a start or a goal, or no walk joins them.
pub fn find_path(maze: &Vec<Vec<char>>, width: usize, height: usize) -> (r: Option<Vec<Point>>)
    requires
        rectangular(maze@, width as int, height as int),
    ensures
        r is Some ==> holds_symbol(maze@, width as int, height as int, START)
            && holds_symbol(maze@, width as int, height as int, GOAL),
        forall|s: Point, g: Point|
            #![trigger first_with(maze@, width as int, height as int, START, s), first_with(maze@, width as int, height as int, GOAL, g)]
            first_with(maze@, width as int, height as int, START, s)
                && first_with(maze@, width as int, height as int, GOAL, g)
                ==> answers(maze@, width as int, height as int, s, g, r),
{
    let ghost m = maze@;
    let ghost w = width as int;
    let ghost h = height as int;
    let (start, end) = match find_start_end(maze, width, height) {
        Some(se) => se,
        None => return None,
    };
    let mut queue: Vec<Point> = Vec::new();
    let mut visited: Vec<Vec<bool>> = filled(width, height, false);
    let mut parent: Vec<Vec<Option<Point>>> = filled(width, height, None);
    queue.push(start);
    visited[start.y][start.x] = true;
    let ghost mut lv: Seq<int> = seq![0];
    let ghost mut pj: Seq<int> = seq![0];
    let ghost mut at: Map<Point, int> = map![start => 0];
    let mut head: usize = 0;
    proof {
        assert(queue@ == seq![start]);
        lemma_cells_bounded(queue@, w, h);
    }
    while head < queue.len()
        invariant
            rectangular(m, w, h),
            m == maze@,
            w == width,
            h == height,
            first_with(m, w, h, START, start),
            first_with(m, w, h, GOAL, end),
            queue@[0] == start,
            queue@.len() <= w * h,
            queue_ok(m, w, h, queue@, lv, pj, at, head as int, parent@),
            visited@.len() == height,
            forall|y: int| 0 <= y < height ==> (#[trigger] visited@[y])@.len() == width,
            parent@.len() == height,
            forall|y: int| 0 <= y < height ==> (#[trigger] parent@[y])@.len() == width,
            forall|p: Point| in_bounds(w, h, p)
                ==> (visited@[p.y as int]@[p.x as int] <==> #[trigger] at.contains_key(p)),
            forall|i: int| 0 <= i < head ==> #[trigger] queue@[i] != end,
        decreases w * h - head,
    {
        let current = queue[head];
        if current == end {
            proof {
                let c = head as int;
                lemma_chain(m, w, h, queue@, lv, pj, at, c, parent@, c, lv[c] as nat);
                assert(lv[0] <= lv[c]);
                let a = up(pj, c, lv[c] as nat);
                if a != 0 {
                    assert(pj[a] < a);
                }
                assert(a == 0);
                assert(ancestor(parent@, end, lv[c] as nat) == Some(start));
            }
            let path = reconstruct_path(&parent, end, start);
            proof {
                lemma_found_path(m, w, h, queue@, lv, pj, at, head as int, parent@, path@);
                assert forall|s: Point, g: Point|
                    first_with(m, w, h, START, s) && first_with(m, w, h, GOAL, g)
                    implies answers(m, w, h, s, g, Some(path)) by {
                    lemma_first_unique(m, w, h, START, s, start);
                    lemma_first_unique(m, w, h, GOAL, g, end);
                    if s == g {
                        assert(is_walk_between(m, w, h, seq![s], s, g));
                        assert(path@ =~= seq![s]);
                    }
                }
            }
            return Some(path);
        }
        let adj = get_adjacent_cells(&current, maze, width, height);
        proof {
            lemma_neighbours(m, w, h, current);
        }
        let mut k: usize = 0;
        while k < adj.len()
            invariant
                rectangular(m, w, h),
                m == maze@,
                w == width,
                h == height,
                first_with(m, w, h, START, start),
                first_with(m, w, h, GOAL, end),
                queue@[0] == start,
                head < queue@.len(),
                current == queue@[head as int],
                current != end,
                adj@ == neighbours(m, w, h, current),
                forall|p: Point| #[trigger] adj@.contains(p) <==> adjacent(current, p) && walkable(m, w, h, p),
                queue_ok(m, w, h, queue@, lv, pj, at, head as int, parent@),
                visited@.len() == height,
                forall|y: int| 0 <= y < height ==> (#[trigger] visited@[y])@.len() == width,
                parent@.len() == height,
                forall|y: int| 0 <= y < height ==> (#[trigger] parent@[y])@.len() == width,
                forall|p: Point| in_bounds(w, h, p)
                    ==> (visited@[p.y as int]@[p.x as int] <==> #[trigger] at.contains_key(p)),
                forall|i: int| 0 <= i < head ==> #[trigger] queue@[i] != end,
                forall|j: int| 0 <= j < k ==> at.contains_key(#[trigger] adj@[j])
                    && lv[at[adj@[j]]] <= lv[head as int] + 1,
            decreases adj.len() - k,
        {
            let next = adj[k];
            assert(adj@.contains(next));
            let ghost at0 = at;
            let ghost lv0 = lv;
            let ghost pj0 = pj;
            if !visited[next.y][next.x] {
                let ghost q0 = queue@;
                let ghost par0 = parent@;
                let ghost len0 = queue@.len() as int;
                queue.push(next);
                visited[next.y][next.x] = true;
                parent[next.y][next.x] = Some(current);
                proof {
                    assert(parent@[next.y as int]@ == par0[next.y as int]@.update(next.x as int, Some(current)));
                    assert(parent@.len() == par0.len());
                    assert(forall|y: int| 0 <= y < par0.len() && y != next.y ==> parent@[y] == par0[y]);
                    lv = lv.push(lv[head as int] + 1);
                    pj = pj.push(head as int);
                    at = at.insert(next, len0);
                    assert forall|i: int| 0 <= i < len0 implies #[trigger] queue@[i] != next by {
                        assert(at.contains_key(q0[i]));
                    }
                    assert(adjacent(current, next));
                    assert forall|i: int| 0 < i < queue@.len() implies 0 <= #[trigger] pj[i] < i
                        && lv[i] == lv[pj[i]] + 1
                        && adjacent(queue@[pj[i]], queue@[i])
                        && parent_at(parent@, queue@[i]) == Some(queue@[pj[i]]) by {
                        if i < len0 {
                            assert(0 <= pj0[i] < i && lv0[i] == lv0[pj0[i]] + 1
                                && adjacent(q0[pj0[i]], q0[i])
                                && parent_at(par0, q0[i]) == Some(q0[pj0[i]]));
                            assert(pj[i] == pj0[i]);
                            assert(lv[i] == lv0[i] && lv[pj[i]] == lv0[pj[i]]);
                            assert(queue@[i] != next);
                            let p = q0[i];
                            assert(walkable(m, w, h, p));
                            if p.y == next.y {
                                assert(p.x != next.x);
                            }
                            assert(parent_at(parent@, p) == parent_at(par0, p));
                            assert(queue@[pj[i]] == q0[pj[i]]);
                        } else {
                            assert(pj[i] == head);
                            assert(queue@[i] == next);
                            assert(walkable(m, w, h, next));
                            assert(parent_at(parent@, next) == Some(current));
                        }
                    }
                    assert(queue_ok(m, w, h, queue@, lv, pj, at, head as int, parent@));
                }
            }
            proof {
                assert(at.contains_key(next));
                assert(lv[at[next]] <= lv[head as int] + 1) by {
                    assert(lv[at[next]] <= lv[queue@.len() - 1]);
                }
                assert forall|j: int| 0 <= j < k implies at.contains_key(#[trigger] adj@[j])
                    && lv[at[adj@[j]]] <= lv[head as int] + 1 by {
                    assert(at0.contains_key(adj@[j]));
                    assert(at[adj@[j]] == at0[adj@[j]]);
                }
            }
            k = k + 1;
        }
        proof {
            assert forall|i: int, p: Point| 0 <= i < head + 1 && #[trigger] adjacent(queue@[i], p)
                && walkable(m, w, h, p) implies at.contains_key(p) && lv[at[p]] <= lv[i] + 1 by {
                if i == head {
                    assert(adj@.contains(p));
                    let j = choose|j: int| 0 <= j < adj@.len() && adj@[j] == p;
                }
            }
            lemma_cells_bounded(queue@, w, h);
        }
        head = head + 1;
    }
    proof {
        assert forall|s: Point, g: Point|
            first_with(m, w, h, START, s) && first_with(m, w, h, GOAL, g)
            implies answers(m, w, h, s, g, None) by {
            lemma_first_unique(m, w, h, START, s, start);
            lemma_first_unique(m, w, h, GOAL, g, end);
            if connected(m, w, h, s, g) {
                let wk = choose|wk: Seq<Point>| is_walk_between(m, w, h, wk, s, g);
                lemma_walk_frontier(m, w, h, queue@, lv, pj, at, head as int, parent@, wk, wk.len() - 1);
                let b = at[end];
                assert(queue@[b] == end);
            }
        }
    }
    None
}

/// Only one cell is the first in row-major order to hold a given symbol.
proof fn lemma_first_unique(maze: Seq<Vec<char>>, width: int, height: int, c: char, p: Point, q: Point)
    requires
        first_with(maze, width, height, c, p),
        first_with(maze, width, height, c, q),
    ensures
        p == q,
{
    if p != q {
        if before(p, q) {
        } else {
            assert(before(q, p));
        }
    }
}

} // verus!
