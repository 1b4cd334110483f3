//! Text forms of a maze and of a path: the coordinate listing, JSON, the maze
//! with the path drawn in, and the maze file format.
use vstd::prelude::*;
use crate::grid::{cell, rectangular, Point};

verus! {

/// A copy of a row of cells.
pub fn copy_row(row: &Vec<char>) -> (r: Vec<char>)
    ensures
        r@ == row@,
{
    let mut r: Vec<char> = Vec::new();
    let mut x: usize = 0;
    while x < row.len()
        invariant
            x <= row@.len(),
            r@ == row@.subrange(0, x as int),
        decreases row@.len() - x,
    {
        r.push(row[x]);
        x = x + 1;
        assert(r@ =~= row@.subrange(0, x as int));
    }
    assert(r@ =~= row@);
    r
}

/// The symbol drawn on the interior cells of a path.
pub const PATH_MARK: char = '*';

/// The decimal digit for `d` < 10.
pub open spec fn digit(d: nat) -> char {
    (('0' as nat) + d) as char
}

/// The decimal form of `n`, without leading zeros.
pub open spec fn decimal(n: nat) -> Seq<char>
    decreases n,
{
    if n < 10 {
        seq![digit(n)]
    } else {
        decimal(n / 10).push(digit(n % 10))
    }
}

/// `"x:X, y:Y"` for one point, 1-based, ended by a newline.
pub open spec fn text_line(p: Point) -> Seq<char> {
    seq!['x', ':'] + decimal(p.x as nat + 1) + seq![',', ' ', 'y', ':'] + decimal(p.y as nat + 1)
        + seq!['\n']
}

/// One line per point of the path, in order.
pub open spec fn text_lines(path: Seq<Point>) -> Seq<char>
    decreases path.len(),
{
    if path.len() == 0 {
        seq![]
    } else {
        text_lines(path.drop_last()) + text_line(path.last())
    }
}

/// `{"x":X,"y":Y}` for one point, 1-based.
pub open spec fn json_point(p: Point) -> Seq<char> {
    seq!['{', '"', 'x', '"', ':'] + decimal(p.x as nat + 1) + seq![',', '"', 'y', '"', ':']
        + decimal(p.y as nat + 1) + seq!['}']
}

/// The JSON objects of the points, separated by commas.
pub open spec fn json_points(path: Seq<Point>) -> Seq<char>
    decreases path.len(),
{
    if path.len() == 0 {
        seq![]
    } else if path.len() == 1 {
        json_point(path[0])
    } else {
        json_points(path.drop_last()) + seq![','] + json_point(path.last())
    }
}

/// `{"path":[...]}` holding the points of the path in order.
pub open spec fn json_path(path: Seq<Point>) -> Seq<char> {
    seq!['{', '"', 'p', 'a', 't', 'h', '"', ':', '['] + json_points(path) + seq![']', '}']
}

/// Every point of the path has a successor that fits in a `usize`.
pub open spec fn coordinates_fit(path: Seq<Point>) -> bool {
    forall|i: int| 0 <= i < path.len() ==> (#[trigger] path[i]).x < usize::MAX && path[i].y < usize::MAX
}

/// Relies on `String`'s `FromIterator<char>`: the string holds the characters in order.
#[verifier::external_body]
fn string_from_chars(chars: &Vec<char>) -> (r: String)
    ensures
        r@ == chars@,
{
    chars.iter().collect()
}

fn push_chars(out: &mut Vec<char>, s: &[char])
    ensures
        final(out)@ == old(out)@ + s@,
{
    let mut i: usize = 0;
    while i < s.len()
        invariant
            i <= s@.len(),
            out@ == old(out)@ + s@.subrange(0, i as int),
        decreases s@.len() - i,
    {
        out.push(s[i]);
        i = i + 1;
        assert(s@.subrange(0, i as int) == s@.subrange(0, i - 1 as int).push(s@[i - 1]));
    }
    assert(s@.subrange(0, s@.len() as int) == s@);
}

fn digit_char(d: usize) -> (c: char)
    requires
        d < 10,
    ensures
        c == digit(d as nat),
{
    if d == 0 { '0' } else if d == 1 { '1' } else if d == 2 { '2' } else if d == 3 { '3' }
    else if d == 4 { '4' } else if d == 5 { '5' } else if d == 6 { '6' } else if d == 7 { '7' }
    else if d == 8 { '8' } else { '9' }
}

fn push_decimal(out: &mut Vec<char>, n: usize)
    ensures
        final(out)@ == old(out)@ + decimal(n as nat),
    decreases n,
{
    if n >= 10 {
        push_decimal(out, n / 10);
    }
    let c = digit_char(n % 10);
    out.push(c);
    assert(old(out)@ + decimal(n as nat) == (old(out)@ + decimal(n as nat)).drop_last().push(c));
}

fn push_text_line(out: &mut Vec<char>, p: Point)
    requires
        p.x < usize::MAX,
        p.y < usize::MAX,
    ensures
        final(out)@ == old(out)@ + text_line(p),
{
    push_chars(out, &['x', ':']);
    push_decimal(out, p.x + 1);
    push_chars(out, &[',', ' ', 'y', ':']);
    push_decimal(out, p.y + 1);
    out.push('\n');
    assert(final(out)@ =~= old(out)@ + text_line(p));
}

/// The path as lines `x:X, y:Y`, one per point, with 1-based coordinates.
pub fn format_text(path: &Vec<Point>) -> (r: String)
    requires
        coordinates_fit(path@),
    ensures
        r@ == text_lines(path@),
{
    let mut out: Vec<char> = Vec::new();
    let mut i: usize = 0;
    while i < path.len()
        invariant
            i <= path@.len(),
            coordinates_fit(path@),
            out@ == text_lines(path@.subrange(0, i as int)),
        decreases path@.len() - i,
    {
        let p = path[i];
        push_text_line(&mut out, p);
        proof {
            let s = path@.subrange(0, i + 1);
            assert(s.drop_last() =~= path@.subrange(0, i as int));
            assert(s.last() == p);
        }
        i = i + 1;
    }
    assert(path@.subrange(0, path@.len() as int) =~= path@);
    string_from_chars(&out)
}

fn push_json_point(out: &mut Vec<char>, p: Point)
    requires
        p.x < usize::MAX,
        p.y < usize::MAX,
    ensures
        final(out)@ == old(out)@ + json_point(p),
{
    push_chars(out, &['{', '"', 'x', '"', ':']);
    push_decimal(out, p.x + 1);
    push_chars(out, &[',', '"', 'y', '"', ':']);
    push_decimal(out, p.y + 1);
    out.push('}');
    assert(final(out)@ =~= old(out)@ + json_point(p));
}

/// The path as `{"path":[{"x":X,"y":Y},...]}` with 1-based coordinates.
pub fn format_json(path: &Vec<Point>) -> (r: String)
    requires
        coordinates_fit(path@),
    ensures
        r@ == json_path(path@),
{
    let ghost head = seq!['{', '"', 'p', 'a', 't', 'h', '"', ':', '['];
    let mut out: Vec<char> = Vec::new();
    push_chars(&mut out, &['{', '"', 'p', 'a', 't', 'h', '"', ':', '[']);
    assert(out@ =~= head);
    let mut i: usize = 0;
    while i < path.len()
        invariant
            i <= path@.len(),
            coordinates_fit(path@),
            out@ == head + json_points(path@.subrange(0, i as int)),
        decreases path@.len() - i,
    {
        let p = path[i];
        if i > 0 {
            out.push(',');
        }
        push_json_point(&mut out, p);
        proof {
            let s = path@.subrange(0, i + 1);
            assert(s.drop_last() =~= path@.subrange(0, i as int));
            assert(s.last() == p);
            if i == 0 {
                assert(json_points(s) == json_point(p));
                assert(json_points(path@.subrange(0, 0)) == Seq::<char>::empty());
            }
            assert(out@ =~= head + json_points(s));
        }
        i = i + 1;
    }
    push_chars(&mut out, &[']', '}']);
    assert(path@.subrange(0, path@.len() as int) =~= path@);
    assert(out@ =~= json_path(path@));
    string_from_chars(&out)
}

/// Some interior point of the path (neither its first nor its last) among
/// the first `n` points is `p`.
pub open spec fn on_interior(path: Seq<Point>, n: int, p: Point) -> bool {
    exists|i: int| 1 <= i < n && i < path.len() - 1 && path[i] == p
}

/// Each point of the path lies in the maze.
pub open spec fn path_in_maze(maze: Seq<Vec<char>>, path: Seq<Point>) -> bool {
    forall|i: int| 0 <= i < path.len()
        ==> (#[trigger] path[i]).y < maze.len() && path[i].x < maze[path[i].y as int]@.len()
}

/// The maze with the interior cells of the path drawn as `*`; the start and
/// goal cells keep their symbols.
pub fn overlay_path(maze: &Vec<Vec<char>>, path: &Vec<Point>) -> (r: Vec<Vec<char>>)
    requires
        path_in_maze(maze@, path@),
    ensures
        r@.len() == maze@.len(),
        forall|y: int| 0 <= y < maze@.len() ==> (#[trigger] r@[y])@.len() == maze@[y]@.len(),
        forall|p: Point| p.y < maze@.len() && p.x < maze@[p.y as int]@.len()
            ==> #[trigger] cell(r@, p) == if on_interior(path@, path@.len() as int, p) {
                PATH_MARK
            } else {
                cell(maze@, p)
            },
{
    let mut r: Vec<Vec<char>> = Vec::new();
    let mut y: usize = 0;
    while y < maze.len()
        invariant
            y <= maze@.len(),
            r@.len() == y,
            forall|j: int| 0 <= j < y ==> (#[trigger] r@[j])@ == maze@[j]@,
        decreases maze@.len() - y,
    {
        let row = copy_row(&maze[y]);
        r.push(row);
        y = y + 1;
    }
    let n = path.len();
    let mut i: usize = 1;
    while n >= 2 && i < n - 1
        invariant
            1 <= i,
            n < 2 || i <= n - 1,
            n == path@.len(),
            path_in_maze(maze@, path@),
            r@.len() == maze@.len(),
            forall|y: int| 0 <= y < maze@.len() ==> (#[trigger] r@[y])@.len() == maze@[y]@.len(),
            forall|p: Point| p.y < maze@.len() && p.x < maze@[p.y as int]@.len()
                ==> #[trigger] cell(r@, p) == if on_interior(path@, i as int, p) {
                    PATH_MARK
                } else {
                    cell(maze@, p)
                },
        decreases n - i,
    {
        let p = path[i];
        assert(p.y < maze@.len() && p.x < maze@[p.y as int]@.len());
        let ghost r0 = r@;
        r[p.y][p.x] = PATH_MARK;
        proof {
            assert forall|q: Point| q.y < maze@.len() && q.x < maze@[q.y as int]@.len()
                implies #[trigger] cell(r@, q) == if on_interior(path@, i + 1, q) {
                    PATH_MARK
                } else {
                    cell(maze@, q)
                } by {
                if q == p {
                    assert(on_interior(path@, i + 1, q));
                } else {
                    assert(cell(r@, q) == cell(r0, q));
                    if on_interior(path@, i + 1, q) {
                        let j = choose|j: int| 1 <= j < i + 1 && j < path@.len() - 1 && path@[j] == q;
                        assert(on_interior(path@, i as int, q));
                    }
                }
            }
        }
        i = i + 1;
    }
    proof {
        assert forall|q: Point| q.y < maze@.len() && q.x < maze@[q.y as int]@.len() implies
            #[trigger] cell(r@, q) == if on_interior(path@, path@.len() as int, q) {
                PATH_MARK
            } else {
                cell(maze@, q)
            } by {
            assert(cell(r@, q) == if on_interior(path@, i as int, q) { PATH_MARK } else { cell(maze@, q) });
            if on_interior(path@, path@.len() as int, q) {
                let j = choose|j: int| 1 <= j < path@.len() && j < path@.len() - 1 && path@[j] == q;
                assert(j < i);
            }
        }
    }
    r
}

/// The lines of a grid, each ended by a newline.
pub open spec fn rows_text(rows: Seq<Vec<char>>) -> Seq<char>
    decreases rows.len(),
{
    if rows.len() == 0 {
        seq![]
    } else {
        rows_text(rows.drop_last()) + rows.last()@ + seq!['\n']
    }
}

/// The maze file: its width, its height, then its rows, one per line.
pub open spec fn maze_file(maze: Seq<Vec<char>>, width: nat, height: nat) -> Seq<char> {
    decimal(width) + seq!['\n'] + decimal(height) + seq!['\n'] + rows_text(maze)
}

/// The maze in the file format that the loader reads.
pub fn render_maze(maze: &Vec<Vec<char>>, width: usize, height: usize) -> (r: String)
    requires
        width >= 1,
        height >= 1,
        rectangular(maze@, width as int, height as int),
    ensures
        r@ == maze_file(maze@, width as nat, height as nat),
{
    let mut out: Vec<char> = Vec::new();
    push_decimal(&mut out, width);
    out.push('\n');
    push_decimal(&mut out, height);
    out.push('\n');
    let ghost top = out@;
    assert(top =~= decimal(width as nat) + seq!['\n'] + decimal(height as nat) + seq!['\n']);
    let mut y: usize = 0;
    while y < height
        invariant
            rectangular(maze@, width as int, height as int),
            y <= height,
            out@ == top + rows_text(maze@.subrange(0, y as int)),
        decreases height - y,
    {
        let row = &maze[y];
        let mut x: usize = 0;
        let ghost before = out@;
        while x < width
            invariant
                rectangular(maze@, width as int, height as int),
                y < height,
                x <= width,
                row@ == maze@[y as int]@,
                out@ == before + row@.subrange(0, x as int),
            decreases width - x,
        {
            out.push(row[x]);
            x = x + 1;
            assert(out@ =~= before + row@.subrange(0, x as int));
        }
        out.push('\n');
        proof {
            let s = maze@.subrange(0, y + 1);
            assert(s.drop_last() =~= maze@.subrange(0, y as int));
            assert(row@.subrange(0, width as int) =~= row@);
            assert(out@ =~= top + rows_text(s));
        }
        y = y + 1;
    }
    assert(maze@.subrange(0, height as int) =~= maze@);
    string_from_chars(&out)
}

} // verus!
