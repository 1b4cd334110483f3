//! Reading a maze from its text form: a width line, a height line, then the rows.
use vstd::prelude::*;
use crate::grid::{is_symbol, rectangular, GOAL, OPEN, START, WALL};
use crate::render::copy_row;

verus! {

/// Why a text is not a maze.
#[derive(Clone, Copy, Debug, PartialEq, Eq, Structural)]
pub enum MazeError {
    /// The text has no first line.
    MissingWidth,
    /// The first line is not a decimal number that fits a `usize`.
    InvalidWidth,
    /// The text has no second line.
    MissingHeight,
    /// The second line is not a decimal number that fits a `usize`.
    InvalidHeight,
    /// The width or the height is zero.
    ZeroSize,
    /// The rows do not number `height`, or one of them is not `width` long.
    SizeMismatch,
    /// A cell holds a symbol other than wall, open, start or goal.
    InvalidSymbol,
}

/// Splitting at newlines: the finished lines, and the line still open.
pub open spec fn split(t: Seq<char>) -> (Seq<Seq<char>>, Seq<char>)
    decreases t.len(),
{
    if t.len() == 0 {
        (seq![], seq![])
    } else {
        let (done, open) = split(t.drop_last());
        if t.last() == '\n' {
            (done.push(open), seq![])
        } else {
            (done, open.push(t.last()))
        }
    }
}

/// A line without its one trailing carriage return, if it has one.
pub open spec fn strip_cr(l: Seq<char>) -> Seq<char> {
    if l.len() > 0 && l.last() == '\r' { l.drop_last() } else { l }
}

/// The lines of a text: split at newlines, a last line without a newline kept
/// only when it is not empty, and one trailing carriage return dropped from each.
pub open spec fn lines(t: Seq<char>) -> Seq<Seq<char>> {
    let (done, open) = split(t);
    let all = if open.len() > 0 { done.push(open) } else { done };
    all.map_values(|l: Seq<char>| strip_cr(l))
}

pub open spec fn is_digit(c: char) -> bool {
    '0' <= c <= '9'
}

/// The value of a string of decimal digits.
pub open spec fn digits_value(s: Seq<char>) -> nat
    decreases s.len(),
{
    if s.len() == 0 {
        0
    } else {
        digits_value(s.drop_last()) * 10 + ((s.last() as nat) - ('0' as nat)) as nat
    }
}

/// The number a line holds: one or more decimal digits whose value fits a `usize`.
pub open spec fn number(s: Seq<char>) -> Option<usize> {
    if s.len() > 0 && (forall|i: int| 0 <= i < s.len() ==> is_digit(#[trigger] s[i]))
        && digits_value(s) <= usize::MAX {
        Some(digits_value(s) as usize)
    } else {
        None
    }
}

/// The rows after the two header lines are `height` lines of `width` cells.
pub open spec fn rows_fit(rows: Seq<Seq<char>>, width: usize, height: usize) -> bool {
    rows.len() == height && forall|i: int| 0 <= i < rows.len() ==> (#[trigger] rows[i]).len() == width
}

/// Every cell of every row is one of the four maze symbols.
pub open spec fn all_symbols(rows: Seq<Seq<char>>) -> bool {
    forall|i: int, j: int| 0 <= i < rows.len() && 0 <= j < rows[i].len() ==> is_symbol(#[trigger] rows[i][j])
}

/// The error that the lines of a text give, or `None` where they form a maze.
pub open spec fn load_error(ls: Seq<Seq<char>>) -> Option<MazeError> {
    if ls.len() == 0 {
        Some(MazeError::MissingWidth)
    } else if number(ls[0]) is None {
        Some(MazeError::InvalidWidth)
    } else if ls.len() == 1 {
        Some(MazeError::MissingHeight)
    } else if number(ls[1]) is None {
        Some(MazeError::InvalidHeight)
    } else if number(ls[0]).unwrap() == 0 || number(ls[1]).unwrap() == 0 {
        Some(MazeError::ZeroSize)
    } else if !rows_fit(ls.subrange(2, ls.len() as int), number(ls[0]).unwrap(), number(ls[1]).unwrap()) {
        Some(MazeError::SizeMismatch)
    } else if !all_symbols(ls.subrange(2, ls.len() as int)) {
        Some(MazeError::InvalidSymbol)
    } else {
        None
    }
}

/// The characters of a list of lines.
pub open spec fn views(v: Seq<Vec<char>>) -> Seq<Seq<char>> {
    v.map_values(|l: Vec<char>| l@)
}

/// Relies on `str::chars` collected into a `Vec`: the characters of the string in order.
#[verifier::external_body]
fn chars_of(s: &str) -> (r: Vec<char>)
    ensures
        r@ == s@,
{
    s.chars().collect()
}

fn stripped(l: Vec<char>) -> (r: Vec<char>)
    ensures
        r@ == strip_cr(l@),
{
    let mut l = l;
    if l.len() > 0 && l[l.len() - 1] == '\r' {
        l.pop();
    }
    l
}

/// The lines of `t`.
pub fn split_lines(t: &Vec<char>) -> (r: Vec<Vec<char>>)
    ensures
        views(r@) == lines(t@),
{
    let mut done: Vec<Vec<char>> = Vec::new();
    let mut open: Vec<char> = Vec::new();
    let mut i: usize = 0;
    while i < t.len()
        invariant
            i <= t@.len(),
            views(done@) == split(t@.subrange(0, i as int)).0.map_values(|l: Seq<char>| strip_cr(l)),
            open@ == split(t@.subrange(0, i as int)).1,
        decreases t@.len() - i,
    {
        let c = t[i];
        let ghost pre = t@.subrange(0, i as int);
        let ghost d0 = done@;
        proof {
            assert(t@.subrange(0, i + 1).drop_last() =~= pre);
        }
        if c == '\n' {
            let mut line: Vec<char> = Vec::new();
            std::mem::swap(&mut line, &mut open);
            let s = stripped(line);
            done.push(s);
            proof {
                assert(views(done@) =~= views(d0).push(s@));
                assert(views(done@) =~= split(t@.subrange(0, i + 1)).0.map_values(|l: Seq<char>| strip_cr(l)));
            }
        } else {
            open.push(c);
        }
        i = i + 1;
    }
    assert(t@.subrange(0, t@.len() as int) =~= t@);
    if open.len() > 0 {
        let ghost d0 = done@;
        let s = stripped(open);
        done.push(s);
        assert(views(done@) =~= views(d0).push(s@));
        assert(views(done@) =~= lines(t@));
    } else {
        assert(views(done@) =~= lines(t@));
    }
    done
}

proof fn lemma_value_grows(s: Seq<char>, j: int)
    requires
        0 <= j <= s.len(),
        forall|i: int| 0 <= i < s.len() ==> is_digit(#[trigger] s[i]),
    ensures
        digits_value(s.subrange(0, j)) <= digits_value(s),
    decreases s.len() - j,
{
    if j < s.len() {
        let t = s.subrange(0, j + 1);
        assert(t.drop_last() =~= s.subrange(0, j));
        assert(forall|i: int| 0 <= i < t.len() ==> is_digit(#[trigger] t[i]));
        lemma_value_grows(s, j + 1);
    } else {
        assert(s.subrange(0, j) =~= s);
    }
}

/// The number that the line holds, if it holds one.
pub fn parse_number(s: &Vec<char>) -> (r: Option<usize>)
    ensures
        r == number(s@),
{
    if s.len() == 0 {
        return None;
    }
    let mut v: usize = 0;
    let mut i: usize = 0;
    while i < s.len()
        invariant
            i <= s@.len(),
            s@.len() > 0,
            forall|k: int| 0 <= k < i ==> is_digit(#[trigger] s@[k]),
            v == digits_value(s@.subrange(0, i as int)),
        decreases s@.len() - i,
    {
        let c = s[i];
        if !('0' <= c && c <= '9') {
            return None;
        }
        let d = (c as u32 - '0' as u32) as usize;
        proof {
            assert(s@.subrange(0, i + 1).drop_last() =~= s@.subrange(0, i as int));
        }
        if v > (usize::MAX - d) / 10 {
            proof {
                assert(v * 10 + d > usize::MAX) by (nonlinear_arith)
                    requires v > (usize::MAX - d) / 10, d <= 9;
                if forall|k: int| 0 <= k < s@.len() ==> is_digit(#[trigger] s@[k]) {
                    lemma_value_grows(s@, i + 1);
                }
            }
            return None;
        }
        assert(v * 10 + d <= usize::MAX) by (nonlinear_arith)
            requires v <= (usize::MAX - d) / 10, d <= 9;
        v = v * 10 + d;
        i = i + 1;
    }
    assert(s@.subrange(0, s@.len() as int) =~= s@);
    Some(v)
}

/// Every cell of the row is one of the four maze symbols.
fn symbols_only(row: &Vec<char>) -> (r: bool)
    ensures
        r == forall|j: int| 0 <= j < row@.len() ==> is_symbol(#[trigger] row@[j]),
{
    let mut x: usize = 0;
    while x < row.len()
        invariant
            x <= row@.len(),
            forall|j: int| 0 <= j < x ==> is_symbol(#[trigger] row@[j]),
        decreases row@.len() - x,
    {
        let c = row[x];
        if !(c == WALL || c == OPEN || c == START || c == GOAL) {
            assert(!is_symbol(row@[x as int]));
            return false;
        }
        x = x + 1;
    }
    true
}

/// The maze that a text describes, with its width and height; the error of
/// the first check that fails otherwise.
pub fn parse_maze(text: &str) -> (r: Result<(Vec<Vec<char>>, usize, usize), MazeError>)
    ensures
        match r {
            Ok((maze, width, height)) => {
                &&& load_error(lines(text@)) is None
                &&& number(lines(text@)[0]) == Some(width)
                &&& number(lines(text@)[1]) == Some(height)
                &&& views(maze@) == lines(text@).subrange(2, lines(text@).len() as int)
                &&& rectangular(maze@, width as int, height as int)
            },
            Err(e) => load_error(lines(text@)) == Some(e),
        },
{
    let t = chars_of(text);
    let ls = split_lines(&t);
    let ghost lv = lines(text@);
    assert(views(ls@) == lv);
    assert(ls@.len() == lv.len());
    assert(forall|i: int| 0 <= i < ls@.len() ==> #[trigger] ls@[i]@ == lv[i]);
    if ls.len() == 0 {
        return Err(MazeError::MissingWidth);
    }
    let width = match parse_number(&ls[0]) {
        Some(w) => w,
        None => return Err(MazeError::InvalidWidth),
    };
    if ls.len() == 1 {
        return Err(MazeError::MissingHeight);
    }
    let height = match parse_number(&ls[1]) {
        Some(h) => h,
        None => return Err(MazeError::InvalidHeight),
    };
    let ghost rows = lv.subrange(2, lv.len() as int);
    assert(ls@[0]@ == lv[0] && ls@[1]@ == lv[1]);
    if width == 0 || height == 0 {
        return Err(MazeError::ZeroSize);
    }
    if ls.len() - 2 != height {
        return Err(MazeError::SizeMismatch);
    }
    let mut maze: Vec<Vec<char>> = Vec::new();
    let mut i: usize = 2;
    while i < ls.len()
        invariant
            2 <= i <= ls@.len(),
            ls@.len() == lv.len(),
            forall|k: int| 0 <= k < ls@.len() ==> #[trigger] ls@[k]@ == lv[k],
            rows == lv.subrange(2, lv.len() as int),
            lv == lines(text@),
            lv.len() == height + 2,
            number(lv[0]) == Some(width),
            number(lv[1]) == Some(height),
            width != 0,
            height != 0,
            maze@.len() == i - 2,
            forall|k: int| 0 <= k < i - 2 ==> (#[trigger] maze@[k])@ == rows[k] && rows[k].len() == width,
        decreases ls@.len() - i,
    {
        assert(ls@[i as int]@ == lv[i as int]);
        assert(rows[i - 2] == lv[i as int]);
        if ls[i].len() != width {
            assert(!rows_fit(rows, width, height)) by {
                assert(rows[i - 2].len() != width);
            }
            return Err(MazeError::SizeMismatch);
        }
        let row = copy_row(&ls[i]);
        let ghost m0 = maze@;
        maze.push(row);
        assert(maze@[i - 2]@ == rows[i - 2]);
        assert(forall|k: int| 0 <= k < i - 2 ==> maze@[k] == m0[k]);
        i = i + 1;
    }
    assert(views(maze@) =~= rows);
    assert(rows_fit(rows, width, height));
    let mut y: usize = 0;
    while y < maze.len()
        invariant
            y <= maze@.len(),
            views(maze@) == rows,
            lv.len() == height + 2,
            rows == lv.subrange(2, lv.len() as int),
            lv == lines(text@),
            number(lv[0]) == Some(width),
            number(lv[1]) == Some(height),
            width != 0,
            height != 0,
            rows_fit(rows, width, height),
            rectangular(maze@, width as int, height as int),
            forall|i: int, j: int| 0 <= i < y && 0 <= j < rows[i].len() ==> is_symbol(#[trigger] rows[i][j]),
        decreases maze@.len() - y,
    {
        assert(maze@[y as int]@ == rows[y as int]);
        if !symbols_only(&maze[y]) {
            let ghost j = choose|j: int| 0 <= j < rows[y as int].len() && !is_symbol(rows[y as int][j]);
            assert(!all_symbols(rows)) by {
                assert(!is_symbol(rows[y as int][j]));
            }
            return Err(MazeError::InvalidSymbol);
        }
        y = y + 1;
    }
    assert(all_symbols(rows));
    Ok((maze, width, height))
}

} // verus!
