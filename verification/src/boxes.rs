//! The grid pipeline: validation, connected-component discovery by flood
//! fill, bounding-box construction, the interval-sweep overlap classifier,
//! and selection of the largest overlap-free boxes.

use vstd::prelude::*;
use crate::render::point_render;
use crate::render::push_point;

verus! {

/// One grid cell, identified by its 0-based row and column.
#[derive(Debug, Clone, Copy, PartialEq, Eq, Structural)]
pub struct Point {
    pub row: usize,
    pub col: usize,
}

impl Point {
    pub fn new(row: usize, col: usize) -> (p: Self)
        ensures
            p.row == row,
            p.col == col,
    {
        Self { row, col }
    }
}

/// Why an input was rejected before any geometry was computed.
#[derive(Debug, Clone, Copy, PartialEq, Eq, Structural)]
pub enum InputError {
    /// The sequence of input lines was empty.
    Empty,
    /// Some line's length differs from the first line's length.
    Ragged,
    /// Some character is neither `-` nor `*`.
    BadSymbol,
}

impl InputError {
    /// A human-readable description of the error.
    pub fn message(&self) -> (m: &'static str)
        ensures
            *self == InputError::Empty ==> m@ == "Input cannot be empty"@,
            *self == InputError::Ragged ==> m@ == "Lines must be the same length"@,
            *self == InputError::BadSymbol ==> m@ == "Characters must be either '-' or '*'"@,
    {
        match self {
            InputError::Empty => "Input cannot be empty",
            InputError::Ragged => "Lines must be the same length",
            InputError::BadSymbol => "Characters must be either '-' or '*'",
        }
    }
}

/// A character the grid alphabet allows in input: filled or empty.
pub open spec fn cell_ok(c: char) -> bool {
    c == '-' || c == '*'
}

/// Every row has the same length as the first row.
pub open spec fn grid_dims_ok(g: Seq<Seq<char>>) -> bool {
    forall|i: int| 0 <= i < g.len() ==> (#[trigger] g[i]).len() == g[0].len()
}

/// Every cell is one of the two input symbols.
pub open spec fn grid_cells_ok(g: Seq<Seq<char>>) -> bool {
    forall|i: int, j: int|
        0 <= i < g.len() && 0 <= j < g[i].len() ==> cell_ok(#[trigger] g[i][j])
}

/// All characters of one line belong to the alphabet.
pub open spec fn line_ok(l: Seq<char>) -> bool {
    forall|j: int| 0 <= j < l.len() ==> cell_ok(#[trigger] l[j])
}

/// The character sequences of a slice of input lines.
pub open spec fn lines_view(lines: Seq<String>) -> Seq<Seq<char>> {
    lines.map(|i: int, s: String| s@)
}

/// A rectangular, non-empty grid over the two-symbol alphabet.
pub open spec fn lines_valid(ls: Seq<Seq<char>>) -> bool {
    &&& ls.len() > 0
    &&& (forall|i: int| 0 <= i < ls.len() ==> (#[trigger] ls[i]).len() == ls[0].len())
    &&& (forall|i: int| 0 <= i < ls.len() ==> line_ok(#[trigger] ls[i]))
}

/// The verdict of scanning lines from index `i` on, reporting the first
/// violation encountered: a length mismatch is reported before a bad
/// symbol on the same line.
pub open spec fn validate_from(ls: Seq<Seq<char>>, i: int) -> Result<(), InputError>
    decreases ls.len() - i,
{
    if i >= ls.len() {
        Ok(())
    } else if ls[i].len() != ls[0].len() {
        Err(InputError::Ragged)
    } else if !line_ok(ls[i]) {
        Err(InputError::BadSymbol)
    } else {
        validate_from(ls, i + 1)
    }
}

/// The validation verdict for a whole input: empty input is rejected first,
/// then lines are scanned in order for the first violation.
pub open spec fn validate_spec(ls: Seq<Seq<char>>) -> Result<(), InputError> {
    if ls.len() == 0 {
        Err(InputError::Empty)
    } else {
        validate_from(ls, 0)
    }
}

proof fn lemma_validate_from_ok(ls: Seq<Seq<char>>, i: int)
    requires
        0 <= i <= ls.len(),
    ensures
        validate_from(ls, i) is Ok <==> (forall|k: int|
            i <= k < ls.len() ==> (#[trigger] ls[k]).len() == ls[0].len() && line_ok(ls[k])),
    decreases ls.len() - i,
{
    if i < ls.len() {
        lemma_validate_from_ok(ls, i + 1);
    }
}

/// Validation accepts exactly the rectangular, non-empty grids over the
/// two-symbol alphabet.
pub proof fn lemma_validate_ok(ls: Seq<Seq<char>>)
    ensures
        validate_spec(ls) is Ok <==> lines_valid(ls),
{
    if ls.len() > 0 {
        lemma_validate_from_ok(ls, 0);
    }
}

/// Validating the same input twice yields the same accept/reject verdict
/// and the same error kind on rejection: the verdict is a pure function of
/// the input.
pub proof fn lemma_validation_idempotent(ls: Seq<Seq<char>>, first: Result<(), InputError>, second: Result<(), InputError>)
    requires
        first == validate_spec(ls),
        second == validate_spec(ls),
    ensures
        first == second,
{
}

/// The characters of one line, in order.
fn line_chars(s: &String) -> (v: Vec<char>)
    ensures
        v@ == s@,
{
    let n: usize = s.as_str().unicode_len();
    let mut v: Vec<char> = Vec::new();
    let mut j: usize = 0;
    while j < n
        invariant
            n == s@.len(),
            j <= n,
            v@ == s@.take(j as int),
        decreases n - j,
    {
        let c = s.as_str().get_char(j);
        v.push(c);
        j += 1;
        proof {
            assert(v@ =~= s@.take(j as int));
        }
    }
    proof {
        assert(v@ =~= s@);
    }
    v
}

/// Checks grid rectangularity and the two-symbol alphabet, reporting the
/// first violation encountered.
pub fn validate_input(lines: &[String]) -> (r: Result<(), InputError>)
    ensures
        r == validate_spec(lines_view(lines@)),
        r is Ok <==> lines_valid(lines_view(lines@)),
{
    proof {
        lemma_validate_ok(lines_view(lines@));
    }
    let ghost ls = lines_view(lines@);
    if lines.len() == 0 {
        return Err(InputError::Empty);
    }
    let len0: usize = lines[0].as_str().unicode_len();
    let n: usize = lines.len();
    let mut i: usize = 0;
    while i < n
        invariant
            n == ls.len(),
            len0 == ls[0].len(),
            ls == lines_view(lines@),
            i <= n,
            forall|k: int| 0 <= k < i ==> (#[trigger] ls[k]).len() == ls[0].len() && line_ok(ls[k]),
            validate_from(ls, 0) == validate_from(ls, i as int),
        decreases n - i,
    {
        let line = &lines[i];
        let li: usize = line.as_str().unicode_len();
        if li != len0 {
            return Err(InputError::Ragged);
        }
        let mut j: usize = 0;
        while j < li
            invariant
                li == line@.len(),
                li == len0,
                len0 == ls[0].len(),
                ls == lines_view(lines@),
                n == ls.len(),
                i < n,
                line@ == ls[i as int],
                validate_from(ls, 0) == validate_from(ls, i as int),
                j <= li,
                forall|k: int| 0 <= k < j ==> cell_ok(#[trigger] line@[k]),
            decreases li - j,
        {
            let c = line.as_str().get_char(j);
            if !(c == '-' || c == '*') {
                proof {
                    assert(!cell_ok(line@[j as int]));
                    assert(!line_ok(ls[i as int]));
                }
                return Err(InputError::BadSymbol);
            }
            j += 1;
        }
        i += 1;
    }
    Ok(())
}

/// The grid a vector of character rows denotes.
pub open spec fn view2(m: Vec<Vec<char>>) -> Seq<Seq<char>> {
    m@.map(|i: int, r: Vec<char>| r@)
}

/// Turns input lines into a two-dimensional character grid with no further
/// transformation.
pub fn convert_lines_to_matrix(lines: &[String]) -> (m: Vec<Vec<char>>)
    ensures
        view2(m) == lines_view(lines@),
        m@.len() == lines@.len(),
        forall|i: int| 0 <= i < m@.len() ==> (#[trigger] m@[i])@ == lines@[i]@,
{
    let n: usize = lines.len();
    let mut m: Vec<Vec<char>> = Vec::new();
    let mut i: usize = 0;
    while i < n
        invariant
            n == lines@.len(),
            i <= n,
            m@.len() == i,
            forall|k: int| 0 <= k < i ==> (#[trigger] m@[k])@ == lines@[k]@,
        decreases n - i,
    {
        let row = line_chars(&lines[i]);
        m.push(row);
        i += 1;
    }
    proof {
        assert(view2(m) =~= lines_view(lines@));
    }
    m
}

} // verus!

verus! {

/// A point denotes a cell inside the grid.
pub open spec fn in_bounds(g: Seq<Seq<char>>, p: Point) -> bool {
    (p.row as int) < g.len() && (p.col as int) < g[p.row as int].len()
}

/// The character at a cell.
pub open spec fn cell_at(g: Seq<Seq<char>>, p: Point) -> char {
    g[p.row as int][p.col as int]
}

/// The two cells are 4-adjacent: they share a row or column and differ by
/// one in the other coordinate.
pub open spec fn adjacent(p: Point, q: Point) -> bool {
    ||| (p.row == q.row && (p.col + 1 == q.col || q.col + 1 == p.col))
    ||| (p.col == q.col && (p.row + 1 == q.row || q.row + 1 == p.row))
}

/// `p` reaches `q` by a chain of 4-adjacent steps whose every point the
/// collection holds.
pub open spec fn connected_in(s: Seq<Point>, p: Point, q: Point) -> bool {
    exists|path: Seq<Point>|
        #![trigger path.len()]
        path.len() > 0 && path[0] == p && path.last() == q && (forall|i: int|
            0 <= i < path.len() ==> s.contains(#[trigger] path[i])) && (forall|i: int|
            0 <= i < path.len() - 1 ==> adjacent(#[trigger] path[i], path[i + 1]))
}

proof fn lemma_connected_refl(s: Seq<Point>, p: Point)
    requires
        s.contains(p),
    ensures
        connected_in(s, p, p),
{
    let path = seq![p];
    assert(path.len() > 0 && path[0] == p && path.last() == p);
    assert(forall|i: int| 0 <= i < path.len() ==> s.contains(#[trigger] path[i]));
}

proof fn lemma_connected_mono(s1: Seq<Point>, s2: Seq<Point>, p: Point, q: Point)
    requires
        connected_in(s1, p, q),
        forall|x: Point| s1.contains(x) ==> s2.contains(x),
    ensures
        connected_in(s2, p, q),
{
    let path = choose|path: Seq<Point>|
        #![trigger path.len()]
        path.len() > 0 && path[0] == p && path.last() == q && (forall|i: int|
            0 <= i < path.len() ==> s1.contains(#[trigger] path[i])) && (forall|i: int|
            0 <= i < path.len() - 1 ==> adjacent(#[trigger] path[i], path[i + 1]));
    assert(forall|i: int| 0 <= i < path.len() ==> s2.contains(#[trigger] path[i]));
}

proof fn lemma_connected_step(s: Seq<Point>, p: Point, q: Point, r: Point)
    requires
        connected_in(s, p, q),
        adjacent(q, r),
        s.contains(r),
    ensures
        connected_in(s, p, r),
{
    let path = choose|path: Seq<Point>|
        #![trigger path.len()]
        path.len() > 0 && path[0] == p && path.last() == q && (forall|i: int|
            0 <= i < path.len() ==> s.contains(#[trigger] path[i])) && (forall|i: int|
            0 <= i < path.len() - 1 ==> adjacent(#[trigger] path[i], path[i + 1]));
    let path2 = path.push(r);
    assert(path2.len() > 0 && path2[0] == p && path2.last() == r);
    assert forall|i: int| 0 <= i < path2.len() implies s.contains(#[trigger] path2[i]) by {
        if i < path.len() {
            assert(path2[i] == path[i]);
        }
    }
    assert forall|i: int|
        0 <= i < path2.len() - 1 implies adjacent(#[trigger] path2[i], path2[i + 1]) by {
        if i < path.len() - 1 {
            assert(path2[i] == path[i] && path2[i + 1] == path[i + 1]);
        } else {
            assert(path2[i] == q && path2[i + 1] == r);
        }
    }
}

/// A character a grid may hold during scanning: the two input symbols or
/// the visited marker.
pub open spec fn cell_scan_ok(c: char) -> bool {
    c == '-' || c == '*' || c == 'x'
}

/// Every cell is an input symbol or the visited marker.
pub open spec fn grid_scan_ok(g: Seq<Seq<char>>) -> bool {
    forall|i: int, j: int|
        0 <= i < g.len() && 0 <= j < g[i].len() ==> cell_scan_ok(#[trigger] g[i][j])
}

/// The later grid `g2` differs from the earlier grid `g1` only by marking
/// filled cells as visited.
pub open spec fn marks_only(g2: Seq<Seq<char>>, g1: Seq<Seq<char>>) -> bool {
    &&& g2.len() == g1.len()
    &&& (forall|i: int| 0 <= i < g1.len() ==> (#[trigger] g2[i]).len() == g1[i].len())
    &&& (forall|i: int, j: int|
        0 <= i < g1.len() && 0 <= j < g1[i].len() ==> ((#[trigger] g2[i][j]) == g1[i][j] || (
        g1[i][j] == '*' && g2[i][j] == 'x')))
}

/// How many filled cells one row holds.
pub open spec fn row_stars(r: Seq<char>) -> nat
    decreases r.len(),
{
    if r.len() == 0 {
        0
    } else {
        row_stars(r.drop_last()) + (if r.last() == '*' {
            1nat
        } else {
            0nat
        })
    }
}

/// How many filled cells the grid holds.
pub open spec fn star_count(g: Seq<Seq<char>>) -> nat
    decreases g.len(),
{
    if g.len() == 0 {
        0
    } else {
        star_count(g.drop_last()) + row_stars(g.last())
    }
}

proof fn lemma_row_stars_le(r2: Seq<char>, r1: Seq<char>)
    requires
        r2.len() == r1.len(),
        forall|j: int| 0 <= j < r1.len() ==> ((#[trigger] r2[j]) == r1[j] || r2[j] == 'x'),
    ensures
        row_stars(r2) <= row_stars(r1),
    decreases r1.len(),
{
    if r1.len() > 0 {
        lemma_row_stars_le(r2.drop_last(), r1.drop_last());
    }
}

proof fn lemma_row_stars_lt(r2: Seq<char>, r1: Seq<char>, j: int)
    requires
        r2.len() == r1.len(),
        forall|k: int| 0 <= k < r1.len() ==> ((#[trigger] r2[k]) == r1[k] || r2[k] == 'x'),
        0 <= j < r1.len(),
        r1[j] == '*',
        r2[j] == 'x',
    ensures
        row_stars(r2) < row_stars(r1),
    decreases r1.len(),
{
    if j == r1.len() - 1 {
        lemma_row_stars_le(r2.drop_last(), r1.drop_last());
    } else {
        lemma_row_stars_lt(r2.drop_last(), r1.drop_last(), j);
    }
}

proof fn lemma_stars_le(g2: Seq<Seq<char>>, g1: Seq<Seq<char>>)
    requires
        marks_only(g2, g1),
    ensures
        star_count(g2) <= star_count(g1),
    decreases g1.len(),
{
    if g1.len() > 0 {
        assert(marks_only(g2.drop_last(), g1.drop_last()));
        lemma_stars_le(g2.drop_last(), g1.drop_last());
        lemma_row_stars_le(g2.last(), g1.last());
    }
}

proof fn lemma_stars_lt(g2: Seq<Seq<char>>, g1: Seq<Seq<char>>, i: int, j: int)
    requires
        marks_only(g2, g1),
        0 <= i < g1.len(),
        0 <= j < g1[i].len(),
        g1[i][j] == '*',
        g2[i][j] == 'x',
    ensures
        star_count(g2) < star_count(g1),
    decreases g1.len(),
{
    assert(marks_only(g2.drop_last(), g1.drop_last()));
    if i == g1.len() - 1 {
        lemma_stars_le(g2.drop_last(), g1.drop_last());
        lemma_row_stars_lt(g2.last(), g1.last(), j);
    } else {
        lemma_stars_lt(g2.drop_last(), g1.drop_last(), i, j);
        lemma_row_stars_le(g2.last(), g1.last());
    }
}

} // verus!

verus! {

proof fn lemma_marks_only_trans(g3: Seq<Seq<char>>, g2: Seq<Seq<char>>, g1: Seq<Seq<char>>)
    requires
        marks_only(g3, g2),
        marks_only(g2, g1),
    ensures
        marks_only(g3, g1),
{
    assert forall|i: int, j: int|
        0 <= i < g1.len() && 0 <= j < g1[i].len() implies ((#[trigger] g3[i][j]) == g1[i][j] || (
    g1[i][j] == '*' && g3[i][j] == 'x')) by {
        assert(g2[i].len() == g1[i].len());
        assert(g2[i][j] == g1[i][j] || (g1[i][j] == '*' && g2[i][j] == 'x'));
        assert(g3[i][j] == g2[i][j] || (g2[i][j] == '*' && g3[i][j] == 'x'));
    }
}

/// Exhaustive 4-directional traversal from `(row, col)`: collects into
/// `points` every filled cell reachable without crossing an empty cell,
/// marking each collected cell as visited so it is never revisited.
pub fn search_adjacent_points(
    points: &mut Vec<Point>,
    row: usize,
    col: usize,
    matrix: &mut Vec<Vec<char>>,
)
    requires
        grid_dims_ok(view2(*old(matrix))),
        grid_scan_ok(view2(*old(matrix))),
        (row as int) < view2(*old(matrix)).len(),
        (col as int) < view2(*old(matrix))[0].len(),
    ensures
        marks_only(view2(*final(matrix)), view2(*old(matrix))),
        grid_scan_ok(view2(*final(matrix))),
        final(points)@.len() >= old(points)@.len(),
        final(points)@.take(old(points)@.len() as int) == old(points)@,
        forall|k: int|
            old(points)@.len() <= k < final(points)@.len() ==> {
                let p = #[trigger] final(points)@[k];
                in_bounds(view2(*old(matrix)), p) && cell_at(view2(*old(matrix)), p) == '*'
                    && cell_at(view2(*final(matrix)), p) == 'x'
            },
        forall|p: Point|
            in_bounds(view2(*old(matrix)), p) && cell_at(view2(*old(matrix)), p) == '*'
                && cell_at(view2(*final(matrix)), p) == 'x' ==> exists|k: int|
                old(points)@.len() <= k < final(points)@.len() && final(points)@[k] == p,
        forall|k1: int, k2: int|
            old(points)@.len() <= k1 < k2 < final(points)@.len() ==> final(points)@[k1]
                != final(points)@[k2],
        cell_at(view2(*old(matrix)), Point { row, col }) == '*' ==> cell_at(
            view2(*final(matrix)),
            Point { row, col },
        ) == 'x',
        cell_at(view2(*old(matrix)), Point { row, col }) == '*' ==> final(points)@.len() > old(
            points,
        )@.len() && final(points)@[old(points)@.len() as int] == (Point { row, col }),
        forall|k: int, q: Point|
            old(points)@.len() <= k < final(points)@.len() && #[trigger] adjacent(final(points)@[k], q)
                && in_bounds(view2(*old(matrix)), q) ==> cell_at(view2(*final(matrix)), q) != '*',
        final(points)@.len() > old(points)@.len() ==> cell_at(
            view2(*old(matrix)),
            Point { row, col },
        ) == '*',
        forall|k: int|
            old(points)@.len() <= k < final(points)@.len() ==> connected_in(
                final(points)@.subrange(old(points)@.len() as int, final(points)@.len() as int),
                #[trigger] final(points)@[k],
                Point { row, col },
            ),
    decreases star_count(view2(*matrix)),
{
    let ghost g0 = view2(*matrix);
    let ghost n0 = points@.len() as int;
    let rows: usize = matrix.len();
    let cols: usize = matrix[0].len();
    proof {
        assert(g0[row as int] == matrix@[row as int]@);
        assert(g0[0] == matrix@[0]@);
        assert(g0[row as int].len() == g0[0].len());
    }
    let c: char = matrix[row][col];
    if c == '-' || c == 'x' {
        return ;
    }
    points.push(Point::new(row, col));
    matrix[row][col] = 'x';
    proof {
        assert(cell_scan_ok(g0[row as int][col as int]));
        assert(g0[row as int][col as int] == '*');
        assert(view2(*matrix) =~= g0.update(row as int, g0[row as int].update(col as int, 'x')));
        assert(marks_only(view2(*matrix), g0));
        assert(grid_scan_ok(view2(*matrix)));
        lemma_stars_lt(view2(*matrix), g0, row as int, col as int);
    }
    let ghost mid = view2(*matrix);
    proof {
        assert(points@.take(n0) =~= old(points)@);
        assert(points@.subrange(n0, points@.len() as int) =~= seq![Point { row, col }]);
        assert(points@.subrange(n0, points@.len() as int)[0] == points@[n0]);
        assert(points@.subrange(n0, points@.len() as int).contains(points@[n0]));
        lemma_connected_refl(points@.subrange(n0, points@.len() as int), Point { row, col });
        assert(cell_at(mid, Point { row, col }) == 'x');
        assert(cell_at(g0, Point { row, col }) == '*');
        assert forall|p: Point|
            in_bounds(g0, p) && cell_at(g0, p) == '*' && cell_at(mid, p) == 'x' implies exists|k: int|
            n0 <= k < points@.len() && points@[k] == p by {
            if p.row != row || p.col != col {
                assert(cell_at(mid, p) == cell_at(g0, p));
                assert(false);
            } else {
                assert(points@[n0] == p);
            }
        }
    }
    let mut d: usize = 0;
    while d < 4
        invariant
            g0 == view2(*old(matrix)),
            n0 == old(points)@.len(),
            grid_dims_ok(g0),
            grid_scan_ok(g0),
            rows == g0.len(),
            cols == g0[0].len(),
            (row as int) < g0.len(),
            (col as int) < g0[0].len(),
            marks_only(view2(*matrix), g0),
            grid_scan_ok(view2(*matrix)),
            star_count(view2(*matrix)) < star_count(g0),
            points@.len() >= n0,
            points@.take(n0) == old(points)@,
            forall|k: int|
                n0 <= k < points@.len() ==> {
                    let p = #[trigger] points@[k];
                    in_bounds(g0, p) && cell_at(g0, p) == '*' && cell_at(view2(*matrix), p) == 'x'
                },
            forall|p: Point|
                in_bounds(g0, p) && cell_at(g0, p) == '*' && cell_at(view2(*matrix), p) == 'x'
                    ==> exists|k: int| n0 <= k < points@.len() && points@[k] == p,
            forall|k1: int, k2: int|
                n0 <= k1 < k2 < points@.len() ==> points@[k1] != points@[k2],
            cell_at(view2(*matrix), Point { row, col }) == 'x',
            points@.len() > n0,
            points@[n0] == (Point { row, col }),
            forall|k: int|
                n0 <= k < points@.len() ==> connected_in(
                    points@.subrange(n0, points@.len() as int),
                    #[trigger] points@[k],
                    Point { row, col },
                ),
            forall|k: int, q: Point|
                n0 < k < points@.len() && #[trigger] adjacent(points@[k], q)
                    && in_bounds(g0, q) ==> cell_at(view2(*matrix), q) != '*',
            d >= 1 && row < rows - 1 ==> cell_at(
                view2(*matrix),
                (Point { row: (row + 1) as usize, col }),
            ) != '*',
            d >= 2 && row > 0 ==> cell_at(
                view2(*matrix),
                (Point { row: (row - 1) as usize, col }),
            ) != '*',
            d >= 3 && col < cols - 1 ==> cell_at(
                view2(*matrix),
                (Point { row, col: (col + 1) as usize }),
            ) != '*',
            d >= 4 && col > 0 ==> cell_at(
                view2(*matrix),
                (Point { row, col: (col - 1) as usize }),
            ) != '*',
        decreases 4 - d,
    {
        let ghost gp = view2(*matrix);
        let ghost ps = points@;
        let ghost mut nb = Point { row, col };
        proof {
            assert forall|i: int| 0 <= i < gp.len() implies (#[trigger] gp[i]).len()
                == gp[0].len() by {
                assert(gp[i].len() == g0[i].len());
                assert(gp[0].len() == g0[0].len());
            }
            assert(grid_dims_ok(gp));
        }
        if d == 0 {
            if row < rows - 1 {
                search_adjacent_points(points, row + 1, col, matrix);
                proof {
                    nb = Point { row: (row + 1) as usize, col };
                }
            }
        } else if d == 1 {
            if row > 0 {
                search_adjacent_points(points, row - 1, col, matrix);
                proof {
                    nb = Point { row: (row - 1) as usize, col };
                }
            }
        } else if d == 2 {
            if col < cols - 1 {
                search_adjacent_points(points, row, col + 1, matrix);
                proof {
                    nb = Point { row, col: (col + 1) as usize };
                }
            }
        } else {
            if col > 0 {
                search_adjacent_points(points, row, col - 1, matrix);
                proof {
                    nb = Point { row, col: (col - 1) as usize };
                }
            }
        }
        proof {
            assert(adjacent(nb, Point { row, col }) || points@.len() == ps.len());
            assert(points@.len() > ps.len() ==> points@[ps.len() as int] == nb && (forall|k: int|
                ps.len() <= k < points@.len() ==> connected_in(
                    points@.subrange(ps.len() as int, points@.len() as int),
                    #[trigger] points@[k],
                    nb,
                )));
        }
        proof {
            let cur = view2(*matrix);
            assert(marks_only(cur, gp));
            lemma_marks_only_trans(cur, gp, g0);
            lemma_stars_le(cur, gp);
            assert(points@.take(ps.len() as int) =~= ps);
            assert(points@.take(n0) =~= ps.take(n0));
            assert forall|k: int|
                n0 <= k < points@.len() implies {
                    let p = #[trigger] points@[k];
                    in_bounds(g0, p) && cell_at(g0, p) == '*' && cell_at(cur, p) == 'x'
                } by {
                let p = points@[k];
                assert(gp.len() == g0.len());
                if k < ps.len() {
                    assert(points@[k] == ps[k]);
                    assert(cell_at(gp, p) == 'x');
                    assert(gp[p.row as int].len() == g0[p.row as int].len());
                    assert(cell_at(cur, p) == 'x');
                } else {
                    assert(in_bounds(gp, p) && cell_at(gp, p) == '*');
                    assert(gp[p.row as int].len() == g0[p.row as int].len());
                    assert(cell_at(g0, p) == '*');
                }
            }
            assert forall|p: Point|
                in_bounds(g0, p) && cell_at(g0, p) == '*' && cell_at(cur, p) == 'x'
                    implies exists|k: int| n0 <= k < points@.len() && points@[k] == p by {
                assert(gp[p.row as int].len() == g0[p.row as int].len());
                if cell_at(gp, p) == 'x' {
                    let k = choose|k: int| n0 <= k < ps.len() && ps[k] == p;
                    assert(points@[k] == ps[k]);
                } else {
                    assert(cell_at(gp, p) == '*');
                    assert(in_bounds(gp, p));
                    let k = choose|k: int| ps.len() <= k < points@.len() && points@[k] == p;
                    assert(n0 <= k < points@.len() && points@[k] == p);
                }
            }
            assert forall|k1: int, k2: int|
                n0 <= k1 < k2 < points@.len() implies points@[k1] != points@[k2] by {
                if k2 < ps.len() {
                    assert(points@[k1] == ps[k1]);
                    assert(points@[k2] == ps[k2]);
                } else if k1 < ps.len() {
                    let p1 = points@[k1];
                    let p2 = points@[k2];
                    assert(points@[k1] == ps[k1]);
                    assert(cell_at(gp, p1) == 'x');
                    assert(cell_at(gp, p2) == '*');
                }
            }
            assert(cell_at(cur, Point { row, col }) == 'x');
            let carrier_new = points@.subrange(n0, points@.len() as int);
            let carrier_old = ps.subrange(n0, ps.len() as int);
            assert forall|x: Point| carrier_old.contains(x) implies carrier_new.contains(x) by {
                let i2 = choose|i2: int| 0 <= i2 < carrier_old.len() && carrier_old[i2] == x;
                assert(points@[n0 + i2] == ps[n0 + i2]);
                assert(carrier_new[i2] == x);
            }
            assert forall|k: int|
                n0 <= k < points@.len() implies connected_in(
                carrier_new,
                #[trigger] points@[k],
                Point { row, col },
            ) by {
                if k < ps.len() {
                    assert(points@[k] == ps[k]);
                    lemma_connected_mono(carrier_old, carrier_new, ps[k], Point { row, col });
                } else {
                    let callee_carrier = points@.subrange(
                        ps.len() as int,
                        points@.len() as int,
                    );
                    assert forall|x: Point| callee_carrier.contains(x) implies carrier_new.contains(
                        x,
                    ) by {
                        let i2 = choose|i2: int|
                            0 <= i2 < callee_carrier.len() && callee_carrier[i2] == x;
                        assert(carrier_new[ps.len() - n0 + i2] == x);
                    }
                    assert(connected_in(callee_carrier, points@[k], nb));
                    lemma_connected_mono(callee_carrier, carrier_new, points@[k], nb);
                    assert(carrier_new[0] == points@[n0]);
                    assert(carrier_new.contains(points@[n0]));
                    lemma_connected_step(carrier_new, points@[k], nb, Point { row, col });
                }
            }
            assert forall|k: int, q: Point|
                n0 < k < points@.len() && #[trigger] adjacent(points@[k], q)
                    && in_bounds(g0, q) implies cell_at(cur, q) != '*' by {
                assert(gp.len() == g0.len());
                assert(gp[q.row as int].len() == g0[q.row as int].len());
                if k < ps.len() {
                    assert(points@[k] == ps[k]);
                    assert(cell_at(gp, q) != '*');
                } else {
                    assert(in_bounds(gp, q));
                }
            }
        }
        d += 1;
    }
    proof {
        assert(points@.take(n0) =~= old(points)@);
        let cur = view2(*matrix);
        assert forall|k: int, q: Point|
            n0 <= k < points@.len() && #[trigger] adjacent(points@[k], q) && in_bounds(
                g0,
                q,
            ) implies cell_at(cur, q) != '*' by {
            if k == n0 {
                let p = points@[n0];
                assert(p == (Point { row, col }));
                if p.row == q.row && p.col + 1 == q.col {
                    assert(q == (Point { row, col: (col + 1) as usize }));
                    assert(col < cols - 1);
                } else if p.row == q.row && q.col + 1 == p.col {
                    assert(q == (Point { row, col: (col - 1) as usize }));
                    assert(col > 0);
                } else if p.col == q.col && p.row + 1 == q.row {
                    assert(q == (Point { row: (row + 1) as usize, col }));
                    assert(row < rows - 1);
                } else {
                    assert(p.col == q.col && q.row + 1 == p.row);
                    assert(q == (Point { row: (row - 1) as usize, col }));
                    assert(row > 0);
                }
            }
        }
    }
}

} // verus!

verus! {

/// The shapes a vector of point rows denotes.
pub open spec fn view2p(s: Vec<Vec<Point>>) -> Seq<Seq<Point>> {
    s@.map(|i: int, v: Vec<Point>| v@)
}

/// `p` comes strictly before `q` in row-major order.
pub open spec fn row_major_lt(p: Point, q: Point) -> bool {
    p.row < q.row || (p.row == q.row && p.col < q.col)
}

/// Cell `(r, c)` lies strictly before scan position `(pr, pc)` in the
/// row-major scan.
pub open spec fn scan_before(r: int, c: int, pr: int, pc: int) -> bool {
    r < pr || (r == pr && c < pc)
}

/// What the discovery pass guarantees of its result: every shape is a
/// non-empty collection of filled cells of the grid, every filled cell
/// belongs to exactly one shape at exactly one index, every shape is
/// connected (each of its cells reaches its scan origin by 4-adjacent
/// steps within the shape) and adjacency-maximal (a filled cell 4-adjacent
/// to a cell of a shape belongs to that same shape), and shapes are listed
/// in row-major order of their scan-origin cells.
pub open spec fn shapes_of_grid(g: Seq<Seq<char>>, shapes: Seq<Seq<Point>>) -> bool {
    &&& (forall|k: int| 0 <= k < shapes.len() ==> (#[trigger] shapes[k]).len() > 0)
    &&& (forall|k: int, t: int|
        0 <= k < shapes.len() && 0 <= t < shapes[k].len() ==> {
            let p = #[trigger] shapes[k][t];
            in_bounds(g, p) && cell_at(g, p) == '*'
        })
    &&& (forall|p: Point|
        in_bounds(g, p) && cell_at(g, p) == '*' ==> exists|k: int, t: int|
            0 <= k < shapes.len() && 0 <= t < shapes[k].len() && #[trigger] shapes[k][t] == p)
    &&& (forall|k1: int, t1: int, k2: int, t2: int|
        0 <= k1 < shapes.len() && 0 <= t1 < shapes[k1].len() && 0 <= k2 < shapes.len() && 0 <= t2
            < shapes[k2].len() && (k1 != k2 || t1 != t2) ==> #[trigger] shapes[k1][t1]
            != #[trigger] shapes[k2][t2])
    &&& (forall|k: int, t: int, q: Point|
        0 <= k < shapes.len() && 0 <= t < shapes[k].len() && #[trigger] adjacent(shapes[k][t], q)
            && in_bounds(g, q) && cell_at(g, q) == '*' ==> shapes[k].contains(q))
    &&& (forall|k: int, t: int|
        0 <= k < shapes.len() && 0 <= t < shapes[k].len() ==> connected_in(
            shapes[k],
            #[trigger] shapes[k][t],
            shapes[k][0],
        ))
    &&& (forall|k1: int, k2: int|
        0 <= k1 < k2 < shapes.len() ==> row_major_lt(shapes[k1][0], shapes[k2][0]))
}

/// The running state of the row-major discovery scan at position
/// `(pr, pc)`.
pub open spec fn scan_state(
    g0: Seq<Seq<char>>,
    cur: Seq<Seq<char>>,
    shapes: Seq<Seq<Point>>,
    pr: int,
    pc: int,
) -> bool {
    &&& marks_only(cur, g0)
    &&& (forall|r: int, c: int|
        0 <= r < g0.len() && 0 <= c < g0[r].len() && scan_before(r, c, pr, pc) ==> (
        #[trigger] cur[r][c]) != '*')
    &&& (forall|k: int| 0 <= k < shapes.len() ==> (#[trigger] shapes[k]).len() > 0)
    &&& (forall|k: int, t: int|
        0 <= k < shapes.len() && 0 <= t < shapes[k].len() ==> {
            let p = #[trigger] shapes[k][t];
            in_bounds(g0, p) && cell_at(g0, p) == '*' && cell_at(cur, p) == 'x'
        })
    &&& (forall|p: Point|
        in_bounds(g0, p) && cell_at(g0, p) == '*' && cell_at(cur, p) == 'x' ==> exists|
            k: int,
            t: int,
        |
            0 <= k < shapes.len() && 0 <= t < shapes[k].len() && #[trigger] shapes[k][t] == p)
    &&& (forall|k1: int, t1: int, k2: int, t2: int|
        0 <= k1 < shapes.len() && 0 <= t1 < shapes[k1].len() && 0 <= k2 < shapes.len() && 0 <= t2
            < shapes[k2].len() && (k1 != k2 || t1 != t2) ==> #[trigger] shapes[k1][t1]
            != #[trigger] shapes[k2][t2])
    &&& (forall|k: int, t: int, q: Point|
        0 <= k < shapes.len() && 0 <= t < shapes[k].len() && #[trigger] adjacent(shapes[k][t], q)
            && in_bounds(g0, q) && cell_at(g0, q) == '*' ==> shapes[k].contains(q))
    &&& (forall|k: int, t: int|
        0 <= k < shapes.len() && 0 <= t < shapes[k].len() ==> connected_in(
            shapes[k],
            #[trigger] shapes[k][t],
            shapes[k][0],
        ))
    &&& (forall|k: int|
        0 <= k < shapes.len() ==> scan_before(
            (#[trigger] shapes[k][0]).row as int,
            shapes[k][0].col as int,
            pr,
            pc,
        ))
    &&& (forall|k1: int, k2: int|
        0 <= k1 < k2 < shapes.len() ==> row_major_lt(shapes[k1][0], shapes[k2][0]))
}

/// Scans the grid row-major and flood-fills every still-unvisited filled
/// cell, producing the maximal 4-connected shapes in discovery order. The
/// grid's cells are left marked; the caller discards it.
pub fn collect_shapes(matrix: &mut Vec<Vec<char>>) -> (shapes: Vec<Vec<Point>>)
    requires
        grid_dims_ok(view2(*old(matrix))),
        grid_cells_ok(view2(*old(matrix))),
    ensures
        shapes_of_grid(view2(*old(matrix)), view2p(shapes)),
{
    let ghost g0 = view2(*matrix);
    let mut shapes: Vec<Vec<Point>> = Vec::new();
    let rows: usize = matrix.len();
    proof {
        assert(grid_scan_ok(g0));
        assert(scan_state(g0, g0, view2p(shapes), 0, 0));
    }
    if rows == 0 {
        return shapes;
    }
    let cols: usize = matrix[0].len();
    let mut row: usize = 0;
    while row < rows
        invariant
            g0 == view2(*old(matrix)),
            grid_dims_ok(g0),
            grid_cells_ok(g0),
            grid_scan_ok(view2(*matrix)),
            rows == g0.len(),
            cols == g0[0].len(),
            row <= rows,
            scan_state(g0, view2(*matrix), view2p(shapes), row as int, 0),
        decreases rows - row,
    {
        let mut col: usize = 0;
        while col < cols
            invariant
                g0 == view2(*old(matrix)),
                grid_dims_ok(g0),
                grid_cells_ok(g0),
                grid_scan_ok(view2(*matrix)),
                rows == g0.len(),
                cols == g0[0].len(),
                row < rows,
                col <= cols,
                scan_state(g0, view2(*matrix), view2p(shapes), row as int, col as int),
            decreases cols - col,
        {
            let ghost gp = view2(*matrix);
            let ghost sp = view2p(shapes);
            proof {
                assert(gp[row as int] == matrix@[row as int]@);
                assert(gp[row as int].len() == g0[row as int].len());
                assert(g0[row as int].len() == g0[0].len());
                assert forall|i: int| 0 <= i < gp.len() implies (#[trigger] gp[i]).len()
                    == gp[0].len() by {
                    assert(gp[i].len() == g0[i].len());
                    assert(gp[0].len() == g0[0].len());
                }
            }
            if matrix[row][col] == '*' {
                let mut points: Vec<Point> = Vec::new();
                search_adjacent_points(&mut points, row, col, matrix);
                shapes.push(points);
                proof {
                    let cur = view2(*matrix);
                    let sn = view2p(shapes);
                    let new = sn[sn.len() - 1];
                    assert(sn =~= sp.push(new));
                    assert(forall|k: int| 0 <= k < sp.len() ==> sn[k] == sp[k]);
                    lemma_marks_only_trans(cur, gp, g0);
                    assert(new[0] == Point { row, col });
                    assert(cell_at(gp, Point { row, col }) == '*');
                    assert(cell_at(g0, Point { row, col }) == '*');
                    assert forall|t: int| 0 <= t < new.len() implies {
                        let p = #[trigger] new[t];
                        in_bounds(g0, p) && cell_at(g0, p) == '*' && cell_at(cur, p) == 'x'
                    } by {
                        let p = new[t];
                        assert(in_bounds(gp, p) && cell_at(gp, p) == '*' && cell_at(cur, p) == 'x');
                        assert(gp[p.row as int].len() == g0[p.row as int].len());
                        assert(cell_at(g0, p) == '*');
                    }
                    assert forall|k: int, t: int|
                        0 <= k < sp.len() && 0 <= t < sp[k].len() implies {
                            let p = #[trigger] sp[k][t];
                            in_bounds(g0, p) && cell_at(g0, p) == '*' && cell_at(cur, p) == 'x'
                        } by {
                        let p = sp[k][t];
                        assert(cell_at(gp, p) == 'x');
                        assert(gp[p.row as int].len() == g0[p.row as int].len());
                        assert(cell_at(cur, p) == 'x');
                    }
                    assert forall|p: Point|
                        in_bounds(g0, p) && cell_at(g0, p) == '*' && cell_at(cur, p) == 'x'
                            implies exists|k: int, t: int|
                            0 <= k < sn.len() && 0 <= t < sn[k].len() && #[trigger] sn[k][t]
                                == p by {
                        assert(gp[p.row as int].len() == g0[p.row as int].len());
                        if cell_at(gp, p) == 'x' {
                            let (k, t): (int, int) = choose|k: int, t: int|
                                0 <= k < sp.len() && 0 <= t < sp[k].len() && #[trigger] sp[k][t]
                                    == p;
                            assert(sn[k][t] == p);
                        } else {
                            assert(cell_at(gp, p) == '*');
                            assert(in_bounds(gp, p));
                            let t = choose|t: int| 0 <= t < new.len() && new[t] == p;
                            assert(sn[sn.len() - 1][t] == p);
                        }
                    }
                    assert forall|k1: int, t1: int, k2: int, t2: int|
                        0 <= k1 < sn.len() && 0 <= t1 < sn[k1].len() && 0 <= k2 < sn.len() && 0
                            <= t2 < sn[k2].len() && (k1 != k2 || t1 != t2) implies #[trigger] sn[k1][t1]
                        != #[trigger] sn[k2][t2] by {
                        if k1 < sp.len() && k2 < sp.len() {
                            assert(sp[k1][t1] != sp[k2][t2]);
                        } else if k1 < sp.len() && k2 == sp.len() {
                            assert(cell_at(gp, sp[k1][t1]) == 'x');
                            assert(cell_at(gp, new[t2]) == '*');
                        } else if k2 < sp.len() && k1 == sp.len() {
                            assert(cell_at(gp, sp[k2][t2]) == 'x');
                            assert(cell_at(gp, new[t1]) == '*');
                        }
                    }
                    assert forall|k: int, t: int|
                        0 <= k < sn.len() && 0 <= t < sn[k].len() implies connected_in(
                        sn[k],
                        #[trigger] sn[k][t],
                        sn[k][0],
                    ) by {
                        if k < sp.len() {
                            assert(sn[k] == sp[k]);
                        } else {
                            assert(sn[k] == new);
                            assert(new =~= points@.subrange(0, points@.len() as int));
                            assert(connected_in(
                                points@.subrange(0, points@.len() as int),
                                points@[t],
                                Point { row, col },
                            ));
                            assert(new[0] == (Point { row, col }));
                            assert(new[t] == points@[t]);
                        }
                    }
                    assert forall|k: int, t: int, q: Point|
                        0 <= k < sn.len() && 0 <= t < sn[k].len() && #[trigger] adjacent(
                            sn[k][t],
                            q,
                        ) && in_bounds(g0, q) && cell_at(g0, q) == '*' implies sn[k].contains(
                        q,
                    ) by {
                        assert(gp.len() == g0.len());
                        assert(gp[q.row as int].len() == g0[q.row as int].len());
                        if k < sp.len() {
                            assert(sp[k].contains(q));
                            let t2 = choose|t2: int|
                                0 <= t2 < sp[k].len() && (#[trigger] sp[k][t2]) == q;
                            assert(sn[k][t2] == q);
                        } else {
                            let p = new[t];
                            assert(cell_at(cur, q) != '*');
                            if cell_at(gp, q) == '*' {
                                assert(in_bounds(gp, q));
                                let t2 = choose|t2: int| 0 <= t2 < new.len() && new[t2] == q;
                                assert(sn[k][t2] == q);
                            } else {
                                assert(cell_at(g0, q) == '*' && cell_at(gp, q) == 'x');
                                let (j, t2): (int, int) = choose|j: int, t2: int|
                                    0 <= j < sp.len() && 0 <= t2 < sp[j].len() && #[trigger] sp[j][t2]
                                        == q;
                                assert(adjacent(sp[j][t2], p));
                                assert(in_bounds(gp, p) && cell_at(gp, p) == '*');
                                assert(in_bounds(g0, p) && cell_at(g0, p) == '*');
                                assert(sp[j].contains(p));
                                let t3 = choose|t3: int|
                                    0 <= t3 < sp[j].len() && (#[trigger] sp[j][t3]) == p;
                                assert(cell_at(gp, sp[j][t3]) == 'x');
                                assert(false);
                            }
                        }
                    }
                    assert(scan_state(g0, cur, sn, row as int, col + 1));
                }
            } else {
                proof {
                    let cur = view2(*matrix);
                    assert(cur[row as int][col as int] != '*');
                    assert(scan_state(g0, cur, view2p(shapes), row as int, col + 1));
                }
            }
            col += 1;
        }
        proof {
            let cur = view2(*matrix);
            assert forall|r: int, c: int|
                0 <= r < g0.len() && 0 <= c < g0[r].len() && scan_before(r, c, row + 1, 0)
                    implies (#[trigger] cur[r][c]) != '*' by {
                assert(g0[r].len() == g0[0].len());
                assert(scan_before(r, c, row as int, cols as int));
            }
            assert(scan_state(g0, cur, view2p(shapes), row + 1, 0));
        }
        row += 1;
    }
    proof {
        let cur = view2(*matrix);
        let sn = view2p(shapes);
        assert forall|p: Point|
            in_bounds(g0, p) && cell_at(g0, p) == '*' implies exists|k: int, t: int|
            0 <= k < sn.len() && 0 <= t < sn[k].len() && #[trigger] sn[k][t] == p by {
            assert(g0[p.row as int].len() == g0[0].len());
            assert(scan_before(p.row as int, p.col as int, rows as int, 0));
            assert(cur[p.row as int][p.col as int] != '*');
            assert(cell_at(cur, p) == 'x');
        }
        assert(shapes_of_grid(g0, sn));
    }
    shapes
}

} // verus!

verus! {

/// An axis-aligned bounding rectangle of one shape, with its two display
/// corners and its derived area.
#[derive(Debug, Clone, Copy, PartialEq, Eq, Structural)]
pub struct BoundingBox {
    pub min_left_point: Point,
    pub max_right_point: Point,
    pub left: usize,
    pub top: usize,
    pub right: usize,
    pub bottom: usize,
    pub size: usize,
}

/// Internal consistency of a box: `bottom`/`top` are the least/greatest
/// row, `left`/`right` the least/greatest column, the corner points agree
/// with them, and `size` is the product of the inclusive spans.
pub open spec fn bbox_wf(b: BoundingBox) -> bool {
    &&& b.bottom <= b.top
    &&& b.left <= b.right
    &&& b.min_left_point == (Point { row: b.bottom, col: b.left })
    &&& b.max_right_point == (Point { row: b.top, col: b.right })
    &&& b.size as int == (b.right - b.left + 1) * (b.top - b.bottom + 1)
}

/// Every listed point lies within the box's row and column spans.
pub open spec fn points_in_box(b: BoundingBox, pts: Seq<Point>) -> bool {
    forall|t: int|
        0 <= t < pts.len() ==> {
            let p = #[trigger] pts[t];
            b.bottom <= p.row && p.row <= b.top && b.left <= p.col && p.col <= b.right
        }
}

/// Each of the four bounds is attained by some listed point.
pub open spec fn box_bounds_attained(b: BoundingBox, pts: Seq<Point>) -> bool {
    &&& (exists|t: int| 0 <= t < pts.len() && (#[trigger] pts[t]).row == b.bottom)
    &&& (exists|t: int| 0 <= t < pts.len() && (#[trigger] pts[t]).row == b.top)
    &&& (exists|t: int| 0 <= t < pts.len() && (#[trigger] pts[t]).col == b.left)
    &&& (exists|t: int| 0 <= t < pts.len() && (#[trigger] pts[t]).col == b.right)
}

/// `b` is the bounding box of the points: well-formed, containing, and
/// tight on all four sides.
pub open spec fn is_bbox_of(b: BoundingBox, pts: Seq<Point>) -> bool {
    bbox_wf(b) && points_in_box(b, pts) && box_bounds_attained(b, pts)
}

/// Row and column counts small enough that any box inside such a grid has
/// an area that fits in `usize`.
pub open spec fn size_fits(nr: int, nc: int) -> bool {
    0 <= nr && 0 <= nc && nr * nc <= usize::MAX
}

impl BoundingBox {
    /// Reduces a non-empty point set (one shape) to its bounding rectangle
    /// with derived geometry, in a single linear pass.
    pub fn new_with_points(points: Vec<Point>) -> (b: BoundingBox)
        requires
            points@.len() > 0,
            exists|nr: int, nc: int|
                #[trigger] size_fits(nr, nc) && (forall|t: int|
                    0 <= t < points@.len() ==> (#[trigger] points@[t]).row < nr && points@[t].col
                        < nc),
        ensures
            is_bbox_of(b, points@),
    {
        let mut min_row: usize = points[0].row;
        let mut min_col: usize = points[0].col;
        let mut max_row: usize = points[0].row;
        let mut max_col: usize = points[0].col;
        let n: usize = points.len();
        let mut i: usize = 1;
        while i < n
            invariant
                n == points@.len(),
                0 < i <= n,
                min_row <= max_row,
                min_col <= max_col,
                forall|t: int|
                    0 <= t < i ==> {
                        let p = #[trigger] points@[t];
                        min_row <= p.row && p.row <= max_row && min_col <= p.col && p.col
                            <= max_col
                    },
                exists|t: int| 0 <= t < i && (#[trigger] points@[t]).row == min_row,
                exists|t: int| 0 <= t < i && (#[trigger] points@[t]).row == max_row,
                exists|t: int| 0 <= t < i && (#[trigger] points@[t]).col == min_col,
                exists|t: int| 0 <= t < i && (#[trigger] points@[t]).col == max_col,
            decreases n - i,
        {
            let p = points[i];
            if p.row < min_row {
                min_row = p.row;
            }
            if p.row > max_row {
                max_row = p.row;
            }
            if p.col < min_col {
                min_col = p.col;
            }
            if p.col > max_col {
                max_col = p.col;
            }
            i += 1;
        }
        proof {
            let (nr, nc): (int, int) = choose|nr: int, nc: int|
                #[trigger] size_fits(nr, nc) && (forall|t: int|
                    0 <= t < points@.len() ==> (#[trigger] points@[t]).row < nr && points@[t].col
                        < nc);
            assert(max_row < nr);
            assert(max_col < nc);
            assert((max_col - min_col + 1) * (max_row - min_row + 1) <= nc * nr)
                by (nonlinear_arith)
                requires
                    0 <= min_col <= max_col < nc,
                    0 <= min_row <= max_row < nr,
            ;
            assert(nc <= nr * nc) by (nonlinear_arith)
                requires
                    1 <= nr,
                    0 <= nc,
            ;
            assert(nr <= nr * nc) by (nonlinear_arith)
                requires
                    1 <= nc,
                    0 <= nr,
            ;
            assert(max_col - min_col + 1 <= usize::MAX);
            assert(max_row - min_row + 1 <= usize::MAX);
            assert((max_col - min_col + 1) * (max_row - min_row + 1) <= usize::MAX);
        }
        let min_left_point = Point::new(min_row, min_col);
        let max_right_point = Point::new(max_row, max_col);
        let width: usize = max_right_point.col - min_left_point.col + 1;
        let height: usize = max_right_point.row - min_left_point.row + 1;
        let size: usize = width * height;
        Self {
            min_left_point,
            max_right_point,
            left: min_col,
            top: max_row,
            right: max_col,
            bottom: min_row,
            size,
        }
    }
}

/// Bounding box containment and tightness: every point of the shape lies
/// within its box's row and column span, and any rectangle containing all
/// the shape's points contains the box's whole span — no smaller rectangle
/// suffices.
pub proof fn lemma_bbox_tightest(
    b: BoundingBox,
    pts: Seq<Point>,
    rlo: int,
    rhi: int,
    clo: int,
    chi: int,
)
    requires
        is_bbox_of(b, pts),
        forall|t: int|
            0 <= t < pts.len() ==> {
                let p = #[trigger] pts[t];
                rlo <= p.row && p.row <= rhi && clo <= p.col && p.col <= chi
            },
    ensures
        points_in_box(b, pts),
        rlo <= b.bottom,
        b.top <= rhi,
        clo <= b.left,
        b.right <= chi,
{
    let t1 = choose|t: int| 0 <= t < pts.len() && (#[trigger] pts[t]).row == b.bottom;
    let t2 = choose|t: int| 0 <= t < pts.len() && (#[trigger] pts[t]).row == b.top;
    let t3 = choose|t: int| 0 <= t < pts.len() && (#[trigger] pts[t]).col == b.left;
    let t4 = choose|t: int| 0 <= t < pts.len() && (#[trigger] pts[t]).col == b.right;
    assert(rlo <= pts[t1].row);
    assert(pts[t2].row <= rhi);
    assert(clo <= pts[t3].col);
    assert(pts[t4].col <= chi);
}

/// The set of points one shape holds.
pub open spec fn shape_set(s: Seq<Point>) -> Set<Point> {
    Set::new(|q: Point| s.contains(q))
}

/// The filled cells of a grid.
pub open spec fn filled_set(g: Seq<Seq<char>>) -> Set<Point> {
    Set::new(|p: Point| in_bounds(g, p) && cell_at(g, p) == '*')
}

/// The union of the first `k` shapes' point sets.
pub open spec fn shapes_union(shapes: Seq<Seq<Point>>, k: int) -> Set<Point>
    decreases k,
{
    if k <= 0 {
        Set::empty()
    } else {
        shapes_union(shapes, k - 1).union(shape_set(shapes[k - 1]))
    }
}

proof fn lemma_shapes_union_member(shapes: Seq<Seq<Point>>, k: int, p: Point)
    requires
        0 <= k <= shapes.len(),
    ensures
        shapes_union(shapes, k).contains(p) <==> exists|k2: int, t: int|
            0 <= k2 < k && 0 <= t < shapes[k2].len() && #[trigger] shapes[k2][t] == p,
    decreases k,
{
    if k > 0 {
        lemma_shapes_union_member(shapes, k - 1, p);
        if shape_set(shapes[k - 1]).contains(p) {
            let t = choose|t: int| 0 <= t < shapes[k - 1].len() && (#[trigger] shapes[k - 1][t]) == p;
            assert(shapes[k - 1][t] == p);
        }
        if exists|k2: int, t: int|
            0 <= k2 < k && 0 <= t < shapes[k2].len() && #[trigger] shapes[k2][t] == p {
            let (k2, t): (int, int) = choose|k2: int, t: int|
                0 <= k2 < k && 0 <= t < shapes[k2].len() && #[trigger] shapes[k2][t] == p;
            if k2 == k - 1 {
                assert(shapes[k - 1].contains(p));
            }
        }
    }
}

/// Shape partition: the union of all discovered shapes' point sets equals
/// exactly the set of filled cells of the grid, and the point sets are
/// pairwise disjoint.
pub proof fn lemma_shape_partition(g: Seq<Seq<char>>, shapes: Seq<Seq<Point>>)
    requires
        shapes_of_grid(g, shapes),
    ensures
        shapes_union(shapes, shapes.len() as int) == filled_set(g),
        forall|k1: int, k2: int|
            0 <= k1 < shapes.len() && 0 <= k2 < shapes.len() && k1 != k2 ==> shape_set(
                #[trigger] shapes[k1],
            ).disjoint(shape_set(#[trigger] shapes[k2])),
{
    let n = shapes.len() as int;
    assert forall|p: Point| shapes_union(shapes, n).contains(p) <==> filled_set(g).contains(
        p,
    ) by {
        lemma_shapes_union_member(shapes, n, p);
    }
    assert(shapes_union(shapes, n) =~= filled_set(g));
    assert forall|k1: int, k2: int|
        0 <= k1 < shapes.len() && 0 <= k2 < shapes.len() && k1 != k2 implies shape_set(
        #[trigger] shapes[k1],
    ).disjoint(shape_set(#[trigger] shapes[k2])) by {
        assert forall|p: Point|
            !(shape_set(shapes[k1]).contains(p) && shape_set(shapes[k2]).contains(p)) by {
            if shape_set(shapes[k1]).contains(p) && shape_set(shapes[k2]).contains(p) {
                let t1 = choose|t: int| 0 <= t < shapes[k1].len() && (#[trigger] shapes[k1][t]) == p;
                let t2 = choose|t: int| 0 <= t < shapes[k2].len() && (#[trigger] shapes[k2][t]) == p;
                assert(shapes[k1][t1] != shapes[k2][t2]);
                assert(false);
            }
        }
        assert(shape_set(shapes[k1]).disjoint(shape_set(shapes[k2])));
    }
}

} // verus!

verus! {

/// Geometric sanity of a box handed to the sweep.
pub open spec fn box_geom_wf(b: BoundingBox) -> bool {
    b.bottom <= b.top && b.left <= b.right
}

/// Closed row ranges intersect; exact boundary touching counts.
pub open spec fn rows_overlap(a: BoundingBox, b: BoundingBox) -> bool {
    !(a.bottom > b.top || a.top < b.bottom)
}

/// Closed column ranges intersect; exact boundary touching counts.
pub open spec fn cols_overlap(a: BoundingBox, b: BoundingBox) -> bool {
    a.left <= b.right && b.left <= a.right
}

/// The two boxes share at least one cell's column range and row range.
pub open spec fn boxes_overlap(a: BoundingBox, b: BoundingBox) -> bool {
    rows_overlap(a, b) && cols_overlap(a, b)
}

/// Box `i` overlaps no other box of the collection.
pub open spec fn lonely(boxes: Seq<BoundingBox>, i: int) -> bool {
    forall|j: int|
        0 <= j < boxes.len() && j != i ==> !boxes_overlap(boxes[i], #[trigger] boxes[j])
}

/// Box overlap is symmetric: if box `a` overlaps box `b`, then box `b`
/// overlaps box `a`.
pub proof fn lemma_overlap_symmetric(a: BoundingBox, b: BoundingBox)
    ensures
        boxes_overlap(a, b) == boxes_overlap(b, a),
{
}

/// A sweep event: the Start (left column) or End (right column) of one
/// box, carrying the owning box's identity and row range.
#[derive(Debug, Clone, Copy, PartialEq, Eq, Structural)]
pub struct Interval {
    pub col: usize,
    pub is_end: bool,
    pub box_id: usize,
    pub top: usize,
    pub bottom: usize,
}

/// The natural total order of event records: by column, then Start before
/// End, then box identity, then row bounds.
pub open spec fn ev_le(a: Interval, b: Interval) -> bool {
    if a.col != b.col {
        a.col < b.col
    } else if a.is_end != b.is_end {
        !a.is_end
    } else if a.box_id != b.box_id {
        a.box_id < b.box_id
    } else if a.top != b.top {
        a.top < b.top
    } else {
        a.bottom <= b.bottom
    }
}

/// Events sorted ascending by the event order.
pub open spec fn ev_sorted(s: Seq<Interval>) -> bool {
    forall|p: int, q: int| 0 <= p < q < s.len() ==> ev_le(#[trigger] s[p], #[trigger] s[q])
}

fn ev_le_exec(a: &Interval, b: &Interval) -> (r: bool)
    ensures
        r == ev_le(*a, *b),
{
    if a.col != b.col {
        a.col < b.col
    } else if a.is_end != b.is_end {
        !a.is_end
    } else if a.box_id != b.box_id {
        a.box_id < b.box_id
    } else if a.top != b.top {
        a.top < b.top
    } else {
        a.bottom <= b.bottom
    }
}

/// The Start event of box `j`.
pub open spec fn start_ev(boxes: Seq<BoundingBox>, j: int) -> Interval {
    Interval {
        col: boxes[j].left,
        is_end: false,
        box_id: j as usize,
        top: boxes[j].top,
        bottom: boxes[j].bottom,
    }
}

/// The End event of box `j`.
pub open spec fn end_ev(boxes: Seq<BoundingBox>, j: int) -> Interval {
    Interval {
        col: boxes[j].right,
        is_end: true,
        box_id: j as usize,
        top: boxes[j].top,
        bottom: boxes[j].bottom,
    }
}

fn build_events(boxes: &[BoundingBox]) -> (evs: Vec<Interval>)
    ensures
        evs@.len() == 2 * boxes@.len(),
        forall|p: int|
            0 <= p < evs@.len() ==> (#[trigger] evs@[p]) == (if p % 2 == 0 {
                start_ev(boxes@, p / 2)
            } else {
                end_ev(boxes@, p / 2)
            }),
{
    let n: usize = boxes.len();
    let mut evs: Vec<Interval> = Vec::new();
    let mut i: usize = 0;
    while i < n
        invariant
            n == boxes@.len(),
            i <= n,
            evs@.len() == 2 * i,
            forall|p: int|
                0 <= p < evs@.len() ==> (#[trigger] evs@[p]) == (if p % 2 == 0 {
                    start_ev(boxes@, p / 2)
                } else {
                    end_ev(boxes@, p / 2)
                }),
        decreases n - i,
    {
        let b = boxes[i];
        evs.push(Interval { col: b.left, is_end: false, box_id: i, top: b.top, bottom: b.bottom });
        evs.push(Interval { col: b.right, is_end: true, box_id: i, top: b.top, bottom: b.bottom });
        proof {
            assert forall|p: int| 0 <= p < evs@.len() implies (#[trigger] evs@[p]) == (if p % 2
                == 0 {
                start_ev(boxes@, p / 2)
            } else {
                end_ev(boxes@, p / 2)
            }) by {
                if p == 2 * (i as int) {
                    assert(p % 2 == 0 && p / 2 == i as int);
                    assert(evs@[p] == start_ev(boxes@, i as int));
                } else if p == 2 * (i as int) + 1 {
                    assert(p % 2 == 1 && p / 2 == i as int);
                    assert(evs@[p] == end_ev(boxes@, i as int));
                }
            }
        }
        i += 1;
    }
    evs
}

fn sort_events(input: Vec<Interval>) -> (out: Vec<Interval>)
    ensures
        ev_sorted(out@),
        out@.to_multiset() == input@.to_multiset(),
{
    broadcast use vstd::seq_lib::group_to_multiset_ensures;
    broadcast use vstd::seq_lib::to_multiset_insert;

    let n: usize = input.len();
    let mut out: Vec<Interval> = Vec::new();
    let mut i: usize = 0;
    proof {
        assert(input@.take(0) =~= Seq::<Interval>::empty());
        assert(out@.to_multiset() =~= input@.take(0).to_multiset());
    }
    while i < n
        invariant
            n == input@.len(),
            i <= n,
            ev_sorted(out@),
            out@.to_multiset() == input@.take(i as int).to_multiset(),
        decreases n - i,
    {
        let e = input[i];
        let mut pos: usize = 0;
        while pos < out.len() && ev_le_exec(&out[pos], &e)
            invariant
                pos <= out@.len(),
                forall|t: int| 0 <= t < pos ==> ev_le(#[trigger] out@[t], e),
            decreases out@.len() - pos,
        {
            pos += 1;
        }
        let ghost prev = out@;
        out.insert(pos, e);
        proof {
            assert(out@ == prev.insert(pos as int, e));
            assert forall|p: int, q: int|
                0 <= p < q < out@.len() implies ev_le(#[trigger] out@[p], #[trigger] out@[q]) by {
                if q < pos {
                    assert(out@[p] == prev[p] && out@[q] == prev[q]);
                } else if p > pos {
                    assert(out@[p] == prev[p - 1] && out@[q] == prev[q - 1]);
                } else if p < pos && q == pos {
                    assert(out@[p] == prev[p] && out@[q] == e);
                } else if p == pos && q > pos {
                    assert(out@[p] == e && out@[q] == prev[q - 1]);
                    assert(pos < prev.len());
                    assert(!ev_le(prev[pos as int], e));
                    if q - 1 > pos {
                        assert(ev_le(prev[pos as int], prev[q - 1]));
                    }
                } else {
                    assert(p < pos && q > pos);
                    assert(out@[p] == prev[p] && out@[q] == prev[q - 1]);
                    assert(ev_le(prev[p], e));
                    assert(!ev_le(prev[pos as int], e));
                    if q - 1 > pos {
                        assert(ev_le(prev[pos as int], prev[q - 1]));
                    }
                }
            }
            assert(input@.take(i + 1) =~= input@.take(i as int).push(e));
            vstd::seq_lib::to_multiset_insert(prev, pos as int, e);
            vstd::seq_lib::to_multiset_build(input@.take(i as int), e);
            assert(prev.insert(pos as int, e).to_multiset() == prev.to_multiset().insert(e));
            assert(input@.take(i as int).push(e).to_multiset() =~= input@.take(
                i as int,
            ).to_multiset().insert(e));
            assert(out@.to_multiset() =~= input@.take(i + 1).to_multiset());
        }
        i += 1;
    }
    proof {
        assert(input@.take(n as int) =~= input@);
    }
    out
}

} // verus!

verus! {

/// The position of event `x` in the event list.
pub open spec fn ev_pos(evs: Seq<Interval>, x: Interval) -> int {
    choose|p: int| 0 <= p < evs.len() && evs[p] == x
}

proof fn lemma_pos_unique(evs: Seq<Interval>, x: Interval, p: int)
    requires
        evs.no_duplicates(),
        0 <= p < evs.len(),
        evs[p] == x,
    ensures
        ev_pos(evs, x) == p,
        evs[ev_pos(evs, x)] == x,
{
    assert(exists|q: int| 0 <= q < evs.len() && evs[q] == x);
    let q = ev_pos(evs, x);
    assert(0 <= q < evs.len() && evs[q] == x);
    if q != p {
        assert(evs[q] != evs[p]);
        assert(false);
    }
}

proof fn lemma_ev_le_antisym(a: Interval, b: Interval)
    requires
        ev_le(a, b),
        ev_le(b, a),
    ensures
        a == b,
{
    assert(a.col == b.col && a.is_end == b.is_end && a.box_id == b.box_id && a.top == b.top
        && a.bottom == b.bottom);
}

proof fn lemma_pos_lt(evs: Seq<Interval>, a: Interval, b: Interval)
    requires
        ev_sorted(evs),
        evs.no_duplicates(),
        0 <= ev_pos(evs, a) < evs.len(),
        evs[ev_pos(evs, a)] == a,
        0 <= ev_pos(evs, b) < evs.len(),
        evs[ev_pos(evs, b)] == b,
        ev_le(a, b),
        a != b,
    ensures
        ev_pos(evs, a) < ev_pos(evs, b),
{
    let pa = ev_pos(evs, a);
    let pb = ev_pos(evs, b);
    if pa > pb {
        assert(ev_le(evs[pb], evs[pa]));
        lemma_ev_le_antisym(a, b);
        assert(false);
    }
    if pa == pb {
        assert(false);
    }
}

proof fn lemma_active_cols(
    boxes: Seq<BoundingBox>,
    evs: Seq<Interval>,
    i: int,
    j: int,
    k: int,
)
    requires
        ev_sorted(evs),
        evs.no_duplicates(),
        0 <= i < boxes.len(),
        0 <= j < boxes.len(),
        box_geom_wf(boxes[i]),
        box_geom_wf(boxes[j]),
        0 <= k < evs.len(),
        evs[k] == start_ev(boxes, i),
        0 <= ev_pos(evs, start_ev(boxes, j)) < k,
        evs[ev_pos(evs, start_ev(boxes, j))] == start_ev(boxes, j),
        ev_pos(evs, end_ev(boxes, j)) >= k,
        evs[ev_pos(evs, end_ev(boxes, j))] == end_ev(boxes, j),
        ev_pos(evs, end_ev(boxes, j)) < evs.len(),
    ensures
        cols_overlap(boxes[i], boxes[j]),
        j != i,
{
    let psj = ev_pos(evs, start_ev(boxes, j));
    let pej = ev_pos(evs, end_ev(boxes, j));
    assert(ev_le(evs[psj], evs[k]));
    assert(boxes[j].left <= boxes[i].left);
    if j == i {
        assert(evs[psj] == evs[k]);
        assert(false);
    }
    assert(pej != k);
    assert(ev_le(evs[k], evs[pej]));
    assert(boxes[i].left <= boxes[j].right);
}

proof fn lemma_overlap_not_ended(
    boxes: Seq<BoundingBox>,
    evs: Seq<Interval>,
    i: int,
    j: int,
    k: int,
)
    requires
        ev_sorted(evs),
        evs.no_duplicates(),
        0 <= i < boxes.len(),
        0 <= j < boxes.len(),
        j != i,
        0 <= k < evs.len(),
        evs[k] == start_ev(boxes, i),
        cols_overlap(boxes[i], boxes[j]),
        0 <= ev_pos(evs, end_ev(boxes, j)) < evs.len(),
        evs[ev_pos(evs, end_ev(boxes, j))] == end_ev(boxes, j),
    ensures
        ev_pos(evs, end_ev(boxes, j)) > k,
{
    lemma_pos_unique(evs, start_ev(boxes, i), k);
    assert(ev_le(start_ev(boxes, i), end_ev(boxes, j)));
    lemma_pos_lt(evs, start_ev(boxes, i), end_ev(boxes, j));
}

} // verus!

verus! {

/// The position of box `j`'s Start event.
pub open spec fn start_pos(evs: Seq<Interval>, boxes: Seq<BoundingBox>, j: int) -> int {
    ev_pos(evs, start_ev(boxes, j))
}

/// The position of box `j`'s End event.
pub open spec fn end_pos(evs: Seq<Interval>, boxes: Seq<BoundingBox>, j: int) -> int {
    ev_pos(evs, end_ev(boxes, j))
}

/// Event `p` of the list is the Start or End event of some box.
pub open spec fn ev_of_some_box(evs: Seq<Interval>, boxes: Seq<BoundingBox>, p: int) -> bool {
    let e = evs[p];
    let j = e.box_id as int;
    0 <= j < boxes.len() && (e == start_ev(boxes, j) || e == end_ev(boxes, j))
}

/// `evs` is a sorted, duplicate-free arrangement of exactly the Start and
/// End events of the boxes.
pub open spec fn events_of_boxes(evs: Seq<Interval>, boxes: Seq<BoundingBox>) -> bool {
    &&& evs.len() == 2 * boxes.len()
    &&& ev_sorted(evs)
    &&& evs.no_duplicates()
    &&& (forall|j: int|
        0 <= j < boxes.len() ==> {
            let ps = #[trigger] start_pos(evs, boxes, j);
            0 <= ps < evs.len() && evs[ps] == start_ev(boxes, j)
        })
    &&& (forall|j: int|
        0 <= j < boxes.len() ==> {
            let pe = #[trigger] end_pos(evs, boxes, j);
            0 <= pe < evs.len() && evs[pe] == end_ev(boxes, j)
        })
    &&& (forall|j: int|
        0 <= j < boxes.len() ==> #[trigger] start_pos(evs, boxes, j) < end_pos(evs, boxes, j))
    &&& (forall|p: int| 0 <= p < evs.len() ==> #[trigger] ev_of_some_box(evs, boxes, p))
}

/// Processes the sorted events left to right, keeping the currently open
/// boxes' row ranges in an active set; a box gets marked exactly when its
/// bounding box overlaps some other box's.
#[verifier::rlimit(60)]
fn sweep_overlaps(boxes: &[BoundingBox], evs: &Vec<Interval>) -> (marked: Vec<bool>)
    requires
        forall|j: int| 0 <= j < boxes@.len() ==> box_geom_wf(#[trigger] boxes@[j]),
        events_of_boxes(evs@, boxes@),
    ensures
        marked@.len() == boxes@.len(),
        forall|i: int| 0 <= i < boxes@.len() ==> ((#[trigger] marked@[i]) <==> !lonely(boxes@, i)),
{
    let ghost bs = boxes@;
    let ghost es = evs@;
    let n: usize = boxes.len();
    let nev: usize = evs.len();
    let mut marked: Vec<bool> = Vec::new();
    let mut z: usize = 0;
    while z < n
        invariant
            z <= n,
            marked@.len() == z,
            forall|t: int| 0 <= t < z ==> !(#[trigger] marked@[t]),
        decreases n - z,
    {
        marked.push(false);
        z += 1;
    }
    let mut active: Vec<(usize, usize, usize)> = Vec::new();
    let mut k: usize = 0;
    while k < nev
        invariant
            bs == boxes@,
            es == evs@,
            n == bs.len(),
            nev == es.len(),
            forall|j: int| 0 <= j < n ==> box_geom_wf(#[trigger] bs[j]),
            events_of_boxes(es, bs),
            k <= nev,
            marked@.len() == n,
            forall|t: int|
                0 <= t < active@.len() ==> {
                    let tr = #[trigger] active@[t];
                    0 <= (tr.2 as int) < n && tr.0 == bs[tr.2 as int].bottom && tr.1 == bs[tr.2
                        as int].top && start_pos(es, bs, tr.2 as int) < k && end_pos(
                        es,
                        bs,
                        tr.2 as int,
                    ) >= k
                },
            forall|j: int|
                0 <= j < n && (#[trigger] start_pos(es, bs, j)) < k && end_pos(es, bs, j) >= k
                    ==> active@.contains((bs[j].bottom, bs[j].top, j as usize)),
            forall|t1: int, t2: int| 0 <= t1 < t2 < active@.len() ==> active@[t1] != active@[t2],
            forall|i: int|
                0 <= i < n ==> ((#[trigger] marked@[i]) <==> (start_pos(es, bs, i) < k && exists|
                    j: int,
                |
                    0 <= j < n && j != i && boxes_overlap(bs[i], #[trigger] bs[j]) && start_pos(
                        es,
                        bs,
                        j,
                    ) < k)),
        decreases nev - k,
    {
        let ev = evs[k];
        let ghost i = ev.box_id as int;
        proof {
            assert(ev_of_some_box(es, bs, k as int));
            assert(es[k as int] == start_ev(bs, i) || es[k as int] == end_ev(bs, i));
            assert(0 <= i < n);
        }
        if !ev.is_end {
            proof {
                assert(es[k as int] == start_ev(bs, i));
                lemma_pos_unique(es, start_ev(bs, i), k as int);
                assert(start_pos(es, bs, i) == k);
                assert(ev.bottom == bs[i].bottom && ev.top == bs[i].top);
            }
            let ghost act0 = active@;
            let ghost mk0 = marked@;
            let mut any_hit: bool = false;
            let mut a: usize = 0;
            while a < active.len()
                invariant
                    bs == boxes@,
                    n == bs.len(),
                    active@ == act0,
                    a <= act0.len(),
                    forall|t: int|
                        0 <= t < act0.len() ==> {
                            let tr = #[trigger] act0[t];
                            0 <= (tr.2 as int) < n && tr.0 == bs[tr.2 as int].bottom && tr.1
                                == bs[tr.2 as int].top
                        },
                    ev.bottom == bs[i].bottom && ev.top == bs[i].top,
                    0 <= i < n,
                    any_hit <==> (exists|t: int|
                        0 <= t < a && rows_overlap(bs[i], bs[(#[trigger] act0[t]).2 as int])),
                decreases act0.len() - a,
            {
                let tr = active[a];
                if !(ev.bottom > tr.1 || ev.top < tr.0) {
                    any_hit = true;
                    proof {
                        assert(rows_overlap(bs[i], bs[act0[a as int].2 as int]));
                    }
                }
                a += 1;
            }
            active.push((ev.bottom, ev.top, ev.box_id));
            if any_hit {
                let mut a2: usize = 0;
                while a2 < active.len()
                    invariant
                        bs == boxes@,
                        n == bs.len(),
                        active@ == act0.push((ev.bottom, ev.top, ev.box_id)),
                        a2 <= active@.len(),
                        marked@.len() == n,
                        forall|t: int|
                            0 <= t < act0.len() ==> {
                                let tr = #[trigger] act0[t];
                                0 <= (tr.2 as int) < n && tr.0 == bs[tr.2 as int].bottom && tr.1
                                    == bs[tr.2 as int].top
                            },
                        ev.bottom == bs[i].bottom && ev.top == bs[i].top,
                        ev.box_id == i as usize,
                        0 <= i < n,
                        forall|x: int|
                            0 <= x < n ==> ((#[trigger] marked@[x]) <==> (mk0[x] || (exists|t: int|
                                0 <= t < a2 && ((#[trigger] active@[t]).2 as int) == x
                                    && rows_overlap(bs[i], bs[active@[t].2 as int])))),
                    decreases active@.len() - a2,
                {
                    let tr = active[a2];
                    if !(ev.bottom > tr.1 || ev.top < tr.0) {
                        proof {
                            assert((tr.2 as int) < n);
                        }
                        marked[tr.2] = true;
                    }
                    a2 += 1;
                }
            }
            proof {
                let act1 = active@;
                assert(act1 == act0.push((bs[i].bottom, bs[i].top, i as usize)));
                // the active-set shape at k + 1
                assert forall|t: int| 0 <= t < act1.len() implies {
                    let tr = #[trigger] act1[t];
                    0 <= (tr.2 as int) < n && tr.0 == bs[tr.2 as int].bottom && tr.1 == bs[tr.2
                        as int].top && start_pos(es, bs, tr.2 as int) < k + 1 && end_pos(
                        es,
                        bs,
                        tr.2 as int,
                    ) >= k + 1
                } by {
                    if t < act0.len() {
                        let tr = act0[t];
                        let j = tr.2 as int;
                        assert(end_pos(es, bs, j) >= k);
                        if end_pos(es, bs, j) == k {
                            assert(es[k as int] == end_ev(bs, j));
                            assert(false);
                        }
                    } else {
                        assert(act1[t] == (bs[i].bottom, bs[i].top, i as usize));
                        assert(start_pos(es, bs, i) < end_pos(es, bs, i));
                    }
                }
                assert forall|j: int|
                    0 <= j < n && (#[trigger] start_pos(es, bs, j)) < k + 1 && end_pos(es, bs, j)
                        >= k + 1 implies act1.contains(
                    (bs[j].bottom, bs[j].top, j as usize),
                ) by {
                    if start_pos(es, bs, j) < k {
                        assert(end_pos(es, bs, j) >= k);
                        assert(act0.contains((bs[j].bottom, bs[j].top, j as usize)));
                        let t = choose|t: int|
                            0 <= t < act0.len() && act0[t] == (bs[j].bottom, bs[j].top, j as usize);
                        assert(act1[t] == (bs[j].bottom, bs[j].top, j as usize));
                    } else {
                        assert(start_pos(es, bs, j) == k);
                        assert(es[k as int] == start_ev(bs, j));
                        assert(j as usize == ev.box_id);
                        assert(j == i);
                        assert(act1[act0.len() as int] == (bs[j].bottom, bs[j].top, j as usize));
                    }
                }
                assert forall|t1: int, t2: int| 0 <= t1 < t2 < act1.len() implies act1[t1]
                    != act1[t2] by {
                    if t2 == act0.len() {
                        let tr = act0[t1];
                        if act1[t1] == act1[t2] {
                            assert((tr.2 as int) == i);
                            assert(start_pos(es, bs, i) < k);
                            assert(false);
                        }
                    }
                }
                // the marking characterization at k + 1
                assert forall|x: int| 0 <= x < n implies ((#[trigger] marked@[x]) <==> (start_pos(
                    es,
                    bs,
                    x,
                ) < k + 1 && exists|j: int|
                    0 <= j < n && j != x && boxes_overlap(bs[x], #[trigger] bs[j]) && start_pos(
                        es,
                        bs,
                        j,
                    ) < k + 1)) by {
                    if marked@[x] {
                        if mk0[x] {
                            assert(start_pos(es, bs, x) < k);
                            let j = choose|j: int|
                                0 <= j < n && j != x && boxes_overlap(bs[x], #[trigger] bs[j])
                                    && start_pos(es, bs, j) < k;
                            assert(boxes_overlap(bs[x], bs[j]) && start_pos(es, bs, j) < k + 1);
                        } else {
                            assert(any_hit);
                            let t = choose|t: int|
                                0 <= t < act1.len() && ((#[trigger] act1[t]).2 as int) == x
                                    && rows_overlap(bs[i], bs[act1[t].2 as int]);
                            if t < act0.len() {
                                lemma_active_cols(bs, es, i, x, k as int);
                                assert(boxes_overlap(bs[x], bs[i]));
                                assert(start_pos(es, bs, x) < k);
                                assert(start_pos(es, bs, i) < k + 1);
                            } else {
                                assert(x == i);
                                let t0 = choose|t0: int|
                                    0 <= t0 < act0.len() && rows_overlap(
                                        bs[i],
                                        bs[(#[trigger] act0[t0]).2 as int],
                                    );
                                let j0 = act0[t0].2 as int;
                                lemma_active_cols(bs, es, i, j0, k as int);
                                assert(boxes_overlap(bs[i], bs[j0]));
                                assert(start_pos(es, bs, j0) < k + 1);
                                assert(start_pos(es, bs, x) == k);
                            }
                        }
                    } else {
                        if start_pos(es, bs, x) < k + 1 && exists|j: int|
                            0 <= j < n && j != x && boxes_overlap(bs[x], #[trigger] bs[j])
                                && start_pos(es, bs, j) < k + 1 {
                            let j = choose|j: int|
                                0 <= j < n && j != x && boxes_overlap(bs[x], #[trigger] bs[j])
                                    && start_pos(es, bs, j) < k + 1;
                            if start_pos(es, bs, x) < k && start_pos(es, bs, j) < k {
                                assert(mk0[x]);
                                assert(marked@[x]);
                                assert(false);
                            } else if x == i {
                                assert(start_pos(es, bs, j) != k);
                                assert(start_pos(es, bs, j) < k);
                                lemma_overlap_not_ended(bs, es, i, j, k as int);
                                assert(end_pos(es, bs, j) >= k);
                                assert(act0.contains((bs[j].bottom, bs[j].top, j as usize)));
                                let t = choose|t: int|
                                    0 <= t < act0.len() && act0[t] == (
                                    bs[j].bottom,
                                    bs[j].top,
                                    j as usize,
                                    );
                                assert(rows_overlap(bs[i], bs[act0[t].2 as int]));
                                assert(any_hit);
                                assert(act1[act0.len() as int].2 as int == i);
                                assert(rows_overlap(bs[i], bs[i]));
                                assert(marked@[x]);
                                assert(false);
                            } else {
                                assert(start_pos(es, bs, x) != k);
                                assert(start_pos(es, bs, x) < k);
                                assert(j == i);
                                assert(cols_overlap(bs[i], bs[x]));
                                lemma_overlap_not_ended(bs, es, i, x, k as int);
                                assert(end_pos(es, bs, x) >= k);
                                assert(act0.contains((bs[x].bottom, bs[x].top, x as usize)));
                                let t = choose|t: int|
                                    0 <= t < act0.len() && act0[t] == (
                                    bs[x].bottom,
                                    bs[x].top,
                                    x as usize,
                                    );
                                assert(rows_overlap(bs[i], bs[act0[t].2 as int]));
                                assert(any_hit);
                                assert(act1[t] == act0[t]);
                                assert(marked@[x]);
                                assert(false);
                            }
                        }
                    }
                }
            }
        } else {
            proof {
                assert(es[k as int] == end_ev(bs, i));
                lemma_pos_unique(es, end_ev(bs, i), k as int);
                assert(end_pos(es, bs, i) == k);
                assert(start_pos(es, bs, i) < end_pos(es, bs, i));
                assert(active@.contains((bs[i].bottom, bs[i].top, i as usize)));
                assert(ev.bottom == bs[i].bottom && ev.top == bs[i].top && ev.box_id == i as usize);
            }
            let ghost act0 = active@;
            let mut a: usize = 0;
            while a < active.len() && !(active[a].0 == ev.bottom && active[a].1 == ev.top
                && active[a].2 == ev.box_id)
                invariant
                    active@ == act0,
                    a <= act0.len(),
                    forall|t: int|
                        0 <= t < a ==> (#[trigger] act0[t]) != ((ev.bottom, ev.top, ev.box_id)),
                decreases act0.len() - a,
            {
                a += 1;
            }
            proof {
                if a as int == act0.len() {
                    let t = choose|t: int|
                        0 <= t < act0.len() && act0[t] == (bs[i].bottom, bs[i].top, i as usize);
                    assert(act0[t] == ((ev.bottom, ev.top, ev.box_id)));
                    assert(false);
                }
                assert(act0[a as int] == ((ev.bottom, ev.top, ev.box_id)));
            }
            active.remove(a);
            proof {
                let act1 = active@;
                assert(act1 == act0.remove(a as int));
                assert forall|t: int| 0 <= t < act1.len() implies (#[trigger] act1[t]) == (if t < a
                    as int {
                    act0[t]
                } else {
                    act0[t + 1]
                }) by {}
                assert forall|t: int| 0 <= t < act1.len() implies {
                    let tr = #[trigger] act1[t];
                    0 <= (tr.2 as int) < n && tr.0 == bs[tr.2 as int].bottom && tr.1 == bs[tr.2
                        as int].top && start_pos(es, bs, tr.2 as int) < k + 1 && end_pos(
                        es,
                        bs,
                        tr.2 as int,
                    ) >= k + 1
                } by {
                    let tr = act1[t];
                    let j = tr.2 as int;
                    if j == i {
                        assert(tr == (bs[i].bottom, bs[i].top, i as usize));
                        if t < a as int {
                            assert(act0[t] != ((ev.bottom, ev.top, ev.box_id)));
                            assert(false);
                        } else {
                            assert(act0[t + 1] == act0[a as int]);
                            assert(false);
                        }
                    }
                    assert(end_pos(es, bs, j) >= k);
                    if end_pos(es, bs, j) == k {
                        assert(es[k as int] == end_ev(bs, j));
                        assert(j as usize == ev.box_id);
                        assert(false);
                    }
                }
                assert forall|j: int|
                    0 <= j < n && (#[trigger] start_pos(es, bs, j)) < k + 1 && end_pos(es, bs, j)
                        >= k + 1 implies act1.contains(
                    (bs[j].bottom, bs[j].top, j as usize),
                ) by {
                    assert(j != i);
                    if start_pos(es, bs, j) == k {
                        assert(es[k as int] == start_ev(bs, j));
                        assert(false);
                    }
                    assert(act0.contains((bs[j].bottom, bs[j].top, j as usize)));
                    let t = choose|t: int|
                        0 <= t < act0.len() && act0[t] == (bs[j].bottom, bs[j].top, j as usize);
                    assert(t != a as int);
                    if t < a as int {
                        assert(act1[t] == act0[t]);
                    } else {
                        assert(act1[t - 1] == act0[t]);
                    }
                }
                assert forall|x: int| 0 <= x < n implies ((#[trigger] marked@[x]) <==> (start_pos(
                    es,
                    bs,
                    x,
                ) < k + 1 && exists|j: int|
                    0 <= j < n && j != x && boxes_overlap(bs[x], #[trigger] bs[j]) && start_pos(
                        es,
                        bs,
                        j,
                    ) < k + 1)) by {
                    if start_pos(es, bs, x) == k {
                        assert(es[k as int] == start_ev(bs, x));
                        assert(false);
                    }
                    if marked@[x] {
                        let j = choose|j: int|
                            0 <= j < n && j != x && boxes_overlap(bs[x], #[trigger] bs[j])
                                && start_pos(es, bs, j) < k;
                        assert(boxes_overlap(bs[x], bs[j]) && start_pos(es, bs, j) < k + 1);
                    } else {
                        if start_pos(es, bs, x) < k + 1 && exists|j: int|
                            0 <= j < n && j != x && boxes_overlap(bs[x], #[trigger] bs[j])
                                && start_pos(es, bs, j) < k + 1 {
                            let j = choose|j: int|
                                0 <= j < n && j != x && boxes_overlap(bs[x], #[trigger] bs[j])
                                    && start_pos(es, bs, j) < k + 1;
                            if start_pos(es, bs, j) == k {
                                assert(es[k as int] == start_ev(bs, j));
                                assert(false);
                            }
                            assert(marked@[x]);
                            assert(false);
                        }
                    }
                }
            }
        }
        k += 1;
    }
    proof {
        assert forall|i: int| 0 <= i < n implies ((#[trigger] marked@[i]) <==> !lonely(bs, i)) by {
            assert(start_pos(es, bs, i) < nev);
            if marked@[i] {
                let j = choose|j: int|
                    0 <= j < n && j != i && boxes_overlap(bs[i], #[trigger] bs[j]) && start_pos(
                        es,
                        bs,
                        j,
                    ) < nev;
                assert(boxes_overlap(bs[i], bs[j]));
                assert(!lonely(bs, i));
            } else {
                if !lonely(bs, i) {
                    let j = choose|j: int|
                        0 <= j < bs.len() && j != i && boxes_overlap(bs[i], #[trigger] bs[j]);
                    assert(start_pos(es, bs, j) < nev);
                    assert(marked@[i]);
                    assert(false);
                }
            }
        }
    }
    marked
}

} // verus!

verus! {

proof fn lemma_build_no_dup(bs: Seq<BoundingBox>, e0: Seq<Interval>)
    requires
        bs.len() <= usize::MAX,
        e0.len() == 2 * bs.len(),
        forall|p: int|
            0 <= p < e0.len() ==> (#[trigger] e0[p]) == (if p % 2 == 0 {
                start_ev(bs, p / 2)
            } else {
                end_ev(bs, p / 2)
            }),
    ensures
        e0.no_duplicates(),
        forall|j: int|
            0 <= j < bs.len() ==> e0.contains(#[trigger] start_ev(bs, j)) && e0.contains(
                end_ev(bs, j),
            ),
{
    assert forall|p: int, q: int|
        0 <= p < e0.len() && 0 <= q < e0.len() && p != q implies e0[p] != e0[q] by {
        assert(0 <= p / 2 < bs.len() && 0 <= q / 2 < bs.len());
        if e0[p] == e0[q] {
            assert(e0[p].box_id == (p / 2) as usize && e0[q].box_id == (q / 2) as usize);
            assert(p / 2 == q / 2);
            assert(e0[p].is_end == (p % 2 == 1));
            assert(e0[q].is_end == (q % 2 == 1));
            assert(p == 2 * (p / 2) + p % 2);
            assert(q == 2 * (q / 2) + q % 2);
            assert(false);
        }
    }
    assert(e0.no_duplicates());
    assert forall|j: int|
        0 <= j < bs.len() implies e0.contains(#[trigger] start_ev(bs, j)) && e0.contains(
        end_ev(bs, j),
    ) by {
        assert(e0[2 * j] == start_ev(bs, j));
        assert(e0[2 * j + 1] == end_ev(bs, j));
    }
}

#[verifier::rlimit(100)]
proof fn lemma_events_prepare(bs: Seq<BoundingBox>, e0: Seq<Interval>, es: Seq<Interval>)
    requires
        bs.len() <= usize::MAX,
        e0.len() == 2 * bs.len(),
        forall|p: int|
            0 <= p < e0.len() ==> (#[trigger] e0[p]) == (if p % 2 == 0 {
                start_ev(bs, p / 2)
            } else {
                end_ev(bs, p / 2)
            }),
        forall|j: int| 0 <= j < bs.len() ==> box_geom_wf(#[trigger] bs[j]),
        ev_sorted(es),
        es.to_multiset() == e0.to_multiset(),
    ensures
        events_of_boxes(es, bs),
{
    broadcast use vstd::seq_lib::group_to_multiset_ensures;

    lemma_build_no_dup(bs, e0);
    e0.lemma_multiset_has_no_duplicates();
    vstd::seq_lib::to_multiset_len(es);
    vstd::seq_lib::to_multiset_len(e0);
    assert(es.len() == e0.len());
    assert forall|x: Interval| es.to_multiset().contains(x) implies es.to_multiset().count(x)
        == 1 by {
        assert(e0.to_multiset().contains(x));
    }
    es.lemma_multiset_has_no_duplicates_conv();
    assert(es.no_duplicates());
    assert forall|j: int|
        0 <= j < bs.len() implies es.contains(#[trigger] start_ev(bs, j)) && es.contains(
        end_ev(bs, j),
    ) by {
        assert(e0[2 * j] == start_ev(bs, j));
        assert(e0[2 * j + 1] == end_ev(bs, j));
        assert(e0.contains(start_ev(bs, j)));
        assert(e0.to_multiset().contains(start_ev(bs, j)));
        assert(es.to_multiset().contains(start_ev(bs, j)));
        assert(e0.contains(end_ev(bs, j)));
        assert(e0.to_multiset().contains(end_ev(bs, j)));
        assert(es.to_multiset().contains(end_ev(bs, j)));
    }
    assert forall|j: int| 0 <= j < bs.len() implies {
        let ps = #[trigger] start_pos(es, bs, j);
        0 <= ps < es.len() && es[ps] == start_ev(bs, j)
    } by {
        assert(es.contains(start_ev(bs, j)));
        let w1 = choose|p: int| 0 <= p < es.len() && es[p] == start_ev(bs, j);
        lemma_pos_unique(es, start_ev(bs, j), w1);
    }
    assert forall|j: int| 0 <= j < bs.len() implies {
        let pe = #[trigger] end_pos(es, bs, j);
        0 <= pe < es.len() && es[pe] == end_ev(bs, j)
    } by {
        assert(es.contains(start_ev(bs, j)));
        assert(es.contains(end_ev(bs, j)));
        let w2 = choose|p: int| 0 <= p < es.len() && es[p] == end_ev(bs, j);
        lemma_pos_unique(es, end_ev(bs, j), w2);
    }
    assert forall|j: int|
        0 <= j < bs.len() implies #[trigger] start_pos(es, bs, j) < end_pos(es, bs, j) by {
        assert(es.contains(start_ev(bs, j)));
        assert(box_geom_wf(bs[j]));
        assert(ev_le(start_ev(bs, j), end_ev(bs, j)));
        lemma_pos_lt(es, start_ev(bs, j), end_ev(bs, j));
    }
    assert forall|p: int| 0 <= p < es.len() implies #[trigger] ev_of_some_box(es, bs, p) by {
        assert(es.contains(es[p]));
        assert(es.to_multiset().contains(es[p]));
        assert(e0.to_multiset().contains(es[p]));
        assert(e0.contains(es[p]));
        let q = choose|q: int| 0 <= q < e0.len() && e0[q] == es[p];
        let jq = q / 2;
        assert(0 <= jq < bs.len());
        assert(e0[q] == (if q % 2 == 0 {
            start_ev(bs, q / 2)
        } else {
            end_ev(bs, q / 2)
        }));
        assert(0 <= jq < bs.len() && (es[p] == start_ev(bs, jq) || es[p] == end_ev(bs, jq)));
        assert(es[p].box_id == jq as usize);
        assert(ev_of_some_box(es, bs, p));
    }
    assert(es.len() == 2 * bs.len());
    assert(ev_sorted(es));
    assert(es.no_duplicates());
    assert(forall|j: int|
        0 <= j < bs.len() ==> {
            let ps = #[trigger] start_pos(es, bs, j);
            0 <= ps < es.len() && es[ps] == start_ev(bs, j)
        });
    assert(forall|j: int|
        0 <= j < bs.len() ==> {
            let pe = #[trigger] end_pos(es, bs, j);
            0 <= pe < es.len() && es[pe] == end_ev(bs, j)
        });
    assert(forall|j: int|
        0 <= j < bs.len() ==> #[trigger] start_pos(es, bs, j) < end_pos(es, bs, j));
    assert(forall|p: int| 0 <= p < es.len() ==> #[trigger] ev_of_some_box(es, bs, p));
}

/// Classifies every bounding box with a column-ordered interval sweep and
/// returns the indices, in ascending order, of exactly the boxes that
/// overlap no other box.
#[verifier::rlimit(100)]
pub fn get_non_overlap_boxes(boxes: &[BoundingBox]) -> (r: Vec<usize>)
    requires
        forall|j: int| 0 <= j < boxes@.len() ==> box_geom_wf(#[trigger] boxes@[j]),
    ensures
        forall|a: int, b: int| 0 <= a < b < r@.len() ==> r@[a] < r@[b],
        forall|a: int| 0 <= a < r@.len() ==> (#[trigger] r@[a]) < boxes@.len(),
        forall|i: int| 0 <= i < boxes@.len() ==> (r@.contains(i as usize) <==> lonely(boxes@, i)),
{
    broadcast use vstd::seq_lib::group_to_multiset_ensures;

    let ghost bs = boxes@;
    let n: usize = boxes.len();
    proof {
        assert(bs.len() == n as int);
    }
    let evs0 = build_events(boxes);
    let ghost e0 = evs0@;
    proof {
        assert(bs.len() <= usize::MAX);
        assert(evs0@.len() == 2 * boxes@.len());
        assert(e0.len() == 2 * bs.len());
        assert forall|p: int| 0 <= p < e0.len() implies (#[trigger] e0[p]) == (if p % 2 == 0 {
            start_ev(bs, p / 2)
        } else {
            end_ev(bs, p / 2)
        }) by {
            assert(evs0@[p] == (if p % 2 == 0 {
                start_ev(boxes@, p / 2)
            } else {
                end_ev(boxes@, p / 2)
            }));
        }
    }
    let evs = sort_events(evs0);
    proof {
        lemma_events_prepare(bs, e0, evs@);
        assert(events_of_boxes(evs@, boxes@));
    }
    let marked = sweep_overlaps(boxes, &evs);
    let mut r: Vec<usize> = Vec::new();
    let mut idx: usize = 0;
    while idx < n
        invariant
            bs == boxes@,
            n == bs.len(),
            marked@.len() == n,
            forall|i: int| 0 <= i < n ==> ((#[trigger] marked@[i]) <==> !lonely(bs, i)),
            idx <= n,
            forall|a: int, b: int| 0 <= a < b < r@.len() ==> r@[a] < r@[b],
            forall|a: int| 0 <= a < r@.len() ==> (#[trigger] r@[a]) < idx,
            forall|i: int| 0 <= i < idx ==> (r@.contains(i as usize) <==> lonely(bs, i)),
        decreases n - idx,
    {
        let ghost r0 = r@;
        if !marked[idx] {
            r.push(idx);
        }
        proof {
            assert forall|i: int| 0 <= i < idx + 1 implies (r@.contains(i as usize) <==> lonely(
                bs,
                i,
            )) by {
                if i < idx {
                    if r0.contains(i as usize) {
                        let t = choose|t: int| 0 <= t < r0.len() && r0[t] == i as usize;
                        assert(r@[t] == i as usize);
                    }
                    if r@.contains(i as usize) {
                        let t = choose|t: int| 0 <= t < r@.len() && r@[t] == i as usize;
                        assert(t < r0.len());
                        assert(r0[t] == i as usize);
                    }
                } else {
                    if !marked@[i] {
                        assert(r@[r@.len() - 1] == i as usize);
                    } else {
                        if r@.contains(i as usize) {
                            let t = choose|t: int| 0 <= t < r@.len() && r@[t] == i as usize;
                            if t < r0.len() {
                                assert(r0[t] < idx);
                                assert(false);
                            }
                            assert(false);
                        }
                    }
                }
            }
        }
        idx += 1;
    }
    r
}

} // verus!

verus! {

/// The rendering of a box's two display corners, 1-based, as
/// `(r1,c1)(r2,c2)`.
pub open spec fn box_render(b: BoundingBox) -> Seq<char> {
    point_render(b.bottom + 1, b.left + 1) + point_render(b.top + 1, b.right + 1)
}

impl BoundingBox {
    /// Renders the box's minimum and maximum corners 1-based.
    pub fn render(&self) -> (s: String)
        requires
            bbox_wf(*self),
            self.top < usize::MAX,
            self.right < usize::MAX,
        ensures
            s@ == box_render(*self),
    {
        let mut s = String::new();
        push_point(&mut s, self.min_left_point.row, self.min_left_point.col);
        push_point(&mut s, self.max_right_point.row, self.max_right_point.col);
        proof {
            assert(s@ =~= box_render(*self));
        }
        s
    }
}

/// Points of every shape fit strictly below `nr` rows and `nc` columns.
pub open spec fn shapes_bounded(shapes: Seq<Seq<Point>>, nr: int, nc: int) -> bool {
    forall|k: int, t: int|
        0 <= k < shapes.len() && 0 <= t < shapes[k].len() ==> (#[trigger] shapes[k][t]).row < nr
            && shapes[k][t].col < nc
}

/// Builds the bounding box of every shape, in shape order.
pub fn boxes_of_shapes(shapes: &Vec<Vec<Point>>) -> (bxs: Vec<BoundingBox>)
    requires
        forall|k: int| 0 <= k < shapes@.len() ==> (#[trigger] shapes@[k])@.len() > 0,
        exists|nr: int, nc: int|
            #[trigger] size_fits(nr, nc) && shapes_bounded(view2p(*shapes), nr, nc),
    ensures
        bxs@.len() == shapes@.len(),
        forall|k: int|
            0 <= k < shapes@.len() ==> is_bbox_of(#[trigger] bxs@[k], view2p(*shapes)[k]),
{
    let n: usize = shapes.len();
    let mut bxs: Vec<BoundingBox> = Vec::new();
    let mut k: usize = 0;
    while k < n
        invariant
            n == shapes@.len(),
            k <= n,
            bxs@.len() == k,
            forall|j: int| 0 <= j < shapes@.len() ==> (#[trigger] shapes@[j])@.len() > 0,
            exists|nr: int, nc: int|
                #[trigger] size_fits(nr, nc) && shapes_bounded(view2p(*shapes), nr, nc),
            forall|j: int|
                0 <= j < k ==> is_bbox_of(#[trigger] bxs@[j], view2p(*shapes)[j]),
        decreases n - k,
    {
        let shape = &shapes[k];
        let m: usize = shape.len();
        let mut pts: Vec<Point> = Vec::new();
        let mut t: usize = 0;
        while t < m
            invariant
                m == shape@.len(),
                t <= m,
                pts@ == shape@.take(t as int),
            decreases m - t,
        {
            pts.push(shape[t]);
            proof {
                assert(pts@ =~= shape@.take(t + 1));
            }
            t += 1;
        }
        proof {
            assert(pts@ =~= shape@);
            assert(shape@ == view2p(*shapes)[k as int]);
            let (nr, nc): (int, int) = choose|nr: int, nc: int|
                #[trigger] size_fits(nr, nc) && shapes_bounded(view2p(*shapes), nr, nc);
            assert forall|t2: int|
                0 <= t2 < pts@.len() implies (#[trigger] pts@[t2]).row < nr && pts@[t2].col
                < nc by {
                assert(view2p(*shapes)[k as int][t2] == pts@[t2]);
            }
            assert(size_fits(nr, nc) && (forall|t2: int|
                0 <= t2 < pts@.len() ==> (#[trigger] pts@[t2]).row < nr && pts@[t2].col < nc));
        }
        let b = BoundingBox::new_with_points(pts);
        bxs.push(b);
        k += 1;
    }
    bxs
}

/// Box `j` is non-overlapping and of maximal size among the
/// non-overlapping boxes.
pub open spec fn is_max_lonely(bxs: Seq<BoundingBox>, j: int) -> bool {
    &&& 0 <= j < bxs.len()
    &&& lonely(bxs, j)
    &&& (forall|j2: int|
        0 <= j2 < bxs.len() && lonely(bxs, j2) ==> (#[trigger] bxs[j2]).size <= bxs[j].size)
}

/// `result` lists, via the strictly increasing index sequence `ids`,
/// exactly the non-overlapping boxes of maximal size, in index order.
pub open spec fn selection_ids(
    bxs: Seq<BoundingBox>,
    result: Seq<BoundingBox>,
    ids: Seq<int>,
) -> bool {
    &&& (forall|a: int, b: int| 0 <= a < b < ids.len() ==> ids[a] < ids[b])
    &&& (forall|a: int| 0 <= a < ids.len() ==> 0 <= #[trigger] ids[a] < bxs.len())
    &&& result.len() == ids.len()
    &&& (forall|a: int| 0 <= a < ids.len() ==> (#[trigger] result[a]) == bxs[ids[a]])
    &&& (forall|j: int| 0 <= j < bxs.len() ==> (ids.contains(j) <==> is_max_lonely(bxs, j)))
}

/// What a successful run of the pipeline produces from grid `g`: shapes
/// partitioning the filled cells in discovery order, their bounding boxes,
/// and the selection of the largest non-overlapping boxes.
pub open spec fn pipeline_post(
    g: Seq<Seq<char>>,
    shapes: Seq<Seq<Point>>,
    bxs: Seq<BoundingBox>,
    ids: Seq<int>,
    result: Seq<BoundingBox>,
) -> bool {
    &&& shapes_of_grid(g, shapes)
    &&& bxs.len() == shapes.len()
    &&& (forall|k: int| 0 <= k < shapes.len() ==> is_bbox_of(#[trigger] bxs[k], shapes[k]))
    &&& selection_ids(bxs, result, ids)
}

/// `result` is a possible output of the pipeline on grid `g`.
pub open spec fn find_boxes_ok(g: Seq<Seq<char>>, result: Seq<BoundingBox>) -> bool {
    exists|shapes: Seq<Seq<Point>>, bxs: Seq<BoundingBox>, ids: Seq<int>|
        #[trigger] pipeline_post(g, shapes, bxs, ids, result)
}

/// Two distinct boxes both left unmarked by the overlap classifier have
/// column ranges and row ranges that do not both intersect.
pub proof fn lemma_non_overlap_closure(bxs: Seq<BoundingBox>, i: int, j: int)
    requires
        0 <= i < bxs.len(),
        0 <= j < bxs.len(),
        i != j,
        lonely(bxs, i),
        lonely(bxs, j),
    ensures
        !(rows_overlap(bxs[i], bxs[j]) && cols_overlap(bxs[i], bxs[j])),
{
}

/// If box `i` is marked overlapping because it overlaps box `j`, then box
/// `j` is marked overlapping as well.
pub proof fn lemma_marked_symmetric(bxs: Seq<BoundingBox>, i: int, j: int)
    requires
        0 <= i < bxs.len(),
        0 <= j < bxs.len(),
        i != j,
        boxes_overlap(bxs[i], bxs[j]),
    ensures
        !lonely(bxs, i),
        !lonely(bxs, j),
{
    lemma_overlap_symmetric(bxs[i], bxs[j]);
}

/// Maximality of the selection: every box of the final result has size at
/// least every non-overlapping box's size, and every non-overlapping box
/// whose size ties that maximum appears in the result.
pub proof fn lemma_selection_maximal(
    bxs: Seq<BoundingBox>,
    result: Seq<BoundingBox>,
    ids: Seq<int>,
)
    requires
        selection_ids(bxs, result, ids),
    ensures
        forall|a: int, j: int|
            0 <= a < result.len() && 0 <= j < bxs.len() && lonely(bxs, j) ==> (
            #[trigger] bxs[j]).size <= (#[trigger] result[a]).size,
        forall|j: int|
            #[trigger] is_max_lonely(bxs, j) ==> exists|a: int|
                0 <= a < result.len() && (#[trigger] result[a]) == bxs[j],
{
    assert forall|a: int, j: int|
        0 <= a < result.len() && 0 <= j < bxs.len() && lonely(bxs, j) implies (
    #[trigger] bxs[j]).size <= (#[trigger] result[a]).size by {
        assert(ids.contains(ids[a]));
        assert(is_max_lonely(bxs, ids[a]));
        assert(result[a] == bxs[ids[a]]);
    }
    assert forall|j: int| #[trigger] is_max_lonely(bxs, j) implies exists|a: int|
        0 <= a < result.len() && (#[trigger] result[a]) == bxs[j] by {
        assert(ids.contains(j));
        let a = choose|a: int| 0 <= a < ids.len() && ids[a] == j;
        assert(result[a] == bxs[j]);
    }
}

} // verus!

verus! {

/// The full pipeline: validates the input lines, discovers the maximal
/// 4-connected shapes, builds their bounding boxes, classifies overlaps by
/// the interval sweep, and returns the overlap-free boxes of greatest
/// area, in discovery order. Invalid input yields the first violation and
/// no geometry is computed.
#[verifier::rlimit(100)]
pub fn find_boxes(lines: &[String]) -> (r: Result<Vec<BoundingBox>, InputError>)
    requires
        lines_valid(lines_view(lines@)) ==> lines_view(lines@).len() * lines_view(
            lines@,
        )[0].len() <= usize::MAX,
    ensures
        r is Ok <==> lines_valid(lines_view(lines@)),
        match r {
            Ok(bs) => find_boxes_ok(lines_view(lines@), bs@),
            Err(e) => validate_spec(lines_view(lines@)) == Err::<(), InputError>(e),
        },
{
    let ghost ls = lines_view(lines@);
    match validate_input(lines) {
        Err(e) => {
            return Err(e);
        },
        Ok(ok) => {
            ok
        },
    }
    let mut matrix = convert_lines_to_matrix(lines);
    proof {
        assert(view2(matrix) == ls);
        assert forall|i: int| 0 <= i < ls.len() implies (#[trigger] ls[i]).len()
            == ls[0].len() by {}
        assert(grid_dims_ok(ls));
        assert forall|i: int, j: int|
            0 <= i < ls.len() && 0 <= j < ls[i].len() implies cell_ok(#[trigger] ls[i][j]) by {
            assert(line_ok(ls[i]));
        }
        assert(grid_cells_ok(ls));
    }
    let rows: usize = matrix.len();
    let cols: usize = if rows > 0 {
        matrix[0].len()
    } else {
        0
    };
    let shapes = collect_shapes(&mut matrix);
    let ghost sh = view2p(shapes);
    proof {
        assert(shapes_of_grid(ls, sh));
        assert(size_fits(rows as int, cols as int));
        assert forall|k: int, t: int|
            0 <= k < sh.len() && 0 <= t < sh[k].len() implies (#[trigger] sh[k][t]).row < rows
                && sh[k][t].col < cols by {
            let p = sh[k][t];
            assert(in_bounds(ls, p) && cell_at(ls, p) == '*');
            assert(ls[p.row as int].len() == ls[0].len());
        }
        assert(shapes_bounded(sh, rows as int, cols as int));
        assert forall|k: int| 0 <= k < shapes@.len() implies (#[trigger] shapes@[k])@.len()
            > 0 by {
            assert(sh[k] == shapes@[k]@);
            assert(sh[k].len() > 0);
        }
    }
    let boxes_v = boxes_of_shapes(&shapes);
    let ghost bxs = boxes_v@;
    proof {
        assert forall|j: int| 0 <= j < bxs.len() implies box_geom_wf(#[trigger] bxs[j]) by {
            assert(is_bbox_of(bxs[j], sh[j]));
        }
    }
    let ids = get_non_overlap_boxes(boxes_v.as_slice());
    let mut result: Vec<BoundingBox> = Vec::new();
    let ghost mut sel: Seq<int> = Seq::empty();
    if ids.len() == 0 {
        proof {
            assert forall|j: int| 0 <= j < bxs.len() implies !is_max_lonely(bxs, j) by {
                if lonely(bxs, j) {
                    assert(ids@.contains(j as usize));
                    assert(false);
                }
            }
            assert(selection_ids(bxs, result@, sel));
            assert(pipeline_post(ls, sh, bxs, sel, result@));
        }
        return Ok(result);
    }
    let id0: usize = ids[0];
    let mut largest: usize = boxes_v[id0].size;
    let mut a: usize = 0;
    while a < ids.len()
        invariant
            bxs == boxes_v@,
            forall|c: int, d: int| 0 <= c < d < ids@.len() ==> ids@[c] < ids@[d],
            forall|c: int| 0 <= c < ids@.len() ==> (#[trigger] ids@[c]) < bxs.len(),
            ids@.len() > 0,
            id0 == ids@[0],
            a <= ids@.len(),
            largest == bxs[id0 as int].size || (exists|c: int|
                0 <= c < a && largest == bxs[(#[trigger] ids@[c]) as int].size),
            forall|c: int| 0 <= c < a ==> bxs[(#[trigger] ids@[c]) as int].size <= largest,
        decreases ids@.len() - a,
    {
        let id: usize = ids[a];
        let cur: usize = boxes_v[id].size;
        if cur >= largest {
            largest = cur;
        }
        a += 1;
    }
    let mut t: usize = 0;
    while t < ids.len()
        invariant
            bxs == boxes_v@,
            forall|c: int, d: int| 0 <= c < d < ids@.len() ==> ids@[c] < ids@[d],
            forall|c: int| 0 <= c < ids@.len() ==> (#[trigger] ids@[c]) < bxs.len(),
            t <= ids@.len(),
            forall|c: int, d: int| 0 <= c < d < sel.len() ==> sel[c] < sel[d],
            forall|c: int| 0 <= c < sel.len() ==> 0 <= #[trigger] sel[c] < bxs.len(),
            result@.len() == sel.len(),
            forall|c: int| 0 <= c < sel.len() ==> (#[trigger] result@[c]) == bxs[sel[c]],
            forall|c: int|
                0 <= c < sel.len() ==> exists|d: int|
                    0 <= d < t && (#[trigger] sel[c]) == ids@[d] as int,
            forall|j: int|
                sel.contains(j) <==> (exists|d: int|
                    0 <= d < t && j == (#[trigger] ids@[d]) as int && bxs[j].size == largest),
        decreases ids@.len() - t,
    {
        let ghost sel0 = sel;
        let id: usize = ids[t];
        if boxes_v[id].size == largest {
            result.push(boxes_v[id]);
            proof {
                sel = sel.push(id as int);
                assert forall|c: int, d: int| 0 <= c < d < sel.len() implies sel[c] < sel[d] by {
                    if d == sel.len() - 1 {
                        let d0 = choose|d0: int|
                            0 <= d0 < t && (#[trigger] sel0[c]) == ids@[d0] as int;
                        assert(ids@[d0] < ids@[t as int]);
                    }
                }
                assert forall|j: int| sel.contains(j) implies (exists|d: int|
                    0 <= d < t + 1 && j == (#[trigger] ids@[d]) as int && bxs[j].size
                        == largest) by {
                    let c = choose|c: int| 0 <= c < sel.len() && sel[c] == j;
                    if c < sel0.len() {
                        assert(sel0.contains(j));
                    } else {
                        assert(j == ids@[t as int] as int);
                    }
                }
                assert forall|j: int|
                    (exists|d: int|
                        0 <= d < t + 1 && j == (#[trigger] ids@[d]) as int && bxs[j].size
                            == largest) implies sel.contains(j) by {
                    let d = choose|d: int|
                        0 <= d < t + 1 && j == (#[trigger] ids@[d]) as int && bxs[j].size
                            == largest;
                    if d < t {
                        assert(sel0.contains(j));
                        let c = choose|c: int| 0 <= c < sel0.len() && sel0[c] == j;
                        assert(sel[c] == j);
                    } else {
                        assert(sel[sel.len() - 1] == j);
                    }
                }
            }
        } else {
            proof {
                assert forall|j: int| sel.contains(j) implies (exists|d: int|
                    0 <= d < t + 1 && j == (#[trigger] ids@[d]) as int && bxs[j].size
                        == largest) by {}
                assert forall|j: int|
                    (exists|d: int|
                        0 <= d < t + 1 && j == (#[trigger] ids@[d]) as int && bxs[j].size
                            == largest) implies sel.contains(j) by {
                    let d = choose|d: int|
                        0 <= d < t + 1 && j == (#[trigger] ids@[d]) as int && bxs[j].size
                            == largest;
                    assert(d < t);
                }
            }
        }
        t += 1;
    }
    proof {
        // the selection holds exactly the maximal non-overlapping boxes
        assert forall|j: int| 0 <= j < bxs.len() implies (sel.contains(j) <==> is_max_lonely(
            bxs,
            j,
        )) by {
            if sel.contains(j) {
                assert(lonely(bxs, j)) by {
                    let d = choose|d: int|
                        0 <= d < ids@.len() && j == (#[trigger] ids@[d]) as int && bxs[j].size
                            == largest;
                    assert(ids@.contains(j as usize));
                }
                assert forall|j2: int|
                    0 <= j2 < bxs.len() && lonely(bxs, j2) implies (#[trigger] bxs[j2]).size
                    <= bxs[j].size by {
                    assert(ids@.contains(j2 as usize));
                    let d2 = choose|d2: int| 0 <= d2 < ids@.len() && ids@[d2] == j2 as usize;
                    assert(bxs[j2].size <= largest);
                }
            }
            if is_max_lonely(bxs, j) {
                assert(ids@.contains(j as usize));
                let d = choose|d: int| 0 <= d < ids@.len() && ids@[d] == j as usize;
                assert(ids@[d] == j as usize);
                assert(bxs[(ids@[d]) as int].size <= largest);
                assert(bxs[j].size <= largest);
                if largest == bxs[id0 as int].size {
                    assert(ids@.contains(id0));
                    assert(lonely(bxs, id0 as int));
                    assert(bxs[id0 as int].size <= bxs[j].size);
                } else {
                    let c = choose|c: int|
                        0 <= c < ids@.len() && largest == bxs[(#[trigger] ids@[c]) as int].size;
                    assert(ids@.contains(ids@[c]));
                    assert(lonely(bxs, ids@[c] as int));
                    assert(bxs[ids@[c] as int].size <= bxs[j].size);
                }
                assert(bxs[j].size == largest);
            }
        }
        assert(selection_ids(bxs, result@, sel));
        assert(pipeline_post(ls, sh, bxs, sel, result@));
    }
    Ok(result)
}

} // verus!
