//! Finds maximal 4-connected clusters of filled cells in a character grid,
//! computes their axis-aligned bounding boxes, and reports the overlap-free
//! boxes of greatest area.

pub mod boxes;
pub mod render;

use vstd::prelude::*;
use crate::boxes::BoundingBox;
use crate::boxes::bbox_wf;
use crate::boxes::boxes_of_shapes;
use crate::boxes::box_render;
use crate::boxes::collect_shapes;
use crate::boxes::grid_cells_ok;
use crate::boxes::grid_dims_ok;
use crate::boxes::in_bounds;
use crate::boxes::is_bbox_of;
use crate::boxes::cell_at;
use crate::boxes::Point;
use crate::boxes::shapes_bounded;
use crate::boxes::shapes_of_grid;
use crate::boxes::size_fits;
use crate::boxes::view2;
use crate::boxes::view2p;

verus! {

/// A line with a single trailing carriage return removed, as a `\r\n`
/// line ending leaves it.
pub open spec fn strip_cr(l: Seq<char>) -> Seq<char> {
    if l.len() > 0 && l.last() == '\r' {
        l.drop_last()
    } else {
        l
    }
}

/// The lines of `s` from position `k` on, given the currently accumulated
/// partial line `cur` and the lines `acc` already completed: text splits
/// at each newline, a `\r\n` ending drops its `\r`, and a final segment is
/// kept only when non-empty.
pub open spec fn split_acc(
    s: Seq<char>,
    k: int,
    cur: Seq<char>,
    acc: Seq<Seq<char>>,
) -> Seq<Seq<char>>
    decreases s.len() - k,
{
    if k < 0 || k >= s.len() {
        if cur.len() > 0 {
            acc.push(cur)
        } else {
            acc
        }
    } else if s[k] == '\n' {
        split_acc(s, k + 1, Seq::empty(), acc.push(strip_cr(cur)))
    } else {
        split_acc(s, k + 1, cur.push(s[k]), acc)
    }
}

/// The lines of a text, as `str::lines` splits them.
pub open spec fn lines_split(s: Seq<char>) -> Seq<Seq<char>> {
    split_acc(s, 0, Seq::empty(), Seq::empty())
}

/// Splits a text into its lines as rows of characters.
pub fn split_lines(data: &str) -> (m: Vec<Vec<char>>)
    ensures
        view2(m) == lines_split(data@),
{
    let n: usize = data.unicode_len();
    let mut m: Vec<Vec<char>> = Vec::new();
    let mut cur: Vec<char> = Vec::new();
    let mut k: usize = 0;
    proof {
        assert(view2(m) =~= Seq::<Seq<char>>::empty());
    }
    while k < n
        invariant
            n == data@.len(),
            k <= n,
            lines_split(data@) == split_acc(data@, k as int, cur@, view2(m)),
        decreases n - k,
    {
        let ghost m0 = view2(m);
        let ghost cur0 = cur@;
        let c = data.get_char(k);
        if c == '\n' {
            let mut line = cur;
            if line.len() > 0 {
                let lastc = line[line.len() - 1];
                if lastc == '\r' {
                    line.pop();
                }
            }
            proof {
                assert(line@ == strip_cr(cur0));
            }
            m.push(line);
            cur = Vec::new();
            proof {
                assert(view2(m) =~= m0.push(strip_cr(cur0)));
            }
        } else {
            cur.push(c);
        }
        k += 1;
    }
    if cur.len() > 0 {
        let ghost m0 = view2(m);
        let ghost cur0 = cur@;
        m.push(cur);
        proof {
            assert(view2(m) =~= m0.push(cur0));
        }
    }
    m
}

/// What one rendered line per bounding box, joined by newlines, looks
/// like.
pub open spec fn render_lines(bxs: Seq<BoundingBox>) -> Seq<char>
    decreases bxs.len(),
{
    if bxs.len() == 0 {
        Seq::empty()
    } else if bxs.len() == 1 {
        box_render(bxs[0])
    } else {
        render_lines(bxs.drop_last()) + seq!['\n'] + box_render(bxs.last())
    }
}

/// What a run over grid `g` may produce: the discovered shapes, their
/// bounding boxes, and the rendering of every box in discovery order.
pub open spec fn all_boxes_post(
    g: Seq<Seq<char>>,
    shapes: Seq<Seq<Point>>,
    bxs: Seq<BoundingBox>,
    out: Seq<char>,
) -> bool {
    &&& shapes_of_grid(g, shapes)
    &&& bxs.len() == shapes.len()
    &&& (forall|k: int| 0 <= k < shapes.len() ==> is_bbox_of(#[trigger] bxs[k], shapes[k]))
    &&& out == render_lines(bxs)
}

/// `out` is a possible rendering of every shape's bounding box of grid
/// `g`.
pub open spec fn min_bb_ok(g: Seq<Seq<char>>, out: Seq<char>) -> bool {
    exists|shapes: Seq<Seq<Point>>, bxs: Seq<BoundingBox>|
        #[trigger] all_boxes_post(g, shapes, bxs, out)
}

/// Splits a text into grid lines, discovers every 4-connected shape, and
/// renders each shape's bounding box corners 1-based, one line per box,
/// in discovery order.
pub fn min_bounding_boxes(data: &str) -> (out: String)
    requires
        grid_dims_ok(lines_split(data@)),
        grid_cells_ok(lines_split(data@)),
        lines_split(data@).len() > 0 ==> lines_split(data@).len() * lines_split(data@)[0].len()
            <= usize::MAX,
    ensures
        min_bb_ok(lines_split(data@), out@),
{
    let ghost g = lines_split(data@);
    let mut matrix = split_lines(data);
    let rows: usize = matrix.len();
    let cols: usize = if rows > 0 {
        matrix[0].len()
    } else {
        0
    };
    proof {
        assert(view2(matrix) == g);
        if rows > 0 {
            assert(g[0] == matrix@[0]@);
        }
        assert(size_fits(rows as int, cols as int));
    }
    let shapes = collect_shapes(&mut matrix);
    let ghost sh = view2p(shapes);
    proof {
        assert(shapes_of_grid(g, sh));
        assert forall|k: int, t: int|
            0 <= k < sh.len() && 0 <= t < sh[k].len() implies (#[trigger] sh[k][t]).row < rows
                && sh[k][t].col < cols by {
            let p = sh[k][t];
            assert(in_bounds(g, p) && cell_at(g, p) == '*');
            assert(g[p.row as int].len() == g[0].len());
        }
        assert(shapes_bounded(sh, rows as int, cols as int));
        assert forall|k: int| 0 <= k < shapes@.len() implies (#[trigger] shapes@[k])@.len()
            > 0 by {
            assert(sh[k] == shapes@[k]@);
            assert(sh[k].len() > 0);
        }
    }
    let bxs = boxes_of_shapes(&shapes);
    proof {
        assert forall|k: int|
            0 <= k < bxs@.len() implies bbox_wf(#[trigger] bxs@[k]) && bxs@[k].top < usize::MAX
                && bxs@[k].right < usize::MAX by {
            assert(is_bbox_of(bxs@[k], sh[k]));
            let t = choose|t: int| 0 <= t < sh[k].len() && (#[trigger] sh[k][t]).row
                == bxs@[k].top;
            let t2 = choose|t2: int| 0 <= t2 < sh[k].len() && (#[trigger] sh[k][t2]).col
                == bxs@[k].right;
            assert(sh[k][t].row < rows);
            assert(sh[k][t2].col < cols);
        }
    }
    let n: usize = bxs.len();
    let mut out = String::new();
    let mut k: usize = 0;
    proof {
        reveal_strlit("\n");
    }
    while k < n
        invariant
            n == bxs@.len(),
            k <= n,
            forall|j: int|
                0 <= j < bxs@.len() ==> bbox_wf(#[trigger] bxs@[j]) && bxs@[j].top < usize::MAX
                    && bxs@[j].right < usize::MAX,
            out@ == render_lines(bxs@.take(k as int)),
            "\n"@ == seq!['\n'],
        decreases n - k,
    {
        if k > 0 {
            out.append("\n");
        }
        let s = bxs[k].render();
        out.append(s.as_str());
        proof {
            assert(bxs@.take(k + 1).drop_last() =~= bxs@.take(k as int));
            assert(bxs@.take(k + 1).last() == bxs@[k as int]);
            if k == 0 {
                assert(out@ =~= render_lines(bxs@.take(1)));
            } else {
                assert(out@ =~= render_lines(bxs@.take(k as int)) + seq!['\n'] + box_render(
                    bxs@[k as int],
                ));
            }
        }
        k += 1;
    }
    proof {
        assert(bxs@.take(n as int) =~= bxs@);
        assert(all_boxes_post(g, sh, bxs@, out@));
    }
    out
}

} // verus!
