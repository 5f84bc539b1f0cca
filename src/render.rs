//! Vertex data for a renderer, in normalized device coordinates.
//!
//! Every coordinate is given exactly, as an integer numerator: an x value
//! stands for `numerator / width`, a y value for `numerator / height`. The
//! buffers alternate x and y, so an entry at an even position is over the
//! width and one at an odd position is over the height.

use vstd::prelude::*;
use vstd::arithmetic::div_mod::lemma_fundamental_div_mod_converse;
use crate::rules::{lemma_position, lemma_row_in_range};
use crate::universe::Universe;

verus! {

/// Numerator of the centre of column (or row) `k` of `n`:
/// `((k + 0.5) * 2) / n - 1 == (2k + 1 - n) / n`.
pub open spec fn center(k: int, n: int) -> int {
    2 * k + 1 - n
}

/// Numerator of the boundary before column (or row) `k` of `n`:
/// `k * 2 / n - 1 == (2k - n) / n`.
pub open spec fn boundary(k: int, n: int) -> int {
    2 * k - n
}

/// Number of live cells among the first `n` of `g`.
pub open spec fn count_alive(g: Seq<bool>, n: nat) -> nat
    decreases n,
{
    if n == 0 {
        0
    } else {
        count_alive(g, (n - 1) as nat) + if g[n - 1] {
            1nat
        } else {
            0nat
        }
    }
}

/// The centre of each live cell among the first `n` of a row-major grid
/// `w` by `h`, in scan order, as x then y.
pub open spec fn cell_points(g: Seq<bool>, w: nat, h: nat, n: nat) -> Seq<int>
    decreases n,
{
    if n == 0 {
        Seq::empty()
    } else {
        let i = n - 1;
        let before = cell_points(g, w, h, (n - 1) as nat);
        if g[i] {
            before + seq![center(i % (w as int), w as int), center(i / (w as int), h as int)]
        } else {
            before
        }
    }
}

/// One full-height segment `(x, -1) - (x, 1)` for each inner column boundary,
/// left to right.
pub open spec fn vertical_lines(w: nat, h: nat) -> Seq<int> {
    Seq::new(
        (4 * (w - 1)) as nat,
        |j: int|
            if j % 4 == 1 {
                -(h as int)
            } else if j % 4 == 3 {
                h as int
            } else {
                boundary(j / 4 + 1, w as int)
            },
    )
}

/// One full-width segment `(-1, y) - (1, y)` for each inner row boundary,
/// bottom to top.
pub open spec fn horizontal_lines(w: nat, h: nat) -> Seq<int> {
    Seq::new(
        (4 * (h - 1)) as nat,
        |j: int|
            if j % 4 == 0 {
                -(w as int)
            } else if j % 4 == 2 {
                w as int
            } else {
                boundary(j / 4 + 1, h as int)
            },
    )
}

/// The grid overlay: the vertical segments, then the horizontal ones.
pub open spec fn grid_lines(w: nat, h: nat) -> Seq<int> {
    vertical_lines(w, h) + horizontal_lines(w, h)
}

/// Every x numerator (even position) lies in `[-w, w]` and every y numerator
/// (odd position) in `[-h, h]`: each coordinate lies in `[-1, 1]`.
pub open spec fn in_unit_square(s: Seq<int>, w: nat, h: nat) -> bool {
    forall|k: int|
        0 <= k < s.len() ==> if k % 2 == 0 {
            -(w as int) <= #[trigger] s[k] <= w as int
        } else {
            -(h as int) <= s[k] <= h as int
        }
}

/// The entries of `s` as mathematical integers.
pub open spec fn ints(s: Seq<i128>) -> Seq<int> {
    s.map_values(|v: i128| v as int)
}

/// The cell buffer holds two numbers per live cell.
pub proof fn lemma_cell_points_len(g: Seq<bool>, w: nat, h: nat, n: nat)
    requires
        n <= g.len(),
    ensures
        cell_points(g, w, h, n).len() == 2 * count_alive(g, n),
    decreases n,
{
    if n > 0 {
        lemma_cell_points_len(g, w, h, (n - 1) as nat);
    }
}

/// Every cell centre lies inside the unit square.
pub proof fn lemma_cell_points_range(g: Seq<bool>, w: nat, h: nat, n: nat)
    requires
        w >= 1,
        h >= 1,
        n <= g.len(),
        g.len() == w * h,
    ensures
        in_unit_square(cell_points(g, w, h, n), w, h),
    decreases n,
{
    if n > 0 {
        let i = n - 1;
        lemma_cell_points_range(g, w, h, (n - 1) as nat);
        lemma_cell_points_len(g, w, h, (n - 1) as nat);
        if g[i] {
            let before = cell_points(g, w, h, (n - 1) as nat);
            let s = cell_points(g, w, h, n);
            lemma_row_in_range(i, w as int, h as int);
            assert forall|k: int| 0 <= k < s.len() implies if k % 2 == 0 {
                -(w as int) <= #[trigger] s[k] <= w as int
            } else {
                -(h as int) <= s[k] <= h as int
            } by {
                if k < before.len() {
                    assert(s[k] == before[k]);
                }
            }
        }
    }
}

/// The line buffer holds two numbers per vertex: four per segment, one
/// segment per inner boundary.
pub proof fn lemma_grid_lines_len(w: nat, h: nat)
    requires
        w >= 1,
        h >= 1,
    ensures
        grid_lines(w, h).len() == 2 * (2 * ((w - 1) + (h - 1))),
{
}

/// Every end point of the grid overlay lies inside the unit square.
pub proof fn lemma_grid_lines_range(w: nat, h: nat)
    requires
        w >= 1,
        h >= 1,
    ensures
        in_unit_square(grid_lines(w, h), w, h),
{
    let v = vertical_lines(w, h);
    let s = grid_lines(w, h);
    assert forall|k: int| 0 <= k < s.len() implies if k % 2 == 0 {
        -(w as int) <= #[trigger] s[k] <= w as int
    } else {
        -(h as int) <= s[k] <= h as int
    } by {
        if k < v.len() {
            assert(s[k] == v[k]);
        } else {
            let j = k - v.len();
            assert(s[k] == horizontal_lines(w, h)[j]);
            assert(j % 2 == k % 2);
        }
    }
}

impl Universe {
    /// The centre of every live cell, in scan order (row by row, column by
    /// column), as an x numerator over the width followed by a y numerator
    /// over the height.
    pub fn get_gl_cells_buffer(&self) -> (r: Vec<i128>)
        requires
            self.wf(),
        ensures
            ints(r@) == cell_points(
                self.grid(),
                self.spec_width(),
                self.spec_height(),
                self.grid().len(),
            ),
            r@.len() == 2 * count_alive(self.grid(), self.grid().len()),
            in_unit_square(ints(r@), self.spec_width(), self.spec_height()),
    {
        let ghost g = self.grid();
        let width = self.width();
        let height = self.height();
        let ghost w = width as nat;
        let ghost h = height as nat;
        let mut out: Vec<i128> = Vec::new();
        let mut row: usize = 0;
        while row < height
            invariant
                self.wf(),
                g == self.grid(),
                w == self.spec_width(),
                h == self.spec_height(),
                width == w,
                height == h,
                row <= h,
                ints(out@) == cell_points(g, w, h, (row * w) as nat),
            decreases h - row,
        {
            let mut col: usize = 0;
            while col < width
                invariant
                    self.wf(),
                    g == self.grid(),
                    w == self.spec_width(),
                    h == self.spec_height(),
                    width == w,
                    height == h,
                    row < h,
                    col <= w,
                    ints(out@) == cell_points(g, w, h, (row * w + col) as nat),
                decreases w - col,
            {
                proof {
                    lemma_position(w as int, h as int, row as int, col as int);
                }
                let ghost before = out@;
                if let crate::universe::Cell::Alive = self.get_cell(row, col) {
                    let x = 2 * (col as i128) + 1 - (width as i128);
                    let y = 2 * (row as i128) + 1 - (height as i128);
                    out.push(x);
                    out.push(y);
                    proof {
                        assert(ints(out@) =~= ints(before) + seq![x as int, y as int]);
                    }
                }
                col += 1;
            }
            proof {
                assert(row * w + w == (row + 1) * w) by (nonlinear_arith);
            }
            row += 1;
        }
        proof {
            assert(h * w == w * h) by (nonlinear_arith);
            lemma_cell_points_len(g, w, h, g.len());
            lemma_cell_points_range(g, w, h, g.len());
        }
        out
    }

    /// The grid overlay: for each inner column boundary, left to right, the
    /// segment `(x, -1) - (x, 1)`; then for each inner row boundary, the
    /// segment `(-1, y) - (1, y)`; each as `x1, y1, x2, y2`, an x numerator
    /// over the width and a y numerator over the height.
    pub fn get_gl_line_buffer(&self) -> (r: Vec<i128>)
        requires
            self.wf(),
        ensures
            ints(r@) == grid_lines(self.spec_width(), self.spec_height()),
            r@.len() == 2 * (2 * ((self.spec_width() - 1) + (self.spec_height() - 1))),
            in_unit_square(ints(r@), self.spec_width(), self.spec_height()),
    {
        let width = self.width();
        let height = self.height();
        let ghost w = width as nat;
        let ghost h = height as nat;
        let wide = width as i128;
        let high = height as i128;
        let mut out: Vec<i128> = Vec::new();
        let mut col: usize = 1;
        while col < width
            invariant
                1 <= col <= w,
                width == w,
                height == h,
                wide == w,
                high == h,
                out@.len() == 4 * (col - 1),
                ints(out@) == vertical_lines(w, h).take(4 * (col - 1)),
            decreases w - col,
        {
            let ghost before = out@;
            let x = 2 * (col as i128) - wide;
            out.push(x);
            out.push(-high);
            out.push(x);
            out.push(high);
            proof {
                let start = 4 * (col - 1);
                assert forall|j: int| start <= j < start + 4 implies ints(out@)[j]
                    == vertical_lines(w, h)[j] by {
                    lemma_fundamental_div_mod_converse(j, 4, col - 1, j - start);
                }
                assert forall|j: int| 0 <= j < start implies ints(out@)[j] == ints(before)[j] by {}
                assert(ints(out@) =~= vertical_lines(w, h).take(4 * col));
            }
            col += 1;
        }
        let ghost vertical = out@;
        proof {
            assert(vertical_lines(w, h).take(4 * (w - 1)) =~= vertical_lines(w, h));
            assert(ints(out@) =~= vertical_lines(w, h) + horizontal_lines(w, h).take(0));
        }
        let mut row: usize = 1;
        while row < height
            invariant
                1 <= row <= h,
                width == w,
                height == h,
                wide == w,
                high == h,
                ints(vertical) == vertical_lines(w, h),
                out@.len() == vertical.len() + 4 * (row - 1),
                ints(out@) == vertical_lines(w, h) + horizontal_lines(w, h).take(4 * (row - 1)),
            decreases h - row,
        {
            let ghost before = out@;
            let y = 2 * (row as i128) - high;
            out.push(-wide);
            out.push(y);
            out.push(wide);
            out.push(y);
            proof {
                let start = 4 * (row - 1);
                let base = vertical.len() as int;
                assert forall|k: int| base + start <= k < base + start + 4 implies ints(out@)[k]
                    == horizontal_lines(w, h)[k - base] by {
                    lemma_fundamental_div_mod_converse(k - base, 4, row - 1, k - base - start);
                }
                assert forall|j: int| 0 <= j < base + start implies ints(out@)[j] == ints(
                    before,
                )[j] by {}
                let target = vertical_lines(w, h) + horizontal_lines(w, h).take(4 * row);
                let earlier = vertical_lines(w, h) + horizontal_lines(w, h).take(4 * (row - 1));
                assert(ints(out@).len() == target.len());
                assert forall|k: int| 0 <= k < target.len() implies ints(out@)[k] == target[k] by {
                    if k < base + start {
                        assert(ints(before)[k] == earlier[k]);
                    }
                }
                assert(ints(out@) =~= target);
            }
            row += 1;
        }
        proof {
            assert(vertical_lines(w, h).take(4 * (w - 1)) =~= vertical_lines(w, h));
            assert(horizontal_lines(w, h).take(4 * (h - 1)) =~= horizontal_lines(w, h));
            lemma_grid_lines_len(w, h);
            lemma_grid_lines_range(w, h);
        }
        out
    }

    /// Number of vertices in the grid overlay: two per inner boundary.
    pub fn get_gl_line_vertex_count(&self) -> (r: usize)
        requires
            self.wf(),
            2 * ((self.spec_width() - 1) + (self.spec_height() - 1)) <= usize::MAX,
        ensures
            r == 2 * ((self.spec_width() - 1) + (self.spec_height() - 1)),
    {
        ((self.width() - 1) + (self.height() - 1)) * 2
    }
}

} // verus!
