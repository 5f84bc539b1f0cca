//! The mathematical model of a generation: a row-major sequence of cells on a
//! torus of `w` columns and `h` rows, and the B3/S23 rule that steps it.

use vstd::prelude::*;
use vstd::arithmetic::div_mod::{lemma_fundamental_div_mod, lemma_fundamental_div_mod_converse};

verus! {

/// The cell at row `r`, column `c` of a row-major grid `w` columns wide.
pub open spec fn cell_at(g: Seq<bool>, w: nat, r: int, c: int) -> bool {
    g[r * w + c]
}

/// 1 when the cell at offset (`dr`, `dc`) from (`r`, `c`), taken modulo the
/// grid's size, is alive, else 0.
pub open spec fn neighbor(g: Seq<bool>, w: nat, h: nat, r: int, c: int, dr: int, dc: int) -> int {
    if cell_at(g, w, (r + dr) % (h as int), (c + dc) % (w as int)) {
        1
    } else {
        0
    }
}

/// The number of live cells among the eight around (`r`, `c`) on the torus;
/// the offset -1 is written `h - 1` or `w - 1`. On a grid one cell wide or
/// high a cell may be counted more than once.
pub open spec fn live_neighbors(g: Seq<bool>, w: nat, h: nat, r: int, c: int) -> int {
    let up = h - 1;
    let left = w - 1;
    neighbor(g, w, h, r, c, up, left) + neighbor(g, w, h, r, c, up, 0) + neighbor(
        g,
        w,
        h,
        r,
        c,
        up,
        1,
    ) + neighbor(g, w, h, r, c, 0, left) + neighbor(g, w, h, r, c, 0, 1) + neighbor(
        g,
        w,
        h,
        r,
        c,
        1,
        left,
    ) + neighbor(g, w, h, r, c, 1, 0) + neighbor(g, w, h, r, c, 1, 1)
}

/// The Life rule: a live cell survives with two or three live neighbours, a
/// dead one is born with exactly three; every other cell is dead next.
pub open spec fn next_state(alive: bool, n: int) -> bool {
    if alive {
        n == 2 || n == 3
    } else {
        n == 3
    }
}

/// One generation of the whole grid, each cell computed from `g` alone.
pub open spec fn step(g: Seq<bool>, w: nat, h: nat) -> Seq<bool> {
    Seq::new(
        w * h,
        |i: int| next_state(g[i], live_neighbors(g, w, h, i / (w as int), i % (w as int))),
    )
}

/// The grid after `n` generations.
pub open spec fn generations(g: Seq<bool>, w: nat, h: nat, n: nat) -> Seq<bool>
    decreases n,
{
    if n == 0 {
        g
    } else {
        step(generations(g, w, h, (n - 1) as nat), w, h)
    }
}

/// A grid of `n` dead cells.
pub open spec fn all_dead(n: nat) -> Seq<bool> {
    Seq::new(n, |i: int| false)
}

/// A position inside a `w` by `h` grid lies inside its row-major sequence and
/// is recovered from it by division.
pub proof fn lemma_position(w: int, h: int, r: int, c: int)
    requires
        0 <= r < h,
        0 <= c < w,
    ensures
        0 <= r * w + c < w * h,
        (r * w + c) / w == r,
        (r * w + c) % w == c,
{
    assert(0 <= r * w + c < w * h) by (nonlinear_arith)
        requires
            0 <= r < h,
            0 <= c < w,
    ;
    lemma_fundamental_div_mod_converse(r * w + c, w, r, c);
}

/// A row-major position below `w * h` names a row below `h` and a column
/// below `w`.
pub proof fn lemma_row_in_range(i: int, w: int, h: int)
    requires
        w >= 1,
        0 <= i < w * h,
    ensures
        0 <= i / w < h,
        0 <= i % w < w,
{
    let q = i / w;
    let r = i % w;
    lemma_fundamental_div_mod(i, w);
    assert(0 <= q < h) by (nonlinear_arith)
        requires
            i == w * q + r,
            0 <= r < w,
            0 <= i < w * h,
            w >= 1,
    ;
}

/// Adding an offset of at most `n` to a position below `n` wraps at most once.
pub proof fn lemma_wrap(x: int, d: int, n: int)
    requires
        0 <= x < n,
        0 <= d <= n,
    ensures
        (x + d) % n == if x + d >= n {
            x + d - n
        } else {
            x + d
        },
{
    if x + d >= n {
        lemma_fundamental_div_mod_converse(x + d, n, 1, x + d - n);
    } else {
        lemma_fundamental_div_mod_converse(x + d, n, 0, x + d);
    }
}

/// The cell at an offset of at most the grid's size from a cell of the grid,
/// wrapped around, is a cell of the grid.
pub proof fn lemma_neighbor_position(w: int, h: int, r: int, c: int, dr: int, dc: int)
    requires
        0 <= r < h,
        0 <= c < w,
        0 <= dr <= h,
        0 <= dc <= w,
    ensures
        0 <= (r + dr) % h < h,
        0 <= (c + dc) % w < w,
        0 <= ((r + dr) % h) * w + (c + dc) % w < w * h,
{
    lemma_wrap(r, dr, h);
    lemma_wrap(c, dc, w);
    lemma_position(w, h, (r + dr) % h, (c + dc) % w);
}

/// Every cell of an all-dead grid has no live neighbour.
pub proof fn lemma_dead_grid_no_neighbors(w: nat, h: nat, r: int, c: int)
    requires
        w >= 1,
        h >= 1,
        0 <= r < h,
        0 <= c < w,
    ensures
        live_neighbors(all_dead(w * h), w, h, r, c) == 0,
{
    let (wi, hi) = (w as int, h as int);
    lemma_neighbor_position(wi, hi, r, c, hi - 1, wi - 1);
    lemma_neighbor_position(wi, hi, r, c, hi - 1, 0);
    lemma_neighbor_position(wi, hi, r, c, hi - 1, 1);
    lemma_neighbor_position(wi, hi, r, c, 0, wi - 1);
    lemma_neighbor_position(wi, hi, r, c, 0, 1);
    lemma_neighbor_position(wi, hi, r, c, 1, wi - 1);
    lemma_neighbor_position(wi, hi, r, c, 1, 0);
    lemma_neighbor_position(wi, hi, r, c, 1, 1);
}

/// A generation of dead cells stays dead: no cell has neighbours to be born from.
pub proof fn lemma_step_all_dead(w: nat, h: nat)
    requires
        w >= 1,
        h >= 1,
    ensures
        step(all_dead(w * h), w, h) == all_dead(w * h),
{
    assert forall|i: int| 0 <= i < w * h implies !#[trigger] step(all_dead(w * h), w, h)[i] by {
        lemma_row_in_range(i, w as int, h as int);
        lemma_dead_grid_no_neighbors(w, h, i / (w as int), i % (w as int));
    }
    assert(step(all_dead(w * h), w, h) =~= all_dead(w * h));
}

/// An all-dead grid stays all dead for any number of generations.
pub proof fn lemma_all_dead_stays_dead(w: nat, h: nat, n: nat)
    requires
        w >= 1,
        h >= 1,
    ensures
        generations(all_dead(w * h), w, h, n) == all_dead(w * h),
    decreases n,
{
    if n > 0 {
        lemma_all_dead_stays_dead(w, h, (n - 1) as nat);
        lemma_step_all_dead(w, h);
    }
}

/// A live cell without live neighbours dies of underpopulation.
pub proof fn lemma_isolated_cell_dies(g: Seq<bool>, w: nat, h: nat, r: int, c: int)
    requires
        0 <= r < h,
        0 <= c < w,
        g.len() == w * h,
        live_neighbors(g, w, h, r, c) == 0,
    ensures
        !step(g, w, h)[r * w + c],
{
    lemma_position(w as int, h as int, r, c);
}

/// The neighbourhood wraps around both edges at once: the cell in the last
/// row and last column is the upper-left neighbour of the cell at (0, 0), so
/// when it is alive (0, 0) has at least one live neighbour.
pub proof fn lemma_corner_wraps(g: Seq<bool>, w: nat, h: nat)
    requires
        w >= 1,
        h >= 1,
        g.len() == w * h,
        cell_at(g, w, h - 1, w - 1),
    ensures
        neighbor(g, w, h, 0, 0, h - 1, w - 1) == 1,
        live_neighbors(g, w, h, 0, 0) >= 1,
{
    let (wi, hi) = (w as int, h as int);
    lemma_wrap(0, hi - 1, hi);
    lemma_wrap(0, wi - 1, wi);
    lemma_neighbor_position(wi, hi, 0, 0, hi - 1, 0);
    lemma_neighbor_position(wi, hi, 0, 0, hi - 1, 1);
    lemma_neighbor_position(wi, hi, 0, 0, 0, wi - 1);
    lemma_neighbor_position(wi, hi, 0, 0, 0, 1);
    lemma_neighbor_position(wi, hi, 0, 0, 1, wi - 1);
    lemma_neighbor_position(wi, hi, 0, 0, 1, 0);
    lemma_neighbor_position(wi, hi, 0, 0, 1, 1);
}

} // verus!
