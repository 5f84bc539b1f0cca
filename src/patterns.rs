//! Two well-known patterns: the block, a 2x2 square that never changes, and
//! the glider, five cells that move one cell down and one cell right every
//! four generations.

use vstd::prelude::*;
use vstd::arithmetic::div_mod::lemma_fundamental_div_mod;
use crate::rules::{
    generations, lemma_neighbor_position, lemma_position, lemma_row_in_range, lemma_wrap,
    neighbor, step,
};

verus! {

/// Whether `x` is `x0` or the position after it, wrapping at `n`.
pub open spec fn in_pair(x: int, x0: int, n: int) -> bool {
    x == x0 || x == (x0 + 1) % n
}

/// A grid whose only live cells are the 2x2 block with its top-left corner at
/// (`r0`, `c0`), wrapping around the edges.
pub open spec fn block(w: nat, h: nat, r0: int, c0: int) -> Seq<bool> {
    Seq::new(
        w * h,
        |i: int| in_pair(i / (w as int), r0, h as int) && in_pair(i % (w as int), c0, w as int),
    )
}

/// Of a position, the one before it and the one after it on a cycle of at
/// least three, at most two belong to a pair of neighbours, and if the
/// position itself belongs, so does one of the other two.
proof fn lemma_pair_hits(x: int, x0: int, n: int)
    requires
        n >= 3,
        0 <= x < n,
        0 <= x0 < n,
    ensures
        ({
            let before = in_pair((x + (n - 1)) % n, x0, n);
            let here = in_pair((x + 0) % n, x0, n);
            let after = in_pair((x + 1) % n, x0, n);
            &&& !(before && here && after)
            &&& here ==> before || after
        }),
{
    lemma_wrap(x, n - 1, n);
    lemma_wrap(x, 0, n);
    lemma_wrap(x, 1, n);
    lemma_wrap(x0, 1, n);
}

/// In the block grid each cell of the block has exactly three live neighbours
/// and every other cell has 0, 1, 2 or 4: the next generation is the same.
proof fn lemma_block_cell(w: nat, h: nat, r0: int, c0: int, r: int, c: int)
    requires
        w >= 3,
        h >= 3,
        0 <= r0 < h,
        0 <= c0 < w,
        0 <= r < h,
        0 <= c < w,
    ensures
        step(block(w, h, r0, c0), w, h)[r * w + c] == block(w, h, r0, c0)[r * w + c],
{
    let (wi, hi) = (w as int, h as int);
    let g = block(w, h, r0, c0);
    lemma_position(wi, hi, r, c);
    lemma_pair_hits(r, r0, hi);
    lemma_pair_hits(c, c0, wi);
    let rows = seq![hi - 1, 0, 1];
    let cols = seq![wi - 1, 0, 1];
    assert forall|a: int, b: int| 0 <= a < 3 && 0 <= b < 3 implies #[trigger] neighbor(
        g,
        w,
        h,
        r,
        c,
        rows[a],
        cols[b],
    ) == if in_pair((r + rows[a]) % hi, r0, hi) && in_pair((c + cols[b]) % wi, c0, wi) {
        1int
    } else {
        0int
    } by {
        lemma_neighbor_position(wi, hi, r, c, rows[a], cols[b]);
        lemma_position(wi, hi, (r + rows[a]) % hi, (c + cols[b]) % wi);
    }
    assert(neighbor(g, w, h, r, c, rows[0], cols[0]) == neighbor(g, w, h, r, c, hi - 1, wi - 1));
    assert(neighbor(g, w, h, r, c, rows[0], cols[1]) == neighbor(g, w, h, r, c, hi - 1, 0));
    assert(neighbor(g, w, h, r, c, rows[0], cols[2]) == neighbor(g, w, h, r, c, hi - 1, 1));
    assert(neighbor(g, w, h, r, c, rows[1], cols[0]) == neighbor(g, w, h, r, c, 0, wi - 1));
    assert(neighbor(g, w, h, r, c, rows[1], cols[2]) == neighbor(g, w, h, r, c, 0, 1));
    assert(neighbor(g, w, h, r, c, rows[2], cols[0]) == neighbor(g, w, h, r, c, 1, wi - 1));
    assert(neighbor(g, w, h, r, c, rows[2], cols[1]) == neighbor(g, w, h, r, c, 1, 0));
    assert(neighbor(g, w, h, r, c, rows[2], cols[2]) == neighbor(g, w, h, r, c, 1, 1));
    lemma_wrap(r, 0, hi);
    lemma_wrap(c, 0, wi);
}

/// A lone 2x2 block on a torus of at least three rows and three columns is a
/// still life: it is unchanged after any number of generations.
pub proof fn lemma_block_is_still(w: nat, h: nat, r0: int, c0: int, n: nat)
    requires
        w >= 3,
        h >= 3,
        0 <= r0 < h,
        0 <= c0 < w,
    ensures
        generations(block(w, h, r0, c0), w, h, n) == block(w, h, r0, c0),
    decreases n,
{
    if n > 0 {
        lemma_block_is_still(w, h, r0, c0, (n - 1) as nat);
        let g = block(w, h, r0, c0);
        assert forall|i: int| 0 <= i < w * h implies #[trigger] step(g, w, h)[i] == g[i] by {
            lemma_row_in_range(i, w as int, h as int);
            lemma_position(w as int, h as int, i / (w as int), i % (w as int));
            lemma_fundamental_div_mod(i, w as int);
            lemma_block_cell(w, h, r0, c0, i / (w as int), i % (w as int));
        }
        assert(step(g, w, h) =~= g);
    }
}

/// The live cells of the glider as placed: (0, 1), (1, 2), (2, 0), (2, 1)
/// and (2, 2).
pub open spec fn glider_start(r: int, c: int) -> bool {
    (r == 0 && c == 1) || (r == 1 && c == 2) || (r == 2 && (c == 0 || c == 1 || c == 2))
}

/// The live cells of the glider in each of its four phases, the one placed
/// at the top-left corner first; phase 4 is phase 0 moved by (+1, +1).
pub open spec fn glider_phase(k: int, r: int, c: int) -> bool {
    if k == 0 {
        glider_start(r, c)
    } else if k == 1 {
        (r == 1 && (c == 0 || c == 2)) || (r == 2 && (c == 1 || c == 2)) || (r == 3 && c == 1)
    } else if k == 2 {
        (r == 1 && c == 2) || (r == 2 && (c == 0 || c == 2)) || (r == 3 && (c == 1 || c == 2))
    } else if k == 3 {
        (r == 1 && c == 1) || (r == 2 && (c == 2 || c == 3)) || (r == 3 && (c == 1 || c == 2))
    } else {
        glider_start(r - 1, c - 1)
    }
}

/// A `w` by `h` grid whose only live cells are phase `k` of the glider.
pub open spec fn glider(w: nat, h: nat, k: int) -> Seq<bool> {
    Seq::new(w * h, |i: int| glider_phase(k, i / (w as int), i % (w as int)))
}

proof fn lemma_glider_cell(w: nat, h: nat, k: int, r: int, c: int)
    requires
        w >= 6,
        h >= 6,
        0 <= k < 4,
        0 <= r < h,
        0 <= c < w,
    ensures
        step(glider(w, h, k), w, h)[r * w + c] == glider_phase(k + 1, r, c),
{
    let (wi, hi) = (w as int, h as int);
    let g = glider(w, h, k);
    lemma_position(wi, hi, r, c);
    let rows = seq![hi - 1, 0, 1];
    let cols = seq![wi - 1, 0, 1];
    assert forall|a: int, b: int| 0 <= a < 3 && 0 <= b < 3 implies #[trigger] neighbor(
        g,
        w,
        h,
        r,
        c,
        rows[a],
        cols[b],
    ) == if glider_phase(k, (r + rows[a]) % hi, (c + cols[b]) % wi) {
        1int
    } else {
        0int
    } by {
        lemma_neighbor_position(wi, hi, r, c, rows[a], cols[b]);
        lemma_position(wi, hi, (r + rows[a]) % hi, (c + cols[b]) % wi);
    }
    assert(neighbor(g, w, h, r, c, rows[0], cols[0]) == neighbor(g, w, h, r, c, hi - 1, wi - 1));
    assert(neighbor(g, w, h, r, c, rows[0], cols[1]) == neighbor(g, w, h, r, c, hi - 1, 0));
    assert(neighbor(g, w, h, r, c, rows[0], cols[2]) == neighbor(g, w, h, r, c, hi - 1, 1));
    assert(neighbor(g, w, h, r, c, rows[1], cols[0]) == neighbor(g, w, h, r, c, 0, wi - 1));
    assert(neighbor(g, w, h, r, c, rows[1], cols[2]) == neighbor(g, w, h, r, c, 0, 1));
    assert(neighbor(g, w, h, r, c, rows[2], cols[0]) == neighbor(g, w, h, r, c, 1, wi - 1));
    assert(neighbor(g, w, h, r, c, rows[2], cols[1]) == neighbor(g, w, h, r, c, 1, 0));
    assert(neighbor(g, w, h, r, c, rows[2], cols[2]) == neighbor(g, w, h, r, c, 1, 1));
    lemma_wrap(r, hi - 1, hi);
    lemma_wrap(r, 0, hi);
    lemma_wrap(r, 1, hi);
    lemma_wrap(c, wi - 1, wi);
    lemma_wrap(c, 0, wi);
    lemma_wrap(c, 1, wi);
}

proof fn lemma_glider_step(w: nat, h: nat, k: int)
    requires
        w >= 6,
        h >= 6,
        0 <= k < 4,
    ensures
        step(glider(w, h, k), w, h) == glider(w, h, k + 1),
{
    assert forall|i: int| 0 <= i < w * h implies #[trigger] step(glider(w, h, k), w, h)[i]
        == glider(w, h, k + 1)[i] by {
        lemma_row_in_range(i, w as int, h as int);
        lemma_fundamental_div_mod(i, w as int);
        lemma_glider_cell(w, h, k, i / (w as int), i % (w as int));
    }
    assert(step(glider(w, h, k), w, h) =~= glider(w, h, k + 1));
}

/// On a torus of at least six rows and six columns, the glider placed at the
/// top-left corner is, four generations later, the same glider moved one
/// row down and one column right.
pub proof fn lemma_glider_moves(w: nat, h: nat)
    requires
        w >= 6,
        h >= 6,
    ensures
        generations(glider(w, h, 0), w, h, 4) == glider(w, h, 4),
{
    let g = glider(w, h, 0);
    lemma_glider_step(w, h, 0);
    lemma_glider_step(w, h, 1);
    lemma_glider_step(w, h, 2);
    lemma_glider_step(w, h, 3);
    assert(generations(g, w, h, 1) == step(generations(g, w, h, 0), w, h));
    assert(generations(g, w, h, 2) == step(generations(g, w, h, 1), w, h));
    assert(generations(g, w, h, 3) == step(generations(g, w, h, 2), w, h));
    assert(generations(g, w, h, 4) == step(generations(g, w, h, 3), w, h));
}

} // verus!
