//! The universe: a toroidal Life grid stored one bit per cell.

use vstd::prelude::*;
use crate::bits::{bit_of, byte_len, mask, written_byte, lemma_write_bit, lemma_zeroed};
use crate::rules::{all_dead, cell_at, lemma_position, lemma_wrap, live_neighbors, neighbor, next_state, step};

verus! {

/// The state of one cell.
#[derive(Clone, Copy, Debug, PartialEq, Eq, Structural)]
pub enum Cell {
    Dead,
    Alive,
}

/// The `Cell` that stands for a live (`true`) or dead (`false`) cell.
pub open spec fn cell_of(alive: bool) -> Cell {
    if alive {
        Cell::Alive
    } else {
        Cell::Dead
    }
}

/// The row-major position of (`r`, `c`) in a grid `w` columns wide.
pub open spec fn linear(w: nat, r: int, c: int) -> int {
    r * w + c
}

/// Whether one of the first `n` positions of `ps` is the row-major position
/// `i` of a grid `w` columns wide.
pub open spec fn listed(w: nat, ps: Seq<(usize, usize)>, n: int, i: int) -> bool {
    exists|k: int| 0 <= k < n && #[trigger] linear(w, ps[k].0 as int, ps[k].1 as int) == i
}

/// The bits of `bytes` read as a row-major grid of `n` cells.
pub open spec fn unpacked(bytes: Seq<u8>, n: nat) -> Seq<bool> {
    Seq::new(n, |i: int| bit_of(bytes, i))
}

proof fn lemma_bytes_cover(n: nat)
    ensures
        n <= 8 * byte_len(n),
{
}

/// `(x + d) % n` computed without overflow.
fn wrap_add(x: usize, d: usize, n: usize) -> (r: usize)
    requires
        x < n,
        d <= n,
    ensures
        r == (x + d) % (n as int),
{
    proof {
        lemma_wrap(x as int, d as int, n as int);
    }
    if x >= n - d {
        x - (n - d)
    } else {
        x + d
    }
}

/// A Life grid of `width` columns and `height` rows whose edges wrap around.
#[derive(Debug)]
pub struct Universe {
    width: usize,
    height: usize,
    cells: Vec<u8>,
}

impl Universe {
    /// Number of columns.
    pub closed spec fn spec_width(&self) -> nat {
        self.width as nat
    }

    /// Number of rows.
    pub closed spec fn spec_height(&self) -> nat {
        self.height as nat
    }

    /// The cells in row-major order, `true` for a live one.
    pub closed spec fn grid(&self) -> Seq<bool> {
        unpacked(self.cells@, (self.width * self.height) as nat)
    }

    /// The packed buffer has exactly one byte per eight cells, rounded up.
    pub closed spec fn storage_fits(&self) -> bool {
        self.cells@.len() == byte_len((self.width * self.height) as nat)
    }

    /// The universe is well formed: at least one row and one column, a cell
    /// count that fits in `usize`, and a packed buffer of the matching size.
    pub open spec fn wf(&self) -> bool {
        &&& self.spec_width() >= 1
        &&& self.spec_height() >= 1
        &&& self.spec_width() * self.spec_height() <= usize::MAX
        &&& self.grid().len() == self.spec_width() * self.spec_height()
        &&& self.storage_fits()
    }

    /// Whether the cell at row `r`, column `c` is alive.
    pub open spec fn alive(&self, r: int, c: int) -> bool {
        cell_at(self.grid(), self.spec_width(), r, c)
    }

    /// Number of bytes that hold `width * height` cells, one bit each.
    pub fn get_cell_memory_size(width: usize, height: usize) -> (r: usize)
        requires
            width * height <= usize::MAX,
        ensures
            r == byte_len((width * height) as nat),
    {
        let cells_amount = width * height;
        let size = cells_amount / 8;
        if cells_amount % 8 == 0 {
            size
        } else {
            size + 1
        }
    }

    /// Number of columns.
    pub fn width(&self) -> (r: usize)
        ensures
            r == self.spec_width(),
    {
        self.width
    }

    /// Number of rows.
    pub fn height(&self) -> (r: usize)
        ensures
            r == self.spec_height(),
    {
        self.height
    }

    /// An all-dead universe of `width` columns and `height` rows.
    pub fn new(width: usize, height: usize) -> (r: Universe)
        requires
            width >= 1,
            height >= 1,
            width * height <= usize::MAX,
        ensures
            r.wf(),
            r.spec_width() == width,
            r.spec_height() == height,
            r.grid() == all_dead((width * height) as nat),
    {
        let cells = vec![0u8; Universe::get_cell_memory_size(width, height)];
        let r = Universe { cells, width, height };
        proof {
            lemma_bytes_cover((width * height) as nat);
            lemma_zeroed(r.cells@, width * height);
            assert(r.grid() =~= all_dead((width * height) as nat));
        }
        r
    }

    /// The byte that holds the cell at (`row`, `col`), and the mask of its bit.
    fn get_accessor(&self, row: usize, col: usize) -> (r: (usize, u8))
        requires
            self.wf(),
            row < self.spec_height(),
            col < self.spec_width(),
        ensures
            r.0 == linear(self.spec_width(), row as int, col as int) / 8,
            r.0 < self.cells@.len(),
            r.1 == mask(linear(self.spec_width(), row as int, col as int) % 8),
    {
        proof {
            lemma_position(self.width as int, self.height as int, row as int, col as int);
            lemma_bytes_cover((self.width * self.height) as nat);
        }
        let index = row * self.width + col;
        let group_index = index / 8;
        let flag: u8 = 1u8 << ((index % 8) as u8);
        (group_index, flag)
    }

    /// The state of the cell at (`row`, `col`).
    pub fn get_cell(&self, row: usize, col: usize) -> (r: Cell)
        requires
            self.wf(),
            row < self.spec_height(),
            col < self.spec_width(),
        ensures
            r == cell_of(self.alive(row as int, col as int)),
    {
        let (index, flag) = self.get_accessor(row, col);
        proof {
            lemma_position(self.width as int, self.height as int, row as int, col as int);
        }
        if self.cells[index] & flag == 0 {
            Cell::Dead
        } else {
            Cell::Alive
        }
    }

    /// Sets the cell at (`row`, `col`) to `cell`; no other cell changes.
    pub fn set_cell(&mut self, row: usize, col: usize, cell: Cell)
        requires
            old(self).wf(),
            row < old(self).spec_height(),
            col < old(self).spec_width(),
        ensures
            final(self).wf(),
            final(self).spec_width() == old(self).spec_width(),
            final(self).spec_height() == old(self).spec_height(),
            final(self).grid() == old(self).grid().update(
                linear(old(self).spec_width(), row as int, col as int),
                cell == Cell::Alive,
            ),
    {
        let (index, flag) = self.get_accessor(row, col);
        let ghost before = self.cells@;
        let ghost at = linear(self.spec_width(), row as int, col as int);
        let b = self.cells[index];
        match cell {
            Cell::Alive => self.cells.set(index, b | flag),
            Cell::Dead => self.cells.set(index, b & !flag),
        }
        proof {
            lemma_position(self.width as int, self.height as int, row as int, col as int);
            lemma_bytes_cover((self.width * self.height) as nat);
            assert(self.cells@ == before.update(at / 8, written_byte(before, at, cell == Cell::Alive)));
            lemma_write_bit(before, at, cell == Cell::Alive);
            assert(self.grid() =~= old(self).grid().update(at, cell == Cell::Alive));
        }
    }

    /// 1 if the cell at offset (`dr`, `dc`) from (`row`, `col`), wrapped
    /// around the edges, is alive, else 0.
    fn neighbor_alive(&self, row: usize, col: usize, dr: usize, dc: usize) -> (r: u8)
        requires
            self.wf(),
            row < self.spec_height(),
            col < self.spec_width(),
            dr <= self.spec_height(),
            dc <= self.spec_width(),
        ensures
            r as int == neighbor(
                self.grid(),
                self.spec_width(),
                self.spec_height(),
                row as int,
                col as int,
                dr as int,
                dc as int,
            ),
    {
        let neighbor_row = wrap_add(row, dr, self.height);
        let neighbor_col = wrap_add(col, dc, self.width);
        match self.get_cell(neighbor_row, neighbor_col) {
            Cell::Alive => 1,
            Cell::Dead => 0,
        }
    }

    /// Number of live cells among the eight around (`row`, `col`), the grid
    /// wrapping around at its edges.
    pub fn live_neighbor_count(&self, row: usize, col: usize) -> (r: u8)
        requires
            self.wf(),
            row < self.spec_height(),
            col < self.spec_width(),
        ensures
            r as int == live_neighbors(
                self.grid(),
                self.spec_width(),
                self.spec_height(),
                row as int,
                col as int,
            ),
            r <= 8,
    {
        let up = self.height - 1;
        let left = self.width - 1;
        let mut count: u8 = 0;
        count = count + self.neighbor_alive(row, col, up, left);
        count = count + self.neighbor_alive(row, col, up, 0);
        count = count + self.neighbor_alive(row, col, up, 1);
        count = count + self.neighbor_alive(row, col, 0, left);
        count = count + self.neighbor_alive(row, col, 0, 1);
        count = count + self.neighbor_alive(row, col, 1, left);
        count = count + self.neighbor_alive(row, col, 1, 0);
        count = count + self.neighbor_alive(row, col, 1, 1);
        count
    }

    /// Advances the universe by one generation: every cell's next state is
    /// computed from the current generation alone.
    pub fn tick(&mut self)
        requires
            old(self).wf(),
        ensures
            final(self).wf(),
            final(self).spec_width() == old(self).spec_width(),
            final(self).spec_height() == old(self).spec_height(),
            final(self).grid() == step(
                old(self).grid(),
                old(self).spec_width(),
                old(self).spec_height(),
            ),
    {
        let mut next = Universe::new(self.width, self.height);
        let ghost g = self.grid();
        let ghost w = self.spec_width();
        let ghost h = self.spec_height();
        let mut row: usize = 0;
        while row < self.height
            invariant
                self.wf(),
                next.wf(),
                self.grid() == g,
                self.spec_width() == w,
                self.spec_height() == h,
                next.spec_width() == w,
                next.spec_height() == h,
                row <= h,
                forall|i: int| 0 <= i < row * w ==> next.grid()[i] == step(g, w, h)[i],
            decreases h - row,
        {
            let mut col: usize = 0;
            while col < self.width
                invariant
                    self.wf(),
                    next.wf(),
                    self.grid() == g,
                    self.spec_width() == w,
                    self.spec_height() == h,
                    next.spec_width() == w,
                    next.spec_height() == h,
                    row < h,
                    col <= w,
                    forall|i: int|
                        0 <= i < row * w + col ==> next.grid()[i] == step(g, w, h)[i],
                decreases w - col,
            {
                let cell = self.get_cell(row, col);
                let live_neighbors = self.live_neighbor_count(row, col);
                proof {
                    lemma_position(w as int, h as int, row as int, col as int);
                }
                next.set_cell(row, col, next_cell(cell, live_neighbors));
                col += 1;
            }
            proof {
                assert(row * w + w == (row + 1) * w) by (nonlinear_arith);
            }
            row += 1;
        }
        self.cells = next.cells;
        proof {
            assert(h * w == w * h) by (nonlinear_arith);
            assert(self.grid() =~= step(g, w, h));
        }
    }

    /// A universe whose cells are the bits of `random_bytes`, bit `i % 8` of
    /// byte `i / 8` for the cell at row-major position `i`.
    pub fn new_random_filled(width: usize, height: usize, random_bytes: Vec<u8>) -> (r: Universe)
        requires
            width >= 1,
            height >= 1,
            width * height <= usize::MAX,
            random_bytes@.len() == byte_len((width * height) as nat),
        ensures
            r.wf(),
            r.spec_width() == width,
            r.spec_height() == height,
            r.grid() == unpacked(random_bytes@, (width * height) as nat),
    {
        Universe { cells: random_bytes, width, height }
    }

    /// Replaces every cell by the bits of `random_bytes`, as
    /// `new_random_filled` reads them; the size stays.
    pub fn reset(&mut self, random_bytes: Vec<u8>)
        requires
            old(self).wf(),
            random_bytes@.len() == byte_len(
                old(self).spec_width() * old(self).spec_height(),
            ),
        ensures
            final(self).wf(),
            final(self).spec_width() == old(self).spec_width(),
            final(self).spec_height() == old(self).spec_height(),
            final(self).grid() == unpacked(
                random_bytes@,
                old(self).spec_width() * old(self).spec_height(),
            ),
    {
        self.cells = random_bytes;
    }

    /// Sets every listed (row, column) position alive; the other cells keep
    /// their state.
    pub fn set_cells(&mut self, cells: &[(usize, usize)])
        requires
            old(self).wf(),
            forall|k: int|
                0 <= k < cells@.len() ==> cells@[k].0 < old(self).spec_height() && cells@[k].1
                    < old(self).spec_width(),
        ensures
            final(self).wf(),
            final(self).spec_width() == old(self).spec_width(),
            final(self).spec_height() == old(self).spec_height(),
            forall|i: int|
                0 <= i < final(self).grid().len() ==> final(self).grid()[i] == (old(
                    self,
                ).grid()[i] || listed(old(self).spec_width(), cells@, cells@.len() as int, i)),
    {
        let ghost g = self.grid();
        let ghost w = self.spec_width();
        let mut j: usize = 0;
        while j < cells.len()
            invariant
                self.wf(),
                self.spec_width() == old(self).spec_width(),
                self.spec_height() == old(self).spec_height(),
                g == old(self).grid(),
                w == old(self).spec_width(),
                j <= cells@.len(),
                forall|k: int|
                    0 <= k < cells@.len() ==> cells@[k].0 < old(self).spec_height()
                        && cells@[k].1 < old(self).spec_width(),
                forall|i: int|
                    0 <= i < g.len() ==> self.grid()[i] == (g[i] || listed(w, cells@, j as int, i)),
            decreases cells@.len() - j,
        {
            let ghost before = self.grid();
            let ghost done = j as int;
            let (row, col) = cells[j];
            let ghost at = linear(w, row as int, col as int);
            self.set_cell(row, col, Cell::Alive);
            j += 1;
            proof {
                lemma_position(
                    w as int,
                    self.spec_height() as int,
                    row as int,
                    col as int,
                );
                assert forall|i: int| 0 <= i < g.len() implies self.grid()[i] == (g[i] || listed(
                    w,
                    cells@,
                    j as int,
                    i,
                )) by {
                    if i == at {
                        assert(linear(w, cells@[done].0 as int, cells@[done].1 as int)
                            == i);
                    } else {
                        assert(before[i] == (g[i] || listed(w, cells@, done, i)));
                        if listed(w, cells@, j as int, i) {
                            let k = choose|k: int|
                                0 <= k < j as int && #[trigger] linear(
                                    w,
                                    cells@[k].0 as int,
                                    cells@[k].1 as int,
                                ) == i;
                            assert(k != done);
                            assert(listed(w, cells@, done, i));
                        }
                        if listed(w, cells@, done, i) {
                            let k = choose|k: int|
                                0 <= k < done && #[trigger] linear(
                                    w,
                                    cells@[k].0 as int,
                                    cells@[k].1 as int,
                                ) == i;
                            assert(linear(w, cells@[k].0 as int, cells@[k].1 as int) == i);
                        }
                    }
                }
            }
        }
    }

    /// Every cell's state in row-major order: row by row, and within a row
    /// column by column.
    pub fn get_cells(&self) -> (r: Vec<Cell>)
        requires
            self.wf(),
        ensures
            r@.len() == self.grid().len(),
            forall|i: int| 0 <= i < r@.len() ==> r@[i] == cell_of(self.grid()[i]),
    {
        let ghost w = self.spec_width();
        let ghost h = self.spec_height();
        let mut out: Vec<Cell> = Vec::new();
        let mut row: usize = 0;
        while row < self.height
            invariant
                self.wf(),
                w == self.spec_width(),
                h == self.spec_height(),
                row <= h,
                out@.len() == row * w,
                forall|i: int| 0 <= i < out@.len() ==> out@[i] == cell_of(self.grid()[i]),
            decreases h - row,
        {
            let mut col: usize = 0;
            while col < self.width
                invariant
                    self.wf(),
                    w == self.spec_width(),
                    h == self.spec_height(),
                    row < h,
                    col <= w,
                    out@.len() == row * w + col,
                    forall|i: int| 0 <= i < out@.len() ==> out@[i] == cell_of(self.grid()[i]),
                decreases w - col,
            {
                proof {
                    lemma_position(w as int, h as int, row as int, col as int);
                }
                out.push(self.get_cell(row, col));
                col += 1;
            }
            proof {
                assert(row * w + w == (row + 1) * w) by (nonlinear_arith);
            }
            row += 1;
        }
        proof {
            assert(h * w == w * h) by (nonlinear_arith);
        }
        out
    }
}

/// A newly built empty universe has every cell dead, and so does the
/// row-major sequence of its cells.
pub proof fn lemma_empty_universe_is_dead(u: &Universe)
    requires
        u.wf(),
        u.grid() == all_dead(u.spec_width() * u.spec_height()),
    ensures
        forall|r: int, c: int|
            0 <= r < u.spec_height() && 0 <= c < u.spec_width() ==> !#[trigger] u.alive(r, c),
        forall|i: int| 0 <= i < u.grid().len() ==> cell_of(#[trigger] u.grid()[i]) == Cell::Dead,
{
    assert forall|r: int, c: int|
        0 <= r < u.spec_height() && 0 <= c < u.spec_width() implies !#[trigger] u.alive(r, c) by {
        lemma_position(u.spec_width() as int, u.spec_height() as int, r, c);
    }
}

/// The Life rule on one cell, given its number of live neighbours.
pub fn next_cell(cell: Cell, live_neighbors: u8) -> (r: Cell)
    ensures
        r == cell_of(next_state(cell == Cell::Alive, live_neighbors as int)),
{
    match (cell, live_neighbors) {
        // Underpopulation.
        (Cell::Alive, x) if x < 2 => Cell::Dead,
        // Survival.
        (Cell::Alive, 2) | (Cell::Alive, 3) => Cell::Alive,
        // Overpopulation.
        (Cell::Alive, _) => Cell::Dead,
        // Reproduction.
        (Cell::Dead, 3) => Cell::Alive,
        (Cell::Dead, _) => Cell::Dead,
    }
}

} // verus!
