//! The toroidal Game-of-Life grid and its update rule.
//!
//! A `Universe` holds a `width x height` grid of cells, bit-packed row-major:
//! the cell at `(row, col)` is flag `row * width + col` of the storage. One
//! `tick` replaces the whole grid by the next generation, computed from a
//! snapshot of the current one, so no cell update observes another cell's new
//! value within the same generation.

use vstd::prelude::*;
use vstd::arithmetic::div_mod::lemma_fundamental_div_mod_converse;
use vstd::string::StringExecFns;
use crate::bits::PackedBits;
use crate::bits::bit_in_words;
use crate::bits::words_for;

verus! {

/// The state of a single cell.
#[derive(Clone, Copy, Debug, PartialEq, Eq, Structural)]
pub enum Cell {
    Dead,
    Alive,
}

/// Why a mutating call was rejected. A rejected call leaves the grid exactly
/// as it was.
#[derive(Clone, Copy, Debug, PartialEq, Eq, Structural)]
pub enum GridError {
    /// A coordinate fell outside the current `width x height` grid.
    OutOfBounds,
    /// A requested dimension was zero, or the resulting grid would not fit
    /// in memory.
    InvalidDimension,
}

/// A boolean as a count: 1 for a live cell, 0 for a dead one.
pub open spec fn b2i(b: bool) -> int {
    if b {
        1
    } else {
        0
    }
}

/// The cell at row `r`, column `c` of the row-major grid `s` of `w`-cell rows.
pub open spec fn cell_at(s: Seq<bool>, w: int, r: int, c: int) -> bool {
    s[r * w + c]
}

/// The contribution of one neighbor offset `(dr, dc)` to a cell's live-neighbor
/// count, on the row-major grid `s` of `h` rows of `w` cells. Offsets are the
/// wrapped forms `h - 1`, `0`, `1` (resp. `w - 1`, `0`, `1`), so both summands
/// stay non-negative; the offset pair `(0, 0)` is the cell itself and counts
/// for nothing.
pub open spec fn nbr(s: Seq<bool>, w: int, h: int, r: int, c: int, dr: int, dc: int) -> int {
    if dr == 0 && dc == 0 {
        0
    } else {
        b2i(cell_at(s, w, (r + dr) % h, (c + dc) % w))
    }
}

/// How many of the eight toroidal neighbors of `(r, c)` are alive. On a thin
/// axis (one or two cells) distinct wrapped offsets can land on the same
/// cell, which is then counted once for each; on an axis of one cell the
/// wrapped offset equals 0, and pairs whose offsets are both 0 count for
/// nothing.
pub open spec fn live_neighbors(s: Seq<bool>, w: int, h: int, r: int, c: int) -> int {
    nbr(s, w, h, r, c, h - 1, w - 1) + nbr(s, w, h, r, c, h - 1, 0) + nbr(s, w, h, r, c, h - 1, 1)
        + nbr(s, w, h, r, c, 0, w - 1) + nbr(s, w, h, r, c, 0, 1) + nbr(s, w, h, r, c, 1, w - 1)
        + nbr(s, w, h, r, c, 1, 0) + nbr(s, w, h, r, c, 1, 1)
}

/// The Game-of-Life transition for one cell: a live cell survives with two or
/// three live neighbors and otherwise dies; a dead cell is born with exactly
/// three live neighbors and otherwise stays dead.
pub open spec fn rule(alive: bool, n: int) -> bool {
    if alive {
        n == 2 || n == 3
    } else {
        n == 3
    }
}

/// The next generation of the whole grid, every cell judged against the same
/// snapshot `s`.
pub open spec fn next_grid(s: Seq<bool>, w: int, h: int) -> Seq<bool> {
    Seq::new((w * h) as nat, |i: int| rule(s[i], live_neighbors(s, w, h, i / w, i % w)))
}

/// Every listed coordinate lies inside a `w`-column, `h`-row grid.
pub open spec fn all_in_bounds(cs: Seq<(u32, u32)>, w: u32, h: u32) -> bool {
    forall|k: int| 0 <= k < cs.len() ==> (#[trigger] cs[k]).0 < h && cs[k].1 < w
}

/// Whether one of the first `k` coordinates of `cs` names flat index `i` on a
/// grid of `w` columns.
pub open spec fn listed_prefix(cs: Seq<(u32, u32)>, w: int, k: int, i: int) -> bool {
    exists|j: int| 0 <= j < k && i == (#[trigger] cs[j]).0 * w + cs[j].1
}

/// Whether some coordinate of `cs` names flat index `i` on a grid of `w`
/// columns.
pub open spec fn listed_at(cs: Seq<(u32, u32)>, w: int, i: int) -> bool {
    listed_prefix(cs, w, cs.len() as int, i)
}

/// The grid `s` with every cell listed in `cs` (as a `(row, col)` pair) set
/// alive and every other cell left as it was.
pub open spec fn with_cells_set(s: Seq<bool>, w: int, cs: Seq<(u32, u32)>) -> Seq<bool> {
    Seq::new(s.len(), |i: int| s[i] || listed_at(cs, w, i))
}

/// The flat position of column `cl` of row `rw` in a text rendering of a
/// grid `w` cells wide: each line holds `w` glyphs and a newline.
pub open spec fn render_pos(w: int, rw: int, cl: int) -> int {
    rw * (w + 1) + cl
}

/// The glyph a text rendering shows for one cell: a filled square for a live
/// cell, an open one for a dead cell.
pub open spec fn glyph(alive: bool) -> char {
    if alive {
        '\u{25fc}'
    } else {
        '\u{25fb}'
    }
}

/// A position of a glyph in one of the first `rows` lines lies inside those
/// lines.
proof fn lemma_render_pos_prefix(w: int, rw: int, cl: int, rows: int)
    by (nonlinear_arith)
    requires
        0 <= w,
        0 <= cl <= w,
        0 <= rw < rows,
    ensures
        0 <= render_pos(w, rw, cl) < rows * (w + 1),
{
}

/// A `width x height` toroidal Game-of-Life grid, one bit per cell.
pub struct Universe {
    width: u32,
    height: u32,
    cells: PackedBits,
}

impl Universe {
    /// Number of columns.
    pub closed spec fn spec_width(self) -> u32 {
        self.width
    }

    /// Number of rows.
    pub closed spec fn spec_height(self) -> u32 {
        self.height
    }

    /// The cell states, row-major: cell `(r, c)` is `self.grid()[r * width + c]`.
    pub closed spec fn grid(self) -> Seq<bool> {
        self.cells@
    }

    /// Both dimensions are positive, the storage holds exactly one bit per
    /// cell, and the whole grid is addressable.
    pub closed spec fn wf(self) -> bool {
        &&& self.width > 0
        &&& self.height > 0
        &&& self.cells.wf()
        &&& self.cells@.len() == self.width * self.height
        &&& self.width * self.height <= usize::MAX
    }

    /// A well-formed grid has `width * height` cells.
    pub proof fn lemma_wf_grid_len(self)
        requires
            self.wf(),
        ensures
            self.grid().len() == self.spec_width() * self.spec_height(),
            self.spec_width() > 0,
            self.spec_height() > 0,
    {
    }

    /// Whether the cell at `(r, c)` is alive.
    pub open spec fn cell_alive(self, r: int, c: int) -> bool {
        self.grid()[r * self.spec_width() + c]
    }

    /// The flat storage index of `(row, column)`.
    fn get_index(&self, row: u32, column: u32) -> (idx: usize)
        requires
            self.wf(),
            row < self.spec_height(),
            column < self.spec_width(),
        ensures
            idx == row * self.spec_width() + column,
            idx < self.grid().len(),
    {
        proof {
            assert(row * self.width + column < self.height * self.width) by (nonlinear_arith)
                requires
                    row < self.height,
                    column < self.width,
                    0 < self.width,
            ;
            assert(self.height * self.width == self.width * self.height) by (nonlinear_arith);
        }
        (row as usize) * (self.width as usize) + (column as usize)
    }

    /// A fresh universe: 64 x 64, with cell `i` alive exactly when `i` is
    /// divisible by 2 or by 7, the fixed seed pattern.
    pub fn new() -> (r: Universe)
        ensures
            r.wf(),
            r.spec_width() == 64,
            r.spec_height() == 64,
            r.grid().len() == 4096,
            forall|i: int| 0 <= i < 4096 ==> r.grid()[i] == (i % 2 == 0 || i % 7 == 0),
    {
        let width: u32 = 64;
        let height: u32 = 64;
        let size: usize = 4096;
        let mut cells = PackedBits::with_capacity(size);
        let mut i: usize = 0;
        while i < size
            invariant
                size == 4096,
                cells.wf(),
                cells@.len() == 4096,
                i <= 4096,
                forall|j: int| 0 <= j < i ==> cells@[j] == (j % 2 == 0 || j % 7 == 0),
            decreases 4096 - i,
        {
            cells.set(i, i % 2 == 0 || i % 7 == 0);
            i = i + 1;
        }
        Universe { width, height, cells }
    }

    /// Number of columns.
    pub fn width(&self) -> (r: u32)
        ensures
            r == self.spec_width(),
    {
        self.width
    }

    /// Number of rows.
    pub fn height(&self) -> (r: u32)
        ensures
            r == self.spec_height(),
    {
        self.height
    }

    /// The state of the cell at `(row, col)`.
    pub fn get_cell(&self, row: u32, col: u32) -> (r: Cell)
        requires
            self.wf(),
            row < self.spec_height(),
            col < self.spec_width(),
        ensures
            r == (if self.cell_alive(row as int, col as int) {
                Cell::Alive
            } else {
                Cell::Dead
            }),
    {
        let idx = self.get_index(row, col);
        if self.cells.get(idx) {
            Cell::Alive
        } else {
            Cell::Dead
        }
    }

    /// The contribution of one wrapped neighbor offset to the live-neighbor
    /// count of `(row, col)`.
    fn wrapped_term(&self, row: u32, col: u32, dr: u32, dc: u32) -> (r: u8)
        requires
            self.wf(),
            row < self.spec_height(),
            col < self.spec_width(),
            dr < self.spec_height() || dr == 1,
            dc < self.spec_width() || dc == 1,
        ensures
            r as int == nbr(
                self.grid(),
                self.spec_width() as int,
                self.spec_height() as int,
                row as int,
                col as int,
                dr as int,
                dc as int,
            ),
            r <= 1,
    {
        if dr == 0 && dc == 0 {
            0
        } else {
            let h64 = self.height as u64;
            let w64 = self.width as u64;
            let nr = ((row as u64 + dr as u64) % h64) as u32;
            let nc = ((col as u64 + dc as u64) % w64) as u32;
            let idx = self.get_index(nr, nc);
            if self.cells.get(idx) {
                1
            } else {
                0
            }
        }
    }

    /// How many of the eight toroidal neighbors of `(row, col)` are alive,
    /// the cell itself excluded.
    fn live_neighbor_count(&self, row: u32, col: u32) -> (count: u8)
        requires
            self.wf(),
            row < self.spec_height(),
            col < self.spec_width(),
        ensures
            count as int == live_neighbors(
                self.grid(),
                self.spec_width() as int,
                self.spec_height() as int,
                row as int,
                col as int,
            ),
            count <= 8,
    {
        let up = self.height - 1;
        let left = self.width - 1;
        let mut count: u8 = 0;
        count = count + self.wrapped_term(row, col, up, left);
        count = count + self.wrapped_term(row, col, up, 0);
        count = count + self.wrapped_term(row, col, up, 1);
        count = count + self.wrapped_term(row, col, 0, left);
        count = count + self.wrapped_term(row, col, 0, 1);
        count = count + self.wrapped_term(row, col, 1, left);
        count = count + self.wrapped_term(row, col, 1, 0);
        count = count + self.wrapped_term(row, col, 1, 1);
        count
    }

    /// Advances the grid by exactly one generation, in place. The whole new
    /// generation is computed from a snapshot of the current state into a
    /// fresh buffer, which then replaces the grid.
    pub fn tick(&mut self)
        requires
            old(self).wf(),
        ensures
            final(self).wf(),
            final(self).spec_width() == old(self).spec_width(),
            final(self).spec_height() == old(self).spec_height(),
            final(self).grid() == next_grid(
                old(self).grid(),
                old(self).spec_width() as int,
                old(self).spec_height() as int,
            ),
    {
        let w = self.width;
        let h = self.height;
        let ghost s = self.grid();
        let ghost wi = w as int;
        let ghost hi = h as int;
        let size = self.cells.len();
        let mut next = PackedBits::with_capacity(size);
        let mut row: u32 = 0;
        while row < h
            invariant
                self.wf(),
                w == self.spec_width(),
                h == self.spec_height(),
                s == self.grid(),
                wi == w as int,
                hi == h as int,
                next.wf(),
                next@.len() == s.len(),
                s.len() == wi * hi,
                row <= h,
                forall|i: int|
                    0 <= i < row * wi ==> next@[i] == rule(
                        s[i],
                        live_neighbors(s, wi, hi, i / wi, i % wi),
                    ),
            decreases h - row,
        {
            let mut col: u32 = 0;
            while col < w
                invariant
                    self.wf(),
                    w == self.spec_width(),
                    h == self.spec_height(),
                    s == self.grid(),
                    wi == w as int,
                    hi == h as int,
                    next.wf(),
                    next@.len() == s.len(),
                    s.len() == wi * hi,
                    row < h,
                    col <= w,
                    forall|i: int|
                        0 <= i < row * wi + col ==> next@[i] == rule(
                            s[i],
                            live_neighbors(s, wi, hi, i / wi, i % wi),
                        ),
                decreases w - col,
            {
                let idx = self.get_index(row, col);
                let alive = self.cells.get(idx);
                let n = self.live_neighbor_count(row, col);
                let born = if alive {
                    n == 2 || n == 3
                } else {
                    n == 3
                };
                proof {
                    assert(idx < next@.len());
                    lemma_fundamental_div_mod_converse(idx as int, wi, row as int, col as int);
                }
                next.set(idx, born);
                col = col + 1;
            }
            proof {
                assert(row * wi + wi == (row + 1) * wi) by (nonlinear_arith);
            }
            row = row + 1;
        }
        proof {
            assert(h * wi == wi * hi) by (nonlinear_arith)
                requires
                    hi == h as int,
            ;
            assert(next@ =~= next_grid(s, wi, hi));
        }
        self.cells = next;
    }

    /// Replaces the grid storage by `size` dead cells under dimensions
    /// `width x height`.
    fn reset_storage(&mut self, width: u32, height: u32, size: usize)
        requires
            width > 0,
            height > 0,
            size == width * height,
        ensures
            final(self).wf(),
            final(self).spec_width() == width,
            final(self).spec_height() == height,
            final(self).grid().len() == width * height,
            forall|i: int| 0 <= i < final(self).grid().len() ==> !final(self).grid()[i],
    {
        self.cells = PackedBits::with_capacity(size);
        self.width = width;
        self.height = height;
    }

    /// Sets the number of columns and resets every cell to dead. Rejects a
    /// zero width, or one under which the grid would no longer be
    /// addressable, leaving the grid untouched.
    pub fn set_width(&mut self, new_width: u32) -> (r: Result<(), GridError>)
        requires
            old(self).wf(),
        ensures
            final(self).wf(),
            final(self).spec_height() == old(self).spec_height(),
            r is Ok <==> (new_width > 0 && new_width * old(self).spec_height() <= usize::MAX),
            r is Ok ==> final(self).spec_width() == new_width && final(self).grid().len()
                == new_width * old(self).spec_height() && (forall|i: int|
                0 <= i < final(self).grid().len() ==> !final(self).grid()[i]),
            !(r is Ok) ==> r == Result::<(), GridError>::Err(GridError::InvalidDimension)
                && final(self).spec_width() == old(self).spec_width() && final(self).grid()
                == old(self).grid(),
    {
        if new_width == 0 {
            return Err(GridError::InvalidDimension);
        }
        proof {
            assert((new_width as int) * (self.height as int) < 0x1_0000_0000_0000_0000)
                by (nonlinear_arith)
                requires
                    new_width as int <= 0xffff_ffff,
                    self.height as int <= 0xffff_ffff,
            ;
        }
        let total = (new_width as u64) * (self.height as u64);
        if total > (usize::MAX as u64) {
            return Err(GridError::InvalidDimension);
        }
        let height = self.height;
        self.reset_storage(new_width, height, total as usize);
        Ok(())
    }

    /// Sets the number of rows and resets every cell to dead. Rejects a zero
    /// height, or one under which the grid would no longer be addressable,
    /// leaving the grid untouched.
    pub fn set_height(&mut self, new_height: u32) -> (r: Result<(), GridError>)
        requires
            old(self).wf(),
        ensures
            final(self).wf(),
            final(self).spec_width() == old(self).spec_width(),
            r is Ok <==> (new_height > 0 && old(self).spec_width() * new_height <= usize::MAX),
            r is Ok ==> final(self).spec_height() == new_height && final(self).grid().len()
                == old(self).spec_width() * new_height && (forall|i: int|
                0 <= i < final(self).grid().len() ==> !final(self).grid()[i]),
            !(r is Ok) ==> r == Result::<(), GridError>::Err(GridError::InvalidDimension)
                && final(self).spec_height() == old(self).spec_height() && final(self).grid()
                == old(self).grid(),
    {
        if new_height == 0 {
            return Err(GridError::InvalidDimension);
        }
        proof {
            assert((self.width as int) * (new_height as int) < 0x1_0000_0000_0000_0000)
                by (nonlinear_arith)
                requires
                    new_height as int <= 0xffff_ffff,
                    self.width as int <= 0xffff_ffff,
            ;
        }
        let total = (self.width as u64) * (new_height as u64);
        if total > (usize::MAX as u64) {
            return Err(GridError::InvalidDimension);
        }
        let width = self.width;
        self.reset_storage(width, new_height, total as usize);
        Ok(())
    }

    /// Sets every cell at a listed `(row, col)` coordinate alive, leaving all
    /// other cells at their current value. If any coordinate is out of
    /// bounds, nothing is changed and the call reports `OutOfBounds`.
    pub fn set_cells(&mut self, coords: &Vec<(u32, u32)>) -> (r: Result<(), GridError>)
        requires
            old(self).wf(),
        ensures
            final(self).wf(),
            final(self).spec_width() == old(self).spec_width(),
            final(self).spec_height() == old(self).spec_height(),
            r is Ok <==> all_in_bounds(coords@, old(self).spec_width(), old(self).spec_height()),
            r is Ok ==> final(self).grid() == with_cells_set(
                old(self).grid(),
                old(self).spec_width() as int,
                coords@,
            ),
            !(r is Ok) ==> r == Result::<(), GridError>::Err(GridError::OutOfBounds)
                && final(self).grid() == old(self).grid(),
    {
        let ghost w = self.spec_width() as int;
        let ghost s = self.grid();
        let n = coords.len();
        let mut k: usize = 0;
        while k < n
            invariant
                self.wf(),
                n == coords@.len(),
                k <= n,
                forall|j: int|
                    0 <= j < k ==> (#[trigger] coords@[j]).0 < self.spec_height()
                        && coords@[j].1 < self.spec_width(),
            decreases n - k,
        {
            let (row, col) = coords[k];
            if row >= self.height || col >= self.width {
                return Err(GridError::OutOfBounds);
            }
            k = k + 1;
        }
        let mut k: usize = 0;
        while k < n
            invariant
                self.wf(),
                w == self.spec_width() as int,
                self.spec_width() == old(self).spec_width(),
                self.spec_height() == old(self).spec_height(),
                s == old(self).grid(),
                self.grid().len() == s.len(),
                n == coords@.len(),
                k <= n,
                all_in_bounds(coords@, self.spec_width(), self.spec_height()),
                forall|i: int|
                    0 <= i < self.grid().len() ==> self.grid()[i] == (s[i] || listed_prefix(
                        coords@,
                        w,
                        k as int,
                        i,
                    )),
            decreases n - k,
        {
            let (row, col) = coords[k];
            let idx = self.get_index(row, col);
            let ghost before = self.grid();
            self.cells.set(idx, true);
            let ghost k0 = k as int;
            k = k + 1;
            proof {
                assert forall|i: int| 0 <= i < self.grid().len() implies self.grid()[i] == (s[i]
                    || listed_prefix(coords@, w, k as int, i)) by {
                    assert(k as int == k0 + 1);
                    if i == idx {
                        assert(0 <= k0 < k0 + 1 && i == (#[trigger] coords@[k0]).0 * w
                            + coords@[k0].1);
                        assert(listed_prefix(coords@, w, k0 + 1, i));
                    } else {
                        assert(self.grid()[i] == before[i]);
                        assert(forall|i2: int|
                            0 <= i2 < before.len() ==> before[i2] == (s[i2] || listed_prefix(
                                coords@,
                                w,
                                k0,
                                i2,
                            )));
                        assert(before[i] == (s[i] || listed_prefix(coords@, w, k0, i)));
                        if listed_prefix(coords@, w, k0 + 1, i) {
                            let j = choose|j: int|
                                0 <= j < k0 + 1 && i == (#[trigger] coords@[j]).0 * w
                                    + coords@[j].1;
                            assert(j != k0);
                            assert(0 <= j < k0 && i == (coords@[j]).0 * w + coords@[j].1);
                            assert(listed_prefix(coords@, w, k0, i));
                        }
                        if listed_prefix(coords@, w, k0, i) {
                            let j = choose|j: int|
                                0 <= j < k0 && i == (#[trigger] coords@[j]).0 * w + coords@[j].1;
                            assert(0 <= j < k0 + 1 && i == (coords@[j]).0 * w + coords@[j].1);
                            assert(listed_prefix(coords@, w, k0 + 1, i));
                        }
                    }
                }
            }
        }
        proof {
            assert(self.grid() =~= with_cells_set(s, w, coords@));
        }
        Ok(())
    }

    /// A text rendering of the grid: `height` lines of `width` glyphs each,
    /// one glyph per cell, drawn deterministically from the cell's state.
    pub fn render(&self) -> (r: String)
        requires
            self.wf(),
        ensures
            r@.len() == self.spec_height() * (self.spec_width() + 1),
            forall|rw: int, cl: int|
                0 <= rw < self.spec_height() && 0 <= cl < self.spec_width() ==> r@[render_pos(
                    self.spec_width() as int,
                    rw,
                    cl,
                )] == glyph(self.cell_alive(rw, cl)),
            forall|rw: int|
                0 <= rw < self.spec_height() ==> r@[#[trigger] render_pos(
                    self.spec_width() as int,
                    rw,
                    self.spec_width() as int,
                )] == '\n',
    {
        let w = self.width;
        let h = self.height;
        let ghost wi = w as int;
        let ghost hi = h as int;
        let mut out = String::new();
        let mut row: u32 = 0;
        while row < h
            invariant
                self.wf(),
                w == self.spec_width(),
                h == self.spec_height(),
                wi == w as int,
                hi == h as int,
                row <= h,
                out@.len() == row * (wi + 1),
                forall|rw: int, cl: int|
                    0 <= rw < row && 0 <= cl < wi ==> out@[render_pos(wi, rw, cl)] == glyph(
                        self.cell_alive(rw, cl),
                    ),
                forall|rw: int| 0 <= rw < row ==> out@[#[trigger] render_pos(wi, rw, wi)] == '\n',
            decreases h - row,
        {
            let mut col: u32 = 0;
            while col < w
                invariant
                    self.wf(),
                    w == self.spec_width(),
                    h == self.spec_height(),
                    wi == w as int,
                    hi == h as int,
                    row < h,
                    col <= w,
                    out@.len() == row * (wi + 1) + col,
                    forall|rw: int, cl: int|
                        0 <= rw < row && 0 <= cl < wi ==> out@[render_pos(wi, rw, cl)] == glyph(
                            self.cell_alive(rw, cl),
                        ),
                    forall|rw: int| 0 <= rw < row ==> out@[#[trigger] render_pos(wi, rw, wi)] == '\n',
                    forall|cl: int|
                        0 <= cl < col ==> out@[#[trigger] render_pos(wi, row as int, cl)] == glyph(
                            self.cell_alive(row as int, cl),
                        ),
                decreases w - col,
            {
                let idx = self.get_index(row, col);
                let alive = self.cells.get(idx);
                let ghost out0 = out@;
                if alive {
                    out.append("\u{25fc}");
                } else {
                    out.append("\u{25fb}");
                }
                proof {
                    reveal_strlit("\u{25fc}");
                    reveal_strlit("\u{25fb}");
                    assert(out@.len() == out0.len() + 1);
                    assert(out@[out0.len() as int] == glyph(alive));
                    assert(render_pos(wi, row as int, col as int) == out0.len());
                    assert forall|rw: int, cl: int| 0 <= rw < row && 0 <= cl < wi implies out@[
                        render_pos(wi, rw, cl)] == glyph(self.cell_alive(rw, cl)) by {
                        lemma_render_pos_prefix(wi, rw, cl, row as int);
                        assert(out@[render_pos(wi, rw, cl)] == out0[render_pos(wi, rw, cl)]);
                    }
                    assert forall|rw: int| 0 <= rw < row implies out@[#[trigger] render_pos(
                        wi, rw, wi)] == '\n' by {
                        lemma_render_pos_prefix(wi, rw, wi, row as int);
                        assert(out@[render_pos(wi, rw, wi)] == out0[render_pos(wi, rw, wi)]);
                    }
                    assert forall|cl: int| 0 <= cl < col + 1 implies out@[#[trigger] render_pos(
                        wi, row as int, cl)] == glyph(self.cell_alive(row as int, cl)) by {
                        if cl < col {
                            assert(out@[render_pos(wi, row as int, cl)] == out0[render_pos(
                                wi, row as int, cl)]);
                        }
                    }
                }
                col = col + 1;
            }
            let ghost out0 = out@;
            out.append("\n");
            proof {
                reveal_strlit("\n");
                assert(out@.len() == out0.len() + 1);
                assert(out@[out0.len() as int] == '\n');
                assert((row + 1) * (wi + 1) == row * (wi + 1) + wi + 1) by (nonlinear_arith);
                assert forall|rw: int, cl: int| 0 <= rw < row + 1 && 0 <= cl < wi implies out@[
                    render_pos(wi, rw, cl)] == glyph(self.cell_alive(rw, cl)) by {
                    if rw < row {
                        lemma_render_pos_prefix(wi, rw, cl, row as int);
                    }
                    assert(out@[render_pos(wi, rw, cl)] == out0[render_pos(wi, rw, cl)]);
                }
                assert forall|rw: int| 0 <= rw < row + 1 implies out@[#[trigger] render_pos(
                    wi, rw, wi)] == '\n' by {
                    if rw < row {
                        lemma_render_pos_prefix(wi, rw, wi, row as int);
                        assert(out@[render_pos(wi, rw, wi)] == out0[render_pos(wi, rw, wi)]);
                    } else {
                        assert(render_pos(wi, rw, wi) == out0.len());
                    }
                }
            }
            row = row + 1;
        }
        proof {
            assert(h * (wi + 1) == hi * (wi + 1)) by (nonlinear_arith)
                requires
                    hi == h as int,
            ;
        }
        out
    }

    /// The packed cell storage, for a renderer that reads raw words: cell `i`
    /// (row-major) is bit `i % 32` of word `i / 32`, and the spare bits of the
    /// last word are clear. The view is only valid until the next mutating
    /// call, after which it must be re-acquired.
    pub fn cells(&self) -> (r: &Vec<u32>)
        requires
            self.wf(),
        ensures
            r@.len() == words_for(self.grid().len() as int),
            forall|i: int| 0 <= i < self.grid().len() ==> bit_in_words(r@, i) == self.grid()[i],
            forall|j: int| self.grid().len() <= j < r@.len() * 32 ==> !bit_in_words(r@, j),
    {
        self.cells.as_slice()
    }
}

} // verus!

