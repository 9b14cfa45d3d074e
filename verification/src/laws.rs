//! Grid-level laws of the update rule and of the mutation API, stated over
//! the same spec functions that the `Universe` contracts use.

use vstd::prelude::*;
use vstd::arithmetic::div_mod::lemma_fundamental_div_mod_converse;
use vstd::arithmetic::div_mod::lemma_mod_add_multiples_vanish;
use vstd::arithmetic::div_mod::lemma_mod_self_0;
use vstd::arithmetic::div_mod::lemma_small_mod;
use crate::life::b2i;
use crate::life::cell_at;
use crate::life::listed_at;
use crate::life::listed_prefix;
use crate::life::live_neighbors;
use crate::life::nbr;
use crate::life::next_grid;
use crate::life::rule;
use crate::life::with_cells_set;

verus! {

/// One neighbor offset contributes no more than one live cell to the count.
proof fn lemma_nbr_bounds(s: Seq<bool>, w: int, h: int, r: int, c: int, dr: int, dc: int)
    ensures
        0 <= nbr(s, w, h, r, c, dr, dc) <= 1,
{
}

/// Determinism of the update: the next generation is a function of the cell
/// states and the dimensions alone, so two grids in the same state step to
/// the same state, on every run.
pub proof fn lemma_tick_deterministic(s1: Seq<bool>, s2: Seq<bool>, w: int, h: int)
    requires
        s1 == s2,
    ensures
        next_grid(s1, w, h) == next_grid(s2, w, h),
{
}

/// Toroidal wraparound across the rows: a live cell in row 0 is counted as a
/// neighbor of the cell in the same column of the last row.
pub proof fn lemma_wraparound_rows(s: Seq<bool>, w: int, h: int, c: int)
    requires
        0 < w,
        0 < h,
        s.len() == w * h,
        0 <= c < w,
        cell_at(s, w, 0, c),
    ensures
        nbr(s, w, h, h - 1, c, 1, 0) == 1,
        live_neighbors(s, w, h, h - 1, c) >= 1,
{
    lemma_mod_self_0(h);
    lemma_small_mod(c as nat, w as nat);
    assert(nbr(s, w, h, h - 1, c, 1, 0) == b2i(cell_at(s, w, (h - 1 + 1) % h, (c + 0) % w)));
    assert(nbr(s, w, h, h - 1, c, 1, 0) == 1);
    lemma_nbr_bounds(s, w, h, h - 1, c, h - 1, w - 1);
    lemma_nbr_bounds(s, w, h, h - 1, c, h - 1, 0);
    lemma_nbr_bounds(s, w, h, h - 1, c, h - 1, 1);
    lemma_nbr_bounds(s, w, h, h - 1, c, 0, w - 1);
    lemma_nbr_bounds(s, w, h, h - 1, c, 0, 1);
    lemma_nbr_bounds(s, w, h, h - 1, c, 1, w - 1);
    lemma_nbr_bounds(s, w, h, h - 1, c, 1, 1);
}

/// Toroidal wraparound across the columns: a live cell in column 0 is counted
/// as a neighbor of the cell in the same row of the last column.
pub proof fn lemma_wraparound_cols(s: Seq<bool>, w: int, h: int, r: int)
    requires
        0 < w,
        0 < h,
        s.len() == w * h,
        0 <= r < h,
        cell_at(s, w, r, 0),
    ensures
        nbr(s, w, h, r, w - 1, 0, 1) == 1,
        live_neighbors(s, w, h, r, w - 1) >= 1,
{
    lemma_mod_self_0(w);
    lemma_small_mod(r as nat, h as nat);
    assert(nbr(s, w, h, r, w - 1, 0, 1) == b2i(cell_at(s, w, (r + 0) % h, (w - 1 + 1) % w)));
    assert(nbr(s, w, h, r, w - 1, 0, 1) == 1);
    lemma_nbr_bounds(s, w, h, r, w - 1, h - 1, w - 1);
    lemma_nbr_bounds(s, w, h, r, w - 1, h - 1, 0);
    lemma_nbr_bounds(s, w, h, r, w - 1, h - 1, 1);
    lemma_nbr_bounds(s, w, h, r, w - 1, 0, w - 1);
    lemma_nbr_bounds(s, w, h, r, w - 1, 1, w - 1);
    lemma_nbr_bounds(s, w, h, r, w - 1, 1, 0);
    lemma_nbr_bounds(s, w, h, r, w - 1, 1, 1);
}

/// The row one step up (by the wrapped offset `m - 1`) from `x`, on an axis
/// of `m` cells.
pub open spec fn wrap_dec(m: int, x: int) -> int {
    if x == 0 {
        m - 1
    } else {
        x - 1
    }
}

/// The row one step down from `x`, on an axis of `m` cells.
pub open spec fn wrap_inc(m: int, x: int) -> int {
    if x == m - 1 {
        0
    } else {
        x + 1
    }
}

/// The wrapped offset `m - 1` steps one place back along an axis.
proof fn lemma_wrap_dec(x: int, m: int)
    requires
        0 < m,
        0 <= x < m,
    ensures
        (x + (m - 1)) % m == wrap_dec(m, x),
{
    if x == 0 {
        lemma_small_mod((m - 1) as nat, m as nat);
    } else {
        lemma_mod_add_multiples_vanish(x - 1, m);
        lemma_small_mod((x - 1) as nat, m as nat);
    }
}

/// The offset 1 steps one place forward along an axis.
proof fn lemma_wrap_inc(x: int, m: int)
    requires
        0 < m,
        0 <= x < m,
    ensures
        (x + 1) % m == wrap_inc(m, x),
{
    if x == m - 1 {
        lemma_mod_self_0(m);
    } else {
        lemma_small_mod((x + 1) as nat, m as nat);
    }
}

/// The live-neighbor count, written over the wrapped coordinates of the
/// eight neighbors.
proof fn lemma_live_neighbors_unfold(s: Seq<bool>, w: int, h: int, r: int, c: int)
    requires
        1 < w,
        1 < h,
        0 <= r < h,
        0 <= c < w,
    ensures
        live_neighbors(s, w, h, r, c) == b2i(cell_at(s, w, wrap_dec(h, r), wrap_dec(w, c))) + b2i(
            cell_at(s, w, wrap_dec(h, r), c),
        ) + b2i(cell_at(s, w, wrap_dec(h, r), wrap_inc(w, c))) + b2i(
            cell_at(s, w, r, wrap_dec(w, c)),
        ) + b2i(cell_at(s, w, r, wrap_inc(w, c))) + b2i(
            cell_at(s, w, wrap_inc(h, r), wrap_dec(w, c)),
        ) + b2i(cell_at(s, w, wrap_inc(h, r), c)) + b2i(
            cell_at(s, w, wrap_inc(h, r), wrap_inc(w, c)),
        ),
{
    lemma_wrap_dec(r, h);
    lemma_wrap_inc(r, h);
    lemma_wrap_dec(c, w);
    lemma_wrap_inc(c, w);
    lemma_small_mod(r as nat, h as nat);
    lemma_small_mod(c as nat, w as nat);
    assert((r + 0) % h == r);
    assert((c + 0) % w == c);
}

/// The row and column of flat index `i` on a `w`-column grid of `w * h`
/// cells.
proof fn lemma_grid_coords(i: int, w: int, h: int)
    requires
        0 < w,
        0 < h,
        0 <= i < w * h,
    ensures
        0 <= i / w < h,
        0 <= i % w < w,
        i == (i / w) * w + (i % w),
{
    vstd::arithmetic::div_mod::lemma_fundamental_div_mod(i, w);
    assert(0 <= i / w < h && 0 <= i % w < w && i == (i / w) * w + (i % w)) by (nonlinear_arith)
        requires
            0 < w,
            0 < h,
            0 <= i < w * h,
            i == w * (i / w) + (i % w),
            0 <= i % w < w,
    ;
}

/// Conservation under a stable pattern: a 2x2 block of live cells, alone on
/// the grid, is unchanged by a tick.
pub proof fn lemma_block_still_life(s: Seq<bool>, w: int, h: int, r0: int, c0: int)
    requires
        4 <= w,
        4 <= h,
        s.len() == w * h,
        0 <= r0,
        r0 + 1 < h,
        0 <= c0,
        c0 + 1 < w,
        forall|r: int, c: int|
            0 <= r < h && 0 <= c < w ==> (#[trigger] cell_at(s, w, r, c) == ((r == r0 || r == r0
                + 1) && (c == c0 || c == c0 + 1))),
    ensures
        next_grid(s, w, h) == s,
{
    assert forall|i: int| 0 <= i < s.len() implies next_grid(s, w, h)[i] == s[i] by {
        lemma_grid_coords(i, w, h);
        let r = i / w;
        let c = i % w;
        lemma_live_neighbors_unfold(s, w, h, r, c);
        assert(s[i] == cell_at(s, w, r, c));
        assert(0 <= wrap_dec(h, r) < h && 0 <= wrap_inc(h, r) < h);
        assert(0 <= wrap_dec(w, c) < w && 0 <= wrap_inc(w, c) < w);
        assert(next_grid(s, w, h)[i] == rule(s[i], live_neighbors(s, w, h, r, c)));
    }
    assert(next_grid(s, w, h) =~= s);
}

/// Oscillation of the blinker, one half: three live cells in a row, alone on
/// the grid and clear of the torus seam, become three live cells in a column
/// around the same center.
pub proof fn lemma_blinker_flips(s: Seq<bool>, w: int, h: int, r0: int, c0: int)
    requires
        4 <= w,
        4 <= h,
        s.len() == w * h,
        1 <= r0 < h - 1,
        1 <= c0 < w - 1,
        forall|r: int, c: int|
            0 <= r < h && 0 <= c < w ==> (#[trigger] cell_at(s, w, r, c) == (r == r0 && c0 - 1 <= c
                <= c0 + 1)),
    ensures
        next_grid(s, w, h).len() == w * h,
        forall|r: int, c: int|
            0 <= r < h && 0 <= c < w ==> (#[trigger] cell_at(next_grid(s, w, h), w, r, c) == (c
                == c0 && r0 - 1 <= r <= r0 + 1)),
{
    assert forall|r: int, c: int| 0 <= r < h && 0 <= c < w implies (#[trigger] cell_at(
        next_grid(s, w, h), w, r, c) == (c == c0 && r0 - 1 <= r <= r0 + 1)) by {
        let i = r * w + c;
        assert(0 <= i < w * h) by (nonlinear_arith)
            requires
                0 <= r < h,
                0 <= c < w,
                i == r * w + c,
        ;
        lemma_fundamental_div_mod_converse(i, w, r, c);
        lemma_live_neighbors_unfold(s, w, h, r, c);
        assert(0 <= wrap_dec(h, r) < h && 0 <= wrap_inc(h, r) < h);
        assert(0 <= wrap_dec(w, c) < w && 0 <= wrap_inc(w, c) < w);
        assert(next_grid(s, w, h)[i] == rule(s[i], live_neighbors(s, w, h, r, c)));
        assert(s[i] == cell_at(s, w, r, c));
        assert(cell_at(next_grid(s, w, h), w, r, c) == next_grid(s, w, h)[i]);
    }
}

/// Oscillation of the blinker, the other half: the column of three flips
/// back to the row of three.
pub proof fn lemma_blinker_flips_back(s: Seq<bool>, w: int, h: int, r0: int, c0: int)
    requires
        4 <= w,
        4 <= h,
        s.len() == w * h,
        1 <= r0 < h - 1,
        1 <= c0 < w - 1,
        forall|r: int, c: int|
            0 <= r < h && 0 <= c < w ==> (#[trigger] cell_at(s, w, r, c) == (c == c0 && r0 - 1 <= r
                <= r0 + 1)),
    ensures
        next_grid(s, w, h).len() == w * h,
        forall|r: int, c: int|
            0 <= r < h && 0 <= c < w ==> (#[trigger] cell_at(next_grid(s, w, h), w, r, c) == (r
                == r0 && c0 - 1 <= c <= c0 + 1)),
{
    assert forall|r: int, c: int| 0 <= r < h && 0 <= c < w implies (#[trigger] cell_at(
        next_grid(s, w, h), w, r, c) == (r == r0 && c0 - 1 <= c <= c0 + 1)) by {
        let i = r * w + c;
        assert(0 <= i < w * h) by (nonlinear_arith)
            requires
                0 <= r < h,
                0 <= c < w,
                i == r * w + c,
        ;
        lemma_fundamental_div_mod_converse(i, w, r, c);
        lemma_live_neighbors_unfold(s, w, h, r, c);
        assert(0 <= wrap_dec(h, r) < h && 0 <= wrap_inc(h, r) < h);
        assert(0 <= wrap_dec(w, c) < w && 0 <= wrap_inc(w, c) < w);
        assert(next_grid(s, w, h)[i] == rule(s[i], live_neighbors(s, w, h, r, c)));
        assert(s[i] == cell_at(s, w, r, c));
        assert(cell_at(next_grid(s, w, h), w, r, c) == next_grid(s, w, h)[i]);
    }
}

/// A blinker flips between its two orientations and so returns to its
/// original state after exactly two ticks.
pub proof fn lemma_blinker_period_two(s: Seq<bool>, w: int, h: int, r0: int, c0: int)
    requires
        4 <= w,
        4 <= h,
        s.len() == w * h,
        1 <= r0 < h - 1,
        1 <= c0 < w - 1,
        forall|r: int, c: int|
            0 <= r < h && 0 <= c < w ==> (#[trigger] cell_at(s, w, r, c) == (r == r0 && c0 - 1 <= c
                <= c0 + 1)),
    ensures
        next_grid(next_grid(s, w, h), w, h) == s,
{
    lemma_blinker_flips(s, w, h, r0, c0);
    let t = next_grid(s, w, h);
    lemma_blinker_flips_back(t, w, h, r0, c0);
    let u = next_grid(t, w, h);
    assert forall|i: int| 0 <= i < s.len() implies u[i] == s[i] by {
        lemma_grid_coords(i, w, h);
        let r = i / w;
        let c = i % w;
        assert(cell_at(u, w, r, c) == (r == r0 && c0 - 1 <= c <= c0 + 1));
        assert(u[i] == cell_at(u, w, r, c));
        assert(s[i] == cell_at(s, w, r, c));
    }
    assert(u =~= s);
}

/// Round trip of the accessors: after setting the listed coordinates alive on
/// an all-dead grid, the cell at `(r, c)` reads back alive exactly when
/// `(r, c)` was listed.
pub proof fn lemma_set_cells_round_trip(
    s: Seq<bool>,
    w: int,
    h: int,
    cs: Seq<(u32, u32)>,
    r: int,
    c: int,
)
    requires
        0 < w,
        0 < h,
        s.len() == w * h,
        forall|i: int| 0 <= i < s.len() ==> !s[i],
        forall|k: int| 0 <= k < cs.len() ==> (#[trigger] cs[k]).0 < h && cs[k].1 < w,
        0 <= r < h,
        0 <= c < w,
    ensures
        cell_at(with_cells_set(s, w, cs), w, r, c) == exists|k: int|
            0 <= k < cs.len() && (#[trigger] cs[k]).0 == r && cs[k].1 == c,
{
    let i = r * w + c;
    assert(0 <= i < w * h) by (nonlinear_arith)
        requires
            0 <= r < h,
            0 <= c < w,
            i == r * w + c,
    ;
    assert(!s[i]);
    assert(with_cells_set(s, w, cs)[i] == (s[i] || listed_at(cs, w, i)));
    if listed_at(cs, w, i) {
        let k = choose|j: int|
            0 <= j < cs.len() as int && i == (#[trigger] cs[j]).0 * w + cs[j].1;
        lemma_fundamental_div_mod_converse(i, w, r, c);
        lemma_fundamental_div_mod_converse(i, w, cs[k].0 as int, cs[k].1 as int);
        assert(cs[k].0 == r && cs[k].1 == c);
    }
    if exists|k: int| 0 <= k < cs.len() && (#[trigger] cs[k]).0 == r && cs[k].1 == c {
        let k = choose|k: int| 0 <= k < cs.len() && (#[trigger] cs[k]).0 == r && cs[k].1 == c;
        assert(0 <= k < cs.len() as int && i == (cs[k]).0 * w + cs[k].1);
        assert(listed_prefix(cs, w, cs.len() as int, i));
    }
}

} // verus!
