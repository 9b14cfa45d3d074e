//! Conway's Game of Life on a fixed-size toroidal grid.
//!
//! The grid is stored bit-packed, one bit per cell, row-major. `Universe`
//! owns the grid and applies the classic birth/survival rule one synchronous
//! generation at a time; every operation carries a contract that pins the
//! resulting cell states down exactly.

use vstd::prelude::*;

mod bits;
mod life;
mod laws;

pub use bits::PackedBits;
pub use bits::nth_bit;
pub use bits::bit_in_words;
pub use bits::words_for;
pub use life::Cell;
pub use life::GridError;
pub use life::Universe;
pub use life::b2i;
pub use life::cell_at;
pub use life::nbr;
pub use life::live_neighbors;
pub use life::rule;
pub use life::next_grid;
pub use life::all_in_bounds;
pub use life::listed_prefix;
pub use life::listed_at;
pub use life::with_cells_set;
pub use life::render_pos;
pub use life::glyph;
pub use laws::lemma_tick_deterministic;
pub use laws::lemma_wraparound_rows;
pub use laws::lemma_wraparound_cols;
pub use laws::lemma_block_still_life;
pub use laws::lemma_blinker_flips;
pub use laws::lemma_blinker_flips_back;
pub use laws::lemma_blinker_period_two;
pub use laws::lemma_set_cells_round_trip;

