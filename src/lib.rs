//! A nonogram solver whose line logic is proved with Verus.
//!
//! `line` reads the runs of a line, `placement` finds the leftmost and rightmost
//! placements of a hint on a partly known line, `refine` deduces the cells that both
//! agree on, `game` drives refinement over a whole grid until it is solved or stuck,
//! `text` and `render` turn lines and grids into text.

pub mod game;
pub mod line;
pub mod placement;
pub mod refine;
pub mod render;
pub mod text;
