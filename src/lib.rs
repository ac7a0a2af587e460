//! A sparse, unbounded Game-of-Life grid: the set of live cells, window
//! queries over it, single-cell edits, and a chunked parallel generation step.

pub mod rules;
pub mod cells;
pub mod step;

pub use rules::Cell;
pub use cells::Cells;
