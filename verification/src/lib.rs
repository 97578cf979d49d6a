//! A verified Minesweeper board engine: deterministic board generation with
//! randomized mine placement, exact neighbor-mine counts, and a work-list
//! flood fill that reveals zero-adjacency regions.

pub mod board;
pub mod counting;
mod rng;
