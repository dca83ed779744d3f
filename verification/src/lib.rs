//! A verified tiling search engine: boards, polyomino-like tiles described as
//! chains of unit steps, symmetry orbits, placement search with constraint
//! counts, arbitrary-precision tiling counts, and a deduplicating state graph.

pub mod board;
pub mod counting;
pub mod graph;
pub mod render;
pub mod tile;
pub mod tiler;
