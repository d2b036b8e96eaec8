//! Plans the moves that take an agent on a partly known grid through a set of targets:
//! the known cells are laid out on a dense grid, unknown cells are estimated or
//! discovered, the grid becomes a weighted graph, and the targets are visited nearest
//! first along shortest paths.
pub mod tile;
pub mod grid;
pub mod graph;
pub mod search;
pub mod route;
pub mod normalize;
pub mod fill;
pub mod plan;
