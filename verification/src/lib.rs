//! A rectangular perfect-maze generator with structural quality metrics.
//!
//! A grid of cells, each with four walls, is turned into a maze by one of
//! three classic randomized algorithms (Kruskal, Prim, depth-first
//! backtracking); each is proved to leave the open passages forming a
//! spanning tree of the grid graph. Quality analysis (dead ends, longest
//! simple path, branching, a weighted quality index) is computed over the
//! finished maze.

pub mod generate;
pub mod grid;
pub mod kruskal;
pub mod quality;
pub mod reach;
pub mod rng;
pub mod union_find;

pub use grid::Cell;
pub use grid::Maze;
pub use grid::MazeError;
pub use quality::MazeQuality;
