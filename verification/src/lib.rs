//! A verified solver for the 6x6 "Rush Hour" sliding-block puzzle.
//!
//! A board is a 6x6 grid of cell values; `0` marks an empty cell and any
//! other value marks the piece occupying that cell.  Every piece is a
//! straight run of 2 or 3 cells that slides only along its own axis.  The
//! target piece (id 1) is horizontal in row 2 and must reach the two
//! rightmost columns of that row.
//!
//! The crate offers two complementary solvers: a breadth-first search over
//! the state graph (`bfs::solve`) and an iterative-deepening A* search with
//! an admissible heuristic (`ida_star::solve`).  Both return a sequence of
//! single-cell moves that, replayed from the initial board, reaches a goal
//! board.

pub mod bfs;
pub mod board;
pub mod grid;
pub mod ida_star;
pub mod state;
pub mod step;
