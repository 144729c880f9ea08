//! State-space search over puzzle graphs: a depth-first and an A* engine,
//! generic over a `Graph`, with two puzzle models to drive them: grid mazes
//! and a gravity puzzle in which a segmented snake eats fruit and leaves
//! through an exit.
//!
//! - `graph`: what a puzzle model offers to the engines, and walks,
//!   their cost and reachability, in which the engines' results are stated.
//! - `a_star`, `dfs`: the two engines; `frontier`: the priority queue of A*;
//!   `search`: what a search returns, and the choice of an engine.
//! - `maze`, `maze2`: the two kinds of maze; `grid`: what they share;
//!   `carve`: why a carved maze is a tree; `grid_walks`: what follows for the
//!   paths that the engines find in a maze.
//! - `snake`: the gravity puzzle; `level_text`: how a level is written.
//! - `stored`: puzzles that are read from text.
//!
//! Every engine takes a limit and says when it gave up at it, so that every
//! search ends.

pub mod a_star;
pub mod carve;
pub mod dfs;
pub mod frontier;
pub mod graph;
pub mod grid;
pub mod grid_walks;
pub mod level_text;
pub mod maze;
pub mod maze2;
pub mod search;
pub mod snake;
pub mod stored;
