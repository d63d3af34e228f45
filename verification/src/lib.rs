//! A perfect-maze generator. A grid of rooms is carved into a spanning tree
//! with a disjoint-set forest, and the goal is placed at the end of the
//! longest trail from the origin.
//!
//! - `dsets`: the disjoint-set forest.
//! - `grid`: the model of a grid, its paths and the ranking of goal
//!   candidates.
//! - `carving`: what carving does, and why the result is a spanning tree.
//! - `search`: the search for the goal.
//! - `maze`: the maze itself, its queries and its row and column cursors.
//! - `text`: the text form of a maze.
//! - `player`: the rule by which a player moves in a maze.

pub mod carving;
pub mod dsets;
pub mod grid;
pub mod maze;
pub mod player;
pub mod search;
pub mod text;
