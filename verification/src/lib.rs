//! Ultimate tic-tac-toe: a 3x3 meta-board whose cells are themselves 3x3
//! boards ("minigrids"). Winning a minigrid claims the matching meta-cell;
//! three claimed meta-cells in a line win the match. The crate holds the
//! board model and rules engine, and a Monte Carlo tree search engine that
//! picks moves by random playouts.

pub mod defs;
pub mod human;
pub mod mcts;
pub mod weighted;
