//! A verified connect-four engine: a bit-packed board, strip-based win
//! detection and heuristic scoring, a mirror-aware transposition table over an
//! arena of tree nodes, an incremental layer generator, and alpha-beta search.
pub mod board;
pub mod board_iters;
pub mod board_state;
pub mod game_manager;
pub mod heuristics;
pub mod layer_generator;
pub mod monte_carlo;
pub mod players;
pub mod transposition;
pub mod tree_analysis;
pub mod tree_size;
pub mod win_check;
