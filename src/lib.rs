//! Move-search backend for a two-player territorial connection game: the
//! trajectory-based move pruning engine, its position hash table, the board
//! contract it consumes, and the engine's configuration values.

pub mod player;
pub mod zobrist;
pub mod board;
pub mod bot;
pub mod table_board;
pub mod hash_lemmas;
pub mod live_counts;
pub mod trajectories_pruning;
pub mod discovery;
pub mod config;
pub mod heuristic;
