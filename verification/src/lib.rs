//! A time-bounded Monte Carlo tree search engine for the game of Go.
//!
//! The heart of the crate is the UCT search tree (`uct::Node`): selection,
//! lazy expansion behind a play-count threshold, legality filtering
//! (positional superko, endgame pass policy) and backpropagation of playout
//! outcomes.  Around it sit a playout policy that simulates games to the end,
//! per-point ownership statistics, and the coordinator logic that turns a
//! finished search into a move decision (play, pass or resign).

pub mod board;
pub mod game;
pub mod score;
pub mod config;
pub mod uct;
pub mod random;
pub mod playout;
pub mod ownership;
pub mod gtp;
pub mod engine;
pub mod rave;
pub mod patterns;
pub mod timer;
