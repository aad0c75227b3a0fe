//! A gravity-drop connection game (a generalized connect-four) together with
//! a Monte-Carlo tree search opponent that learns from random self-play.
//!
//! The crate is organized around three layers:
//! - [`board`]: the grid itself, with gravity-respecting drops;
//! - [`game`]: the two-player state machine, including win detection along
//!   the four line families through the most recent move;
//! - [`mcts`]: the self-play engine, which accumulates per-column statistics
//!   in a persistent table keyed by serialized board states.

pub mod board;
pub mod clock;
pub mod game;
pub mod hbot;
pub mod mcts;
pub mod rng;
pub mod search;
pub mod table;
