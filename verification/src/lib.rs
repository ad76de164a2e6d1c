//! Core of a turn-based territory-capture game on an offset hexagonal grid.
//!
//! A player claims a contiguous same-colored region by selecting its color:
//! every unowned tile of that color reachable from the player's current
//! territory is captured.  The crate covers the board model, the
//! flood-capture resolution, turn rotation, score recomputation with
//! game-over detection, the greedy automated opponent, and the textual
//! level-loading grammar.  Rendering, input handling and scheduling live
//! outside and drive this core through plain values and events.

pub mod board;
pub mod capture;
pub mod game;
pub mod level;
pub mod levels;
pub mod score;
