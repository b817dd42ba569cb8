//! A rule-accurate engine for the board game of Go (area scoring with komi,
//! positional superko, undo by replay) together with a verified in-memory
//! session layer: named rooms, seat tokens, a counting phase and a monotonic
//! generation counter that drives client resynchronisation.

pub mod board;
pub mod geom;
pub mod laws;
pub mod grid;
pub mod registry;
pub mod room;
pub mod text;
