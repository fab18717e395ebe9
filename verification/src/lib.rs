//! Core of a 2048-style sliding-tile merge puzzle.
//!
//! The library owns the deterministic board transition rules (slide, merge,
//! spawn), the turn state machine with its score, and the fixed-point particle
//! simulation used for merge feedback.  Rendering and input polling live
//! outside the library and talk to it through plain values.

pub mod board;
pub mod line;
pub mod particle;
mod rng;
pub mod session;
