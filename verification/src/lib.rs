//! An in-memory store that maps string keys to insertion-ordered sequences of
//! string values, together with the verified pieces of a menu-driven front
//! end: line trimming, selection parsing, and the command loop's state
//! transitions.

pub mod menu;
pub mod store;
pub mod text;
