//! The numeric array encoding, which the evolution strategy and the ant
//! colony search work on.

pub mod node;
pub mod chromosome;
