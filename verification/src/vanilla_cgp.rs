//! The plain boolean array encoding.

pub mod chromosome;
