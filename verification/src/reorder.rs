//! The encodings whose computational nodes can be moved to other positions.

pub mod node_reorder;
pub mod chromosome_reorder;
pub mod chromosome_reorder_equidistant;
