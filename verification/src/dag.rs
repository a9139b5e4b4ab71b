//! The encoding in which a node may read any node that does not depend on it.

pub mod node_dag;
pub mod chromosome_dag;
