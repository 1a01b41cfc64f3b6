pub mod graph;
pub mod position_assignment;
pub mod properties;
