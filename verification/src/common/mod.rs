//! Containers and helpers shared by the other modules.

pub mod fixed_length_priority_queue;
pub mod random;
