//! The layered proximity graph and what it scores with.

pub mod graph_layers;
pub mod graph_model;
pub mod point_scorer;
pub mod search_context;
