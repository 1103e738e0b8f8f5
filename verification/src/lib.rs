//! Approximate nearest-neighbour search: metric spaces, point scorers and a
//! layered proximity graph.
//!
//! Vectors are sequences of signed 16-bit fixed-point coordinates, and scores
//! are 64-bit integers, so that every similarity is computed exactly and the
//! order of results is the same on every machine. A larger score always
//! means "more similar".
//!
//! - [`spaces`] holds the metrics: dot product, cosine, Euclidean distance.
//! - [`vector_storage`] and [`payload_storage`] are the boundaries to the
//!   collaborators that hold vectors and payloads.
//! - [`index`] holds the scorer that combines the two, and the graph that is
//!   built and searched with it.
//! - [`fixtures`] holds simple stand-ins for the collaborators.

pub mod types;
pub mod common;
pub mod fixtures;
pub mod spaces;
pub mod payload_storage;
pub mod vector_storage;
pub mod index;
