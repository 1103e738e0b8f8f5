//! Index structures over the stored vectors.

pub mod hnsw_index;
