//! Stand-ins for the collaborators of the index, for trials and benchmarks.

pub mod index_fixtures;
