//! Metric spaces over fixed-point vectors.

pub mod arithmetic;
pub mod metric;
pub mod packed;
pub mod simple;
