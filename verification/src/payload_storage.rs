//! The boundary to the payload storage: a predicate over points.

use vstd::prelude::*;
use crate::types::PointOffsetType;

verus! {

/// Decides whether a point's payload satisfies a filter. What a filter is, and
/// what payload a point carries, is the business of the implementation.
pub trait ConditionChecker {
    /// The conditions a query may put on payloads.
    type Filter;

    /// Whether the payload of `point_id` satisfies `query`.
    spec fn accepts(&self, point_id: PointOffsetType, query: &Self::Filter) -> bool;

    /// Checks the payload of `point_id` against `query`.
    fn check(&self, point_id: PointOffsetType, query: &Self::Filter) -> (accepted: bool)
        ensures
            accepted == self.accepts(point_id, query),
    ;
}

} // verus!
