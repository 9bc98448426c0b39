//! Conflict resolution between two replicas of a value.

use vstd::prelude::*;

use crate::doc::{merge_spec, Doc, DocV};

verus! {

/// A value two replicas of which can always be resolved into one.
/// The resolution is a fixed function of the two models, so both
/// sides of a reconciliation compute the same result.
pub trait CRDT: DeepView + Sized {
    /// The model the two models resolve to.
    spec fn resolve_spec(left: Self::V, right: Self::V) -> Self::V;

    /// Resolves two replicas.
    fn resolve(left: &Self, right: &Self) -> (r: Self)
        ensures
            r.deep_view() == Self::resolve_spec(left.deep_view(), right.deep_view()),
    ;

    /// Copies the value, keeping its model.
    fn duplicate(&self) -> (r: Self)
        ensures
            r.deep_view() == self.deep_view(),
    ;
}

impl CRDT for Doc {
    open spec fn resolve_spec(left: DocV, right: DocV) -> DocV {
        merge_spec(left, right)
    }

    fn resolve(left: &Doc, right: &Doc) -> (r: Doc) {
        left.merge(right)
    }

    fn duplicate(&self) -> (r: Doc) {
        self.duplicate()
    }
}

impl<T: CRDT> CRDT for Option<T> {
    open spec fn resolve_spec(left: Option<T::V>, right: Option<T::V>) -> Option<T::V> {
        match (left, right) {
            (Some(l), Some(r)) => Some(T::resolve_spec(l, r)),
            (Some(l), None) => Some(l),
            (None, Some(r)) => Some(r),
            (None, None) => None,
        }
    }

    fn resolve(left: &Option<T>, right: &Option<T>) -> (r: Option<T>) {
        match (left, right) {
            (Some(l), Some(r)) => Some(T::resolve(l, r)),
            (Some(l), None) => Some(l.duplicate()),
            (None, Some(r)) => Some(r.duplicate()),
            (None, None) => None,
        }
    }

    fn duplicate(&self) -> (r: Option<T>) {
        match self {
            Some(v) => Some(v.duplicate()),
            None => None,
        }
    }
}

} // verus!
