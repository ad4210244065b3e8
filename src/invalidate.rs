//! What invalidates a cached entry, and what produces invalidations.
use crate::key::ErasedKey;
use vstd::prelude::*;

verus! {

/// A key that mutation events of type `M` may invalidate.
///
/// Every implementation defines `invalidated_by_spec`, the predicate that `invalidated_by`
/// computes; the contracts of `Cache::invalidate` are stated over it. An implementation outside
/// verified code must define it to return what its `invalidated_by` returns.
pub trait Invalidatable<M> {
    spec fn invalidated_by_spec(&self, mutation: &M) -> bool;

    /// Whether `mutation` makes the data cached under this key stale.
    fn invalidated_by(&self, mutation: &M) -> (r: bool)
        ensures
            r == self.invalidated_by_spec(mutation),
    ;
}

/// Something that reports which mutation events it caused.
pub trait Invalidator<M> {
    fn mutations(&self) -> Vec<M>;
}

/// The plain event invalidates every key.
impl Invalidatable<()> for ErasedKey {
    open spec fn invalidated_by_spec(&self, mutation: &()) -> bool {
        true
    }

    fn invalidated_by(&self, mutation: &()) -> (r: bool) {
        true
    }
}

/// A change to the resources behind every key of one kind, and no other.
pub struct KindMutation {
    pub kind: u64,
}

/// A kind mutation invalidates exactly the keys of its kind.
impl Invalidatable<KindMutation> for ErasedKey {
    open spec fn invalidated_by_spec(&self, mutation: &KindMutation) -> bool {
        self@.0 == mutation.kind
    }

    fn invalidated_by(&self, mutation: &KindMutation) -> (r: bool) {
        self.kind() == mutation.kind
    }
}

} // verus!
