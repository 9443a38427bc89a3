//! A columnar entity-component store with a checkout-based query system.
//!
//! Entities are integer indices shared across all component columns. Each
//! component type (identified by a `u64` key) owns one column: a sequence of
//! present-or-absent slots, one per entity. Queries lease whole columns out
//! of the store, expose them as typed views, and hand them back on an
//! explicit release.

use vstd::prelude::*;

pub mod entity_system;

verus! {

/// Sum of two machine-word numbers.
pub fn add(left: usize, right: usize) -> (r: usize)
    requires
        left + right <= usize::MAX,
    ensures
        r == left + right,
{
    left + right
}

} // verus!
