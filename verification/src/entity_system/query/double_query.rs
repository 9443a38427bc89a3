//! A read-only view over a pair of leased component columns.

use vstd::prelude::*;

use crate::entity_system::EntitySystem;
use crate::entity_system::query::ID;
use crate::entity_system::query::present_pairs2;

verus! {

/// A handle on a read lease of two component columns, keyed by the canonical
/// ordered pair of their component-type keys. All handles for the same pair
/// share the columns that the lease manager holds.
#[derive(Debug, Clone, Copy, PartialEq, Eq)]
pub struct DoubleQuery {
    pub key_a: u64,
    pub key_b: u64,
}

impl DoubleQuery {
    /// A handle for the columns of the given pair of component-type keys.
    pub fn new(key_a: u64, key_b: u64) -> (q: Self)
        ensures
            q.key_a == key_a,
            q.key_b == key_b,
    {
        Self { key_a, key_b }
    }

    /// The entity indices at which both leased columns have a present
    /// component, with both values, in ascending index order — an index
    /// absent in either column is skipped. A handle whose lease is no longer
    /// live yields nothing.
    pub fn iter<V: Copy>(&self, es: &EntitySystem<V>) -> (r: Vec<(ID, V, V)>)
        requires
            es.wf(),
        ensures
            r@ == (if es.doubles().dom().contains((self.key_a, self.key_b)) {
                present_pairs2(
                    es.doubles()[(self.key_a, self.key_b)].row_a,
                    es.doubles()[(self.key_a, self.key_b)].row_b,
                )
            } else {
                Seq::<(ID, V, V)>::empty()
            }),
    {
        es.collect_two(self.key_a, self.key_b)
    }

    /// Gives this handle up, decrementing the lease's reference count. The
    /// leased columns stay with the lease manager; only an explicit release
    /// returns them to the store.
    pub fn drop_handle<V>(self, es: &mut EntitySystem<V>)
        requires
            old(es).wf(),
        ensures
            EntitySystem::<V>::drop_two_post(*old(es), *final(es), self.key_a, self.key_b),
    {
        es.drop_two(self.key_a, self.key_b)
    }
}

} // verus!
