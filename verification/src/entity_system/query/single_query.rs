//! A read-only view over one leased component column.

use vstd::prelude::*;

use crate::entity_system::EntitySystem;
use crate::entity_system::query::ID;
use crate::entity_system::query::present_pairs;

verus! {

/// A handle on a read lease of one component column. All handles for the same
/// key share the column that the lease manager holds; the handle itself only
/// remembers which key it was leased for.
#[derive(Debug, Clone, Copy, PartialEq, Eq)]
pub struct SingleQuery {
    pub key: u64,
}

impl SingleQuery {
    /// A handle for the column of the given component-type key.
    pub fn new(key: u64) -> (q: Self)
        ensures
            q.key == key,
    {
        Self { key }
    }

    /// The present components of the leased column, each with its entity
    /// index, in ascending index order. Every handle for the same key reads
    /// the one column the lease manager holds, so any two observe identical
    /// contents. A handle whose lease is no longer live yields nothing.
    pub fn iter<V: Copy>(&self, es: &EntitySystem<V>) -> (r: Vec<(ID, V)>)
        requires
            es.wf(),
        ensures
            r@ == (if es.singles().dom().contains(self.key) {
                present_pairs(es.singles()[self.key].row)
            } else {
                Seq::<(ID, V)>::empty()
            }),
    {
        es.collect_one(self.key)
    }

    /// Gives this handle up, decrementing the lease's reference count. The
    /// leased column stays with the lease manager; only an explicit release
    /// returns it to the store.
    pub fn drop_handle<V>(self, es: &mut EntitySystem<V>)
        requires
            old(es).wf(),
        ensures
            EntitySystem::<V>::drop_one_post(*old(es), *final(es), self.key),
    {
        es.drop_one(self.key)
    }
}

} // verus!
