//! The entity system: a store of component columns keyed by component type,
//! plus the lease manager that checks columns out into typed query views and
//! back in again.
//!
//! A component type is identified by a `u64` key; the numeric order of keys
//! is the canonical rank used for two-column queries. An entity is an index
//! shared by all columns, and every column always has exactly one slot per
//! entity.

use vstd::prelude::*;

use crate::entity_system::query::all_absent;
use crate::entity_system::query::double_mut_query::DoubleMutQuery;
use crate::entity_system::query::double_query::DoubleQuery;
use crate::entity_system::query::single_mut_query::SingleMutQuery;
use crate::entity_system::query::single_query::SingleQuery;
use crate::entity_system::query::retag;
use crate::entity_system::query::row_tagged;
use crate::entity_system::query::untag;
use crate::entity_system::table::distinct_keys;
use crate::entity_system::table::lemma_pair_map_dom;
use crate::entity_system::table::lemma_pair_map_index;
use crate::entity_system::table::lemma_pair_map_push;
use crate::entity_system::table::lemma_pair_map_remove;
use crate::entity_system::table::pair_map;

pub mod query;
pub mod table;

verus! {

/// A component value together with the key of its component type.
///
/// This is the erased form in which the store holds every slot: the store
/// itself is untyped, and the tag is what lets a checkout recover the static
/// type safely. The well-formedness invariant of [`EntitySystem`] guarantees
/// that every slot in a column carries that column's own key, so recovery
/// never fails.
#[derive(Debug, Clone, Copy)]
pub struct Tagged<V> {
    pub key: u64,
    pub value: V,
}

/// One column of erased component slots, one slot per entity.
pub type ComponentRow<V> = Vec<Option<Tagged<V>>>;

/// A column as the store holds it: its component-type key and its slots.
#[derive(Debug)]
struct Column<V> {
    key: u64,
    slots: ComponentRow<V>,
}

/// A live lease of one column: its key, whether it is a mutable lease, how
/// many handles are outstanding, and the column in recovered, typed form.
#[derive(Debug)]
struct SingleLease<V> {
    key: u64,
    mutable: bool,
    count: usize,
    row: Vec<Option<V>>,
}

/// A live lease of a pair of columns, keyed by the canonical ordered pair.
#[derive(Debug)]
struct DoubleLease<V> {
    key_a: u64,
    key_b: u64,
    mutable: bool,
    count: usize,
    row_a: Vec<Option<V>>,
    row_b: Vec<Option<V>>,
}

/// What the lease manager records about a one-column lease: the lease's mode,
/// its reference count, and the leased column.
pub struct LeaseView<V> {
    pub mutable: bool,
    pub count: nat,
    pub row: Seq<Option<V>>,
}

/// What the lease manager records about a two-column lease.
pub struct DoubleLeaseView<V> {
    pub mutable: bool,
    pub count: nat,
    pub row_a: Seq<Option<V>>,
    pub row_b: Seq<Option<V>>,
}

spec fn col_pairs<V>(cs: Seq<Column<V>>) -> Seq<(u64, Seq<Option<V>>)> {
    cs.map(|i: int, c: Column<V>| (c.key, untag(c.slots@)))
}

spec fn single_pairs<V>(ls: Seq<SingleLease<V>>) -> Seq<(u64, LeaseView<V>)> {
    ls.map(
        |i: int, l: SingleLease<V>|
            (l.key, LeaseView { mutable: l.mutable, count: l.count as nat, row: l.row@ }),
    )
}

spec fn double_pairs<V>(ds: Seq<DoubleLease<V>>) -> Seq<((u64, u64), DoubleLeaseView<V>)> {
    ds.map(
        |i: int, d: DoubleLease<V>|
            (
                (d.key_a, d.key_b),
                DoubleLeaseView {
                    mutable: d.mutable,
                    count: d.count as nat,
                    row_a: d.row_a@,
                    row_b: d.row_b@,
                },
            ),
    )
}

spec fn col_keys_distinct<V>(cs: Seq<Column<V>>) -> bool {
    forall|i: int, j: int|
        0 <= i < j < cs.len() ==> (#[trigger] cs[i]).key != (#[trigger] cs[j]).key
}

spec fn single_keys_distinct<V>(ls: Seq<SingleLease<V>>) -> bool {
    forall|i: int, j: int|
        0 <= i < j < ls.len() ==> (#[trigger] ls[i]).key != (#[trigger] ls[j]).key
}

spec fn double_keys_disjoint<V>(ds: Seq<DoubleLease<V>>) -> bool {
    forall|i: int, j: int|
        0 <= i < ds.len() && 0 <= j < ds.len() && i != j ==> {
            let d = #[trigger] ds[i];
            let e = #[trigger] ds[j];
            d.key_a != e.key_a && d.key_a != e.key_b && d.key_b != e.key_a && d.key_b != e.key_b
        }
}

spec fn cols_wf<V>(cs: Seq<Column<V>>, n: nat) -> bool {
    forall|i: int|
        0 <= i < cs.len() ==> {
            let c = #[trigger] cs[i];
            c.slots@.len() == n && row_tagged(c.slots@, c.key)
        }
}

spec fn singles_wf<V>(ls: Seq<SingleLease<V>>, n: nat) -> bool {
    forall|i: int| 0 <= i < ls.len() ==> (#[trigger] ls[i]).row@.len() == n
}

spec fn doubles_wf<V>(ds: Seq<DoubleLease<V>>, n: nat) -> bool {
    forall|i: int|
        0 <= i < ds.len() ==> {
            let d = #[trigger] ds[i];
            d.key_a < d.key_b && d.row_a@.len() == n && d.row_b@.len() == n
        }
}

spec fn col_has_key<V>(cs: Seq<Column<V>>, key: u64) -> bool {
    exists|i: int| 0 <= i < cs.len() && (#[trigger] cs[i]).key == key
}

spec fn single_has_key<V>(ls: Seq<SingleLease<V>>, key: u64) -> bool {
    exists|i: int| 0 <= i < ls.len() && (#[trigger] ls[i]).key == key
}

spec fn double_has_key<V>(ds: Seq<DoubleLease<V>>, key: u64) -> bool {
    exists|i: int|
        0 <= i < ds.len() && ((#[trigger] ds[i]).key_a == key || ds[i].key_b == key)
}

/// Every component type resides in at most one place: the store, one single
/// lease, or one double lease.
spec fn keys_exclusive<V>(
    cs: Seq<Column<V>>,
    ls: Seq<SingleLease<V>>,
    ds: Seq<DoubleLease<V>>,
) -> bool {
    &&& forall|i: int|
        0 <= i < cs.len() ==> !single_has_key(ls, (#[trigger] cs[i]).key) && !double_has_key(
            ds,
            cs[i].key,
        )
    &&& forall|i: int| 0 <= i < ls.len() ==> !double_has_key(ds, (#[trigger] ls[i]).key)
    &&& double_keys_disjoint(ds)
}

/// The component store together with its lease manager.
///
/// Columns not currently leased live in `components`; a column moves into a
/// lease entry while it is checked out and moves back on a successful
/// release. The store is usable from one thread; callers that share it across
/// threads wrap it in their own lock.
#[derive(Debug)]
pub struct EntitySystem<V> {
    amount_of_entities: usize,
    components: Vec<Column<V>>,
    single_leases: Vec<SingleLease<V>>,
    double_leases: Vec<DoubleLease<V>>,
}

impl<V> EntitySystem<V> {
    /// How many entities have been created.
    pub closed spec fn entity_count(self) -> nat {
        self.amount_of_entities as nat
    }

    /// The columns currently resident in the store, by component-type key,
    /// in typed form. A key absent from this map is either never written or
    /// currently leased.
    pub closed spec fn store(self) -> Map<u64, Seq<Option<V>>> {
        pair_map(col_pairs(self.components@))
    }

    /// The live one-column leases, by component-type key.
    pub closed spec fn singles(self) -> Map<u64, LeaseView<V>> {
        pair_map(single_pairs(self.single_leases@))
    }

    /// The live two-column leases, by canonical key pair.
    pub closed spec fn doubles(self) -> Map<(u64, u64), DoubleLeaseView<V>> {
        pair_map(double_pairs(self.double_leases@))
    }

    /// Whether some two-column lease involves the given key.
    pub open spec fn key_in_double(self, key: u64) -> bool {
        exists|p: (u64, u64)|
            #[trigger] self.doubles().dom().contains(p) && (p.0 == key || p.1 == key)
    }

    /// Whether any live lease involves the given key.
    pub open spec fn key_leased(self, key: u64) -> bool {
        self.singles().dom().contains(key) || self.key_in_double(key)
    }

    /// The column a fresh checkout of the given key yields: the resident
    /// column if the type was ever written, else an all-absent column of the
    /// correct length.
    pub open spec fn checkout_row(self, key: u64) -> Seq<Option<V>> {
        if self.store().dom().contains(key) {
            self.store()[key]
        } else {
            all_absent(self.entity_count())
        }
    }

    /// Whether a one-column lease of the given key and mode can be granted:
    /// either by joining a live lease of the same key and mode whose
    /// reference count is not saturated, or by a fresh checkout of a key that
    /// no lease involves.
    pub open spec fn can_lease_one(self, key: u64, mutable: bool) -> bool {
        if self.singles().dom().contains(key) {
            self.singles()[key].mutable == mutable && self.singles()[key].count < usize::MAX
        } else {
            !self.key_in_double(key)
        }
    }

    /// How granting (or refusing) a one-column lease relates the new state
    /// and result to the old state: on success the lease map gains — or
    /// bumps the reference count of — the entry for the key, whose column is
    /// the checked-out one on a fresh lease, and the key leaves the store's
    /// map; on failure nothing changes and the message names the cause.
    pub open spec fn lease_one_post<T>(
        pre: Self,
        post: Self,
        key: u64,
        mutable: bool,
        r: Result<T, &'static str>,
    ) -> bool {
        &&& post.wf()
        &&& post.entity_count() == pre.entity_count()
        &&& post.doubles() == pre.doubles()
        &&& (r is Ok <==> pre.can_lease_one(key, mutable))
        &&& (r is Ok ==> post.singles() == pre.singles().insert(
            key,
            (LeaseView {
                mutable: mutable,
                count: (if pre.singles().dom().contains(key) {
                    (pre.singles()[key].count + 1) as nat
                } else {
                    1nat
                }),
                row: (if pre.singles().dom().contains(key) {
                    pre.singles()[key].row
                } else {
                    pre.checkout_row(key)
                }),
            }),
        ))
        &&& (r is Ok ==> post.store() == (if pre.singles().dom().contains(key) {
            pre.store()
        } else {
            pre.store().remove(key)
        }))
        &&& (r is Err ==> post.singles() == pre.singles() && post.store() == pre.store())
        &&& (r matches Err(m) ==> m@ == (if pre.singles().dom().contains(key)
            && pre.singles()[key].mutable == mutable {
            "the lease has too many live handles"
        } else {
            "the component type is already leased by a conflicting query"
        })@)
    }

    /// Whether a two-column lease of the given keys and mode can be granted:
    /// the keys must be in canonical rank order, and either a live lease of
    /// exactly this pair and mode is joined, or neither key is involved in
    /// any lease and both columns are checked out afresh.
    pub open spec fn can_lease_two(self, key_a: u64, key_b: u64, mutable: bool) -> bool {
        key_a < key_b && (if self.doubles().dom().contains((key_a, key_b)) {
            self.doubles()[(key_a, key_b)].mutable == mutable && self.doubles()[
                (key_a, key_b)
            ].count < usize::MAX
        } else {
            !self.key_leased(key_a) && !self.key_leased(key_b)
        })
    }

    /// How granting (or refusing) a two-column lease relates the new state
    /// and result to the old state; the counterpart of
    /// [`Self::lease_one_post`], with both columns checked out together.
    pub open spec fn lease_two_post<T>(
        pre: Self,
        post: Self,
        key_a: u64,
        key_b: u64,
        mutable: bool,
        r: Result<T, &'static str>,
    ) -> bool {
        &&& post.wf()
        &&& post.entity_count() == pre.entity_count()
        &&& post.singles() == pre.singles()
        &&& (r is Ok <==> pre.can_lease_two(key_a, key_b, mutable))
        &&& (r is Ok ==> post.doubles() == pre.doubles().insert(
            (key_a, key_b),
            (DoubleLeaseView {
                mutable: mutable,
                count: (if pre.doubles().dom().contains((key_a, key_b)) {
                    (pre.doubles()[(key_a, key_b)].count + 1) as nat
                } else {
                    1nat
                }),
                row_a: (if pre.doubles().dom().contains((key_a, key_b)) {
                    pre.doubles()[(key_a, key_b)].row_a
                } else {
                    pre.checkout_row(key_a)
                }),
                row_b: (if pre.doubles().dom().contains((key_a, key_b)) {
                    pre.doubles()[(key_a, key_b)].row_b
                } else {
                    pre.checkout_row(key_b)
                }),
            }),
        ))
        &&& (r is Ok ==> post.store() == (if pre.doubles().dom().contains((key_a, key_b)) {
            pre.store()
        } else {
            pre.store().remove(key_a).remove(key_b)
        }))
        &&& (r is Err ==> post.doubles() == pre.doubles() && post.store() == pre.store())
        &&& (r matches Err(m) ==> m@ == (if key_a >= key_b {
            "a pair query must name the lower ranked component type first"
        } else if pre.doubles().dom().contains((key_a, key_b)) && pre.doubles()[
            (key_a, key_b)
        ].mutable == mutable {
            "the lease has too many live handles"
        } else {
            "the component type is already leased by a conflicting query"
        })@)
    }

    /// How giving one handle of a one-column lease up relates the new state
    /// to the old: the reference count drops by one and nothing else moves —
    /// in particular the leased column is not returned to the store.
    pub open spec fn drop_one_post(pre: Self, post: Self, key: u64) -> bool {
        &&& post.wf()
        &&& post.entity_count() == pre.entity_count()
        &&& post.store() == pre.store()
        &&& post.doubles() == pre.doubles()
        &&& (if pre.singles().dom().contains(key) && pre.singles()[key].count > 0 {
            post.singles() == pre.singles().insert(
                key,
                (LeaseView {
                    mutable: pre.singles()[key].mutable,
                    count: (pre.singles()[key].count - 1) as nat,
                    row: pre.singles()[key].row,
                }),
            )
        } else {
            post.singles() == pre.singles()
        })
    }

    /// The two-column counterpart of [`Self::drop_one_post`].
    pub open spec fn drop_two_post(pre: Self, post: Self, key_a: u64, key_b: u64) -> bool {
        &&& post.wf()
        &&& post.entity_count() == pre.entity_count()
        &&& post.store() == pre.store()
        &&& post.singles() == pre.singles()
        &&& (if pre.doubles().dom().contains((key_a, key_b)) && pre.doubles()[
            (key_a, key_b)
        ].count > 0 {
            post.doubles() == pre.doubles().insert(
                (key_a, key_b),
                (DoubleLeaseView {
                    mutable: pre.doubles()[(key_a, key_b)].mutable,
                    count: (pre.doubles()[(key_a, key_b)].count - 1) as nat,
                    row_a: pre.doubles()[(key_a, key_b)].row_a,
                    row_b: pre.doubles()[(key_a, key_b)].row_b,
                }),
            )
        } else {
            post.doubles() == pre.doubles()
        })
    }

    /// How writing one slot through a mutable one-column lease relates the
    /// new state and result to the old: the write lands exactly when the key
    /// holds a mutable lease and the slot is a present one, and nothing else
    /// moves.
    pub open spec fn set_one_post(
        pre: Self,
        post: Self,
        key: u64,
        id: usize,
        value: V,
        r: bool,
    ) -> bool {
        &&& post.wf()
        &&& post.entity_count() == pre.entity_count()
        &&& post.store() == pre.store()
        &&& post.doubles() == pre.doubles()
        &&& r == (pre.singles().dom().contains(key) && pre.singles()[key].mutable && id < pre
            .singles()[key].row.len() && pre.singles()[key].row[id as int] is Some)
        &&& (r ==> post.singles() == pre.singles().insert(
            key,
            (LeaseView {
                mutable: true,
                count: pre.singles()[key].count,
                row: pre.singles()[key].row.update(id as int, Some(value)),
            }),
        ))
        &&& (!r ==> post.singles() == pre.singles())
    }

    /// The two-column counterpart of [`Self::set_one_post`]: `left` selects
    /// which of the pair's two columns is written, and the write lands only
    /// at an index where both columns have a present slot — the indices a
    /// mutable two-column query iterates over.
    pub open spec fn set_two_post(
        pre: Self,
        post: Self,
        key_a: u64,
        key_b: u64,
        left: bool,
        id: usize,
        value: V,
        r: bool,
    ) -> bool {
        &&& post.wf()
        &&& post.entity_count() == pre.entity_count()
        &&& post.store() == pre.store()
        &&& post.singles() == pre.singles()
        &&& r == (pre.doubles().dom().contains((key_a, key_b)) && pre.doubles()[
            (key_a, key_b)
        ].mutable && id < pre.doubles()[(key_a, key_b)].row_a.len() && pre.doubles()[
            (key_a, key_b)
        ].row_a[id as int] is Some && id < pre.doubles()[(key_a, key_b)].row_b.len() && pre
            .doubles()[(key_a, key_b)].row_b[id as int] is Some)
        &&& (r ==> post.doubles() == pre.doubles().insert(
            (key_a, key_b),
            (DoubleLeaseView {
                mutable: true,
                count: pre.doubles()[(key_a, key_b)].count,
                row_a: (if left {
                    pre.doubles()[(key_a, key_b)].row_a.update(id as int, Some(value))
                } else {
                    pre.doubles()[(key_a, key_b)].row_a
                }),
                row_b: (if left {
                    pre.doubles()[(key_a, key_b)].row_b
                } else {
                    pre.doubles()[(key_a, key_b)].row_b.update(id as int, Some(value))
                }),
            }),
        ))
        &&& (!r ==> post.doubles() == pre.doubles())
    }

    /// Whether no lease at all is live.
    pub open spec fn unleased(self) -> bool {
        self.singles().dom() =~= Set::<u64>::empty() && self.doubles().dom() =~= Set::<
            (u64, u64),
        >::empty()
    }

    /// Well-formedness: keys are unique in the store and in each cache, a
    /// component type resides in at most one of the three, every two-column
    /// lease is canonically ordered, every slot of a stored column carries
    /// that column's key, and every column — resident or leased — has exactly
    /// one slot per entity.
    pub closed spec fn wf(self) -> bool {
        &&& col_keys_distinct(self.components@)
        &&& single_keys_distinct(self.single_leases@)
        &&& cols_wf(self.components@, self.entity_count())
        &&& singles_wf(self.single_leases@, self.entity_count())
        &&& doubles_wf(self.double_leases@, self.entity_count())
        &&& keys_exclusive(self.components@, self.single_leases@, self.double_leases@)
    }

    /// Creates a new entity system with no entities, no columns and no leases.
    pub fn new() -> (s: Self)
        ensures
            s.wf(),
            s.entity_count() == 0,
            s.store() == Map::<u64, Seq<Option<V>>>::empty(),
            s.singles() == Map::<u64, LeaseView<V>>::empty(),
            s.doubles() == Map::<(u64, u64), DoubleLeaseView<V>>::empty(),
    {
        let s = Self {
            amount_of_entities: 0,
            components: Vec::new(),
            single_leases: Vec::new(),
            double_leases: Vec::new(),
        };
        proof {
            assert(col_pairs(s.components@) =~= Seq::<(u64, Seq<Option<V>>)>::empty());
            assert(single_pairs(s.single_leases@) =~= Seq::<(u64, LeaseView<V>)>::empty());
            assert(double_pairs(s.double_leases@) =~= Seq::<
                ((u64, u64), DoubleLeaseView<V>),
            >::empty());
        }
        s
    }

    /// Adds a new entity: appends an absent slot to every resident column and
    /// increments the entity count. Entities are only added while no lease is
    /// live, so that every column — none being checked out — keeps one slot
    /// per entity.
    pub fn add_entity(self) -> (s: Self)
        requires
            self.wf(),
            self.unleased(),
            self.entity_count() < usize::MAX,
        ensures
            s.wf(),
            s.unleased(),
            s.entity_count() == self.entity_count() + 1,
            s.singles() == self.singles(),
            s.doubles() == self.doubles(),
            s.store().dom() == self.store().dom(),
            forall|k: u64| #![auto]
                self.store().dom().contains(k) ==> s.store()[k] == self.store()[k].push(
                    None::<V>,
                ),
    {
        let ghost orig = self;
        let mut this = self;
        proof {
            lemma_unleased_vecs_empty(orig);
        }
        let mut rest = this.components;
        this.components = Vec::new();
        let ghost old_cols = rest@;
        proof {
            assert(old_cols == orig.components@);
        }
        while rest.len() > 0
            invariant
                this.amount_of_entities == orig.amount_of_entities,
                this.single_leases@ == orig.single_leases@,
                this.double_leases@ == orig.double_leases@,
                orig.entity_count() < usize::MAX,
                this.components@.len() + rest@.len() == old_cols.len(),
                forall|i: int|
                    0 <= i < this.components@.len() ==> {
                        let c = #[trigger] this.components@[i];
                        c.key == old_cols[i].key && c.slots@ == old_cols[i].slots@.push(
                            None::<Tagged<V>>,
                        )
                    },
                forall|i: int|
                    0 <= i < rest@.len() ==> #[trigger] rest@[i] == old_cols[i
                        + this.components@.len()],
            decreases rest@.len(),
        {
            let mut c = rest.remove(0);
            c.slots.push(None);
            this.components.push(c);
        }
        this.amount_of_entities = this.amount_of_entities + 1;
        let s = this;
        proof {
            assert(cols_wf(old_cols, orig.entity_count()));
            lemma_grown_store(old_cols, s.components@);
            assert(s.wf()) by {
                assert forall|i: int| 0 <= i < s.components@.len() implies {
                    let c = #[trigger] s.components@[i];
                    c.slots@.len() == s.entity_count() && row_tagged(c.slots@, c.key)
                } by {
                    let c = s.components@[i];
                    let o = old_cols[i];
                    assert(o.slots@.len() == orig.entity_count() && row_tagged(o.slots@, o.key));
                    assert forall|j: int|
                        0 <= j < c.slots@.len() implies ((#[trigger] c.slots@[j]) matches Some(t)
                        ==> t.key == c.key) by {
                        if j < o.slots@.len() {
                            assert(c.slots@[j] == o.slots@[j]);
                            assert(o.slots@[j] matches Some(t) ==> t.key == o.key);
                        }
                    }
                }
            }
        }
        s
    }

    /// Attaches a component to the most recently added entity: writes the
    /// value into the last slot of its type's column, creating the column —
    /// pre-filled with absent slots — if this type was never written. The
    /// type must not be leased, since a leased column is not resident.
    pub fn with(self, component: Tagged<V>) -> (s: Self)
        requires
            self.wf(),
            0 < self.entity_count(),
            !self.key_leased(component.key),
        ensures
            s.wf(),
            s.entity_count() == self.entity_count(),
            s.singles() == self.singles(),
            s.doubles() == self.doubles(),
            s.store() == self.store().insert(
                component.key,
                (if self.store().dom().contains(component.key) {
                    self.store()[component.key]
                } else {
                    all_absent(self.entity_count())
                }).update(self.entity_count() - 1, Some(component.value)),
            ),
    {
        let ghost orig = self;
        let key = component.key;
        let mut this = self;
        proof {
            lemma_key_unleased_vecs(orig, key);
        }
        let mut col: Column<V>;
        let found = find_col(&this.components, key);
        let ghost old_cols = this.components@;
        proof {
            assert(cols_wf(old_cols, orig.entity_count()));
        }
        match found {
            Some(i) => {
                col = this.components.remove(i);
                proof {
                    let c = old_cols[i as int];
                    assert(c.slots@.len() == orig.entity_count() && row_tagged(c.slots@, c.key));
                    lemma_col_pairs_distinct(old_cols);
                    lemma_pair_map_remove(col_pairs(old_cols), i as int);
                    lemma_pair_map_index(col_pairs(old_cols), i as int);
                    assert(col_pairs(old_cols)[i as int] == (c.key, untag(c.slots@)));
                    assert(col_pairs(old_cols.remove(i as int)) =~= col_pairs(old_cols).remove(
                        i as int,
                    ));
                    lemma_col_dom(old_cols, key);
                }
            },
            None => {
                col = Column { key, slots: blank_row(this.amount_of_entities) };
                proof {
                    lemma_col_dom(old_cols, key);
                }
            },
        }
        let ghost pre_slots = col.slots@;
        proof {
            assert(pre_slots.len() == orig.entity_count());
            assert(row_tagged(pre_slots, key));
            assert(untag(pre_slots) =~= (if orig.store().dom().contains(key) {
                orig.store()[key]
            } else {
                all_absent(orig.entity_count())
            }));
        }
        let last = this.amount_of_entities - 1;
        col.slots[last] = Some(Tagged { key, value: component.value });
        let ghost new_slots = col.slots@;
        this.components.push(col);
        let s = this;
        proof {
            let target = (if orig.store().dom().contains(key) {
                orig.store()[key]
            } else {
                all_absent(orig.entity_count())
            }).update(orig.entity_count() - 1, Some(component.value));
            assert(new_slots == pre_slots.update(orig.entity_count() - 1, Some(Tagged {
                key,
                value: component.value,
            })));
            assert(untag(new_slots) =~= target);
            assert(row_tagged(new_slots, key)) by {
                assert forall|j: int|
                    0 <= j < new_slots.len() implies ((#[trigger] new_slots[j]) matches Some(t)
                    ==> t.key == key) by {
                    if j != orig.entity_count() - 1 {
                        assert(new_slots[j] == pre_slots[j]);
                        assert(pre_slots[j] matches Some(t) ==> t.key == key);
                    }
                }
            }
            match found {
                Some(i) => {
                    assert(s.components@.drop_last() =~= old_cols.remove(i as int));
                },
                None => {
                    assert(s.components@.drop_last() =~= old_cols);
                },
            }
            lemma_pair_map_push(col_pairs(s.components@.drop_last()), (key, untag(new_slots)));
            assert(col_pairs(s.components@) =~= col_pairs(s.components@.drop_last()).push(
                (key, untag(new_slots)),
            ));
            match found {
                Some(i) => {
                    assert(s.store() == orig.store().remove(key).insert(key, untag(new_slots)));
                    assert(orig.store().remove(key).insert(key, target) =~~= orig.store().insert(
                        key,
                        target,
                    ));
                },
                None => {
                    assert(s.store() == orig.store().insert(key, untag(new_slots)));
                },
            }
            assert(s.store() == orig.store().insert(key, target));
            assert(s.wf()) by {
                lemma_with_wf(orig, s, key, old_cols, found);
            }
        }
        s
    }

    /// Grants a one-column lease: joins the live lease for the key if one of
    /// the same mode exists, else checks the column out of the store.
    fn lease_one(&mut self, key: u64, mutable: bool) -> (r: Result<(), &'static str>)
        requires
            old(self).wf(),
        ensures
            Self::lease_one_post(*old(self), *final(self), key, mutable, r),
    {
        let ghost orig = *self;
        match find_single(&self.single_leases, key) {
            Some(i) => {
                proof {
                    lemma_single_pairs_distinct(orig.single_leases@);
                    lemma_pair_map_index(single_pairs(orig.single_leases@), i as int);
                    assert(single_pairs(orig.single_leases@)[i as int] == (
                        orig.single_leases@[i as int].key,
                        LeaseView {
                            mutable: orig.single_leases@[i as int].mutable,
                            count: orig.single_leases@[i as int].count as nat,
                            row: orig.single_leases@[i as int].row@,
                        },
                    ));
                }
                if self.single_leases[i].mutable != mutable {
                    return Err("the component type is already leased by a conflicting query");
                }
                if self.single_leases[i].count == usize::MAX {
                    return Err("the lease has too many live handles");
                }
                let mut e = self.single_leases.remove(i);
                e.count = e.count + 1;
                let ghost ge = e;
                self.single_leases.push(e);
                proof {
                    lemma_single_replace(orig, *self, i as int, ge);
                }
                Ok(())
            },
            None => {
                proof {
                    lemma_single_dom(orig.single_leases@, key);
                }
                match find_double_containing(&self.double_leases, key) {
                    Some(di) => {
                        proof {
                            assert(double_has_key(orig.double_leases@, key)) by {
                                assert(orig.double_leases@[di as int].key_a == key
                                    || orig.double_leases@[di as int].key_b == key);
                            }
                            lemma_double_key(orig, key);
                        }
                        Err("the component type is already leased by a conflicting query")
                    },
                    None => {
                        proof {
                            lemma_double_key(orig, key);
                        }
                        let row: Vec<Option<V>>;
                        let cf = find_col(&self.components, key);
                        match cf {
                            Some(ci) => {
                                let c = self.components.remove(ci);
                                proof {
                                    assert(cols_wf(orig.components@, orig.entity_count()));
                                    assert(orig.components@[ci as int].slots@.len()
                                        == orig.entity_count() && row_tagged(
                                        orig.components@[ci as int].slots@,
                                        orig.components@[ci as int].key,
                                    ));
                                }
                                row = recover_row(c.slots, key);
                            },
                            None => {
                                row = absent_vrow(self.amount_of_entities);
                            },
                        }
                        let entry = SingleLease { key, mutable, count: 1, row };
                        let ghost ge = entry;
                        self.single_leases.push(entry);
                        proof {
                            lemma_fresh_single(orig, *self, ge, cf);
                        }
                        Ok(())
                    },
                }
            },
        }
    }

    /// Leases the column of the given component type for shared reading and
    /// returns a handle on the lease. Joins — and bumps the reference count
    /// of — the live read lease for this key if one exists; fails if the key
    /// is held by a mutable or a two-column lease, or if the reference count
    /// is saturated.
    pub fn query_with_one(&mut self, key: u64) -> (r: Result<SingleQuery, &'static str>)
        requires
            old(self).wf(),
        ensures
            Self::lease_one_post(*old(self), *final(self), key, false, r),
            (r matches Ok(q) ==> q.key == key),
    {
        match self.lease_one(key, false) {
            Ok(_) => Ok(SingleQuery::new(key)),
            Err(m) => Err(m),
        }
    }

    /// Leases the column of the given component type for mutation and
    /// returns a handle on the lease. Joins — and bumps the reference count
    /// of — the live mutable lease for this key if one exists; fails if the
    /// key is held by a read or a two-column lease, or if the reference
    /// count is saturated.
    pub fn mut_query_with_one(&mut self, key: u64) -> (r: Result<SingleMutQuery, &'static str>)
        requires
            old(self).wf(),
        ensures
            Self::lease_one_post(*old(self), *final(self), key, true, r),
            (r matches Ok(q) ==> q.key == key),
    {
        match self.lease_one(key, true) {
            Ok(_) => Ok(SingleMutQuery::new(key)),
            Err(m) => Err(m),
        }
    }

    /// Removes the column of the given key from the store and returns it in
    /// typed form; a key that has no resident column yields an all-absent
    /// column of the correct length.
    fn checkout_col(&mut self, key: u64) -> (row: Vec<Option<V>>)
        requires
            old(self).wf(),
        ensures
            final(self).wf(),
            final(self).entity_count() == old(self).entity_count(),
            final(self).singles() == old(self).singles(),
            final(self).doubles() == old(self).doubles(),
            final(self).store() == old(self).store().remove(key),
            row@ == old(self).checkout_row(key),
            row@.len() == old(self).entity_count(),
    {
        let ghost orig = *self;
        match find_col(&self.components, key) {
            Some(ci) => {
                let c = self.components.remove(ci);
                proof {
                    assert(cols_wf(orig.components@, orig.entity_count()));
                    assert(orig.components@[ci as int].slots@.len() == orig.entity_count()
                        && row_tagged(
                        orig.components@[ci as int].slots@,
                        orig.components@[ci as int].key,
                    ));
                    lemma_remove_col(orig, *self, ci as int);
                }
                recover_row(c.slots, key)
            },
            None => {
                proof {
                    lemma_col_dom(orig.components@, key);
                    assert(orig.store().remove(key) =~~= orig.store());
                }
                absent_vrow(self.amount_of_entities)
            },
        }
    }

    /// Grants a two-column lease: joins the live lease for exactly this key
    /// pair if one of the same mode exists, else checks both columns out of
    /// the store together.
    fn lease_two(&mut self, key_a: u64, key_b: u64, mutable: bool) -> (r: Result<
        (),
        &'static str,
    >)
        requires
            old(self).wf(),
        ensures
            Self::lease_two_post(*old(self), *final(self), key_a, key_b, mutable, r),
    {
        let ghost orig = *self;
        if key_a >= key_b {
            return Err("a pair query must name the lower ranked component type first");
        }
        match find_double(&self.double_leases, key_a, key_b) {
            Some(i) => {
                proof {
                    lemma_double_pairs_distinct(orig.double_leases@);
                    lemma_pair_map_index(double_pairs(orig.double_leases@), i as int);
                    assert(double_pairs(orig.double_leases@)[i as int] == (
                        (key_a, key_b),
                        DoubleLeaseView {
                            mutable: orig.double_leases@[i as int].mutable,
                            count: orig.double_leases@[i as int].count as nat,
                            row_a: orig.double_leases@[i as int].row_a@,
                            row_b: orig.double_leases@[i as int].row_b@,
                        },
                    ));
                }
                if self.double_leases[i].mutable != mutable {
                    return Err("the component type is already leased by a conflicting query");
                }
                if self.double_leases[i].count == usize::MAX {
                    return Err("the lease has too many live handles");
                }
                let mut e = self.double_leases.remove(i);
                e.count = e.count + 1;
                let ghost ge = e;
                self.double_leases.push(e);
                proof {
                    lemma_double_replace(orig, *self, i as int, ge);
                }
                Ok(())
            },
            None => {
                proof {
                    lemma_double_dom(orig.double_leases@, (key_a, key_b));
                    assert(!orig.doubles().dom().contains((key_a, key_b)));
                }
                match find_single(&self.single_leases, key_a) {
                    Some(si) => {
                        proof {
                            assert(single_has_key(orig.single_leases@, key_a)) by {
                                assert(orig.single_leases@[si as int].key == key_a);
                            }
                            lemma_single_dom(orig.single_leases@, key_a);
                        }
                        return Err("the component type is already leased by a conflicting query");
                    },
                    None => {},
                }
                match find_single(&self.single_leases, key_b) {
                    Some(si) => {
                        proof {
                            assert(single_has_key(orig.single_leases@, key_b)) by {
                                assert(orig.single_leases@[si as int].key == key_b);
                            }
                            lemma_single_dom(orig.single_leases@, key_b);
                        }
                        return Err("the component type is already leased by a conflicting query");
                    },
                    None => {},
                }
                match find_double_containing(&self.double_leases, key_a) {
                    Some(di) => {
                        proof {
                            assert(double_has_key(orig.double_leases@, key_a)) by {
                                assert(orig.double_leases@[di as int].key_a == key_a
                                    || orig.double_leases@[di as int].key_b == key_a);
                            }
                            lemma_double_key(orig, key_a);
                        }
                        return Err("the component type is already leased by a conflicting query");
                    },
                    None => {},
                }
                match find_double_containing(&self.double_leases, key_b) {
                    Some(di) => {
                        proof {
                            assert(double_has_key(orig.double_leases@, key_b)) by {
                                assert(orig.double_leases@[di as int].key_a == key_b
                                    || orig.double_leases@[di as int].key_b == key_b);
                            }
                            lemma_double_key(orig, key_b);
                        }
                        return Err("the component type is already leased by a conflicting query");
                    },
                    None => {},
                }
                proof {
                    lemma_single_dom(orig.single_leases@, key_a);
                    lemma_single_dom(orig.single_leases@, key_b);
                    lemma_double_key(orig, key_a);
                    lemma_double_key(orig, key_b);
                    assert(!orig.key_leased(key_a) && !orig.key_leased(key_b));
                }
                let row_a = self.checkout_col(key_a);
                let ghost mid = *self;
                let row_b = self.checkout_col(key_b);
                let ghost pre = *self;
                proof {
                    assert(mid.checkout_row(key_b) == orig.checkout_row(key_b));
                    lemma_col_dom(pre.components@, key_a);
                    lemma_col_dom(pre.components@, key_b);
                    lemma_single_dom(pre.single_leases@, key_a);
                    lemma_single_dom(pre.single_leases@, key_b);
                    lemma_double_key(pre, key_a);
                    lemma_double_key(pre, key_b);
                }
                let entry = DoubleLease { key_a, key_b, mutable, count: 1, row_a, row_b };
                let ghost ge = entry;
                self.double_leases.push(entry);
                proof {
                    lemma_fresh_double(pre, *self, ge);
                }
                Ok(())
            },
        }
    }

    /// Leases the columns of the given pair of component types for shared
    /// reading, both checked out together, and returns a handle on the
    /// lease. The first key must rank below the second; joins the live read
    /// lease for exactly this pair if one exists; fails on a rank-order
    /// violation, if either key is involved in any other lease, or if the
    /// reference count is saturated.
    pub fn query_with_two(&mut self, key_a: u64, key_b: u64) -> (r: Result<
        DoubleQuery,
        &'static str,
    >)
        requires
            old(self).wf(),
        ensures
            Self::lease_two_post(*old(self), *final(self), key_a, key_b, false, r),
            (r matches Ok(q) ==> q.key_a == key_a && q.key_b == key_b),
    {
        match self.lease_two(key_a, key_b, false) {
            Ok(_) => Ok(DoubleQuery::new(key_a, key_b)),
            Err(m) => Err(m),
        }
    }

    /// Leases the columns of the given pair of component types for mutation,
    /// both checked out together, and returns a handle on the lease. The
    /// first key must rank below the second; joins the live mutable lease
    /// for exactly this pair if one exists; fails on a rank-order violation,
    /// if either key is involved in any other lease, or if the reference
    /// count is saturated.
    pub fn mut_query_with_two(&mut self, key_a: u64, key_b: u64) -> (r: Result<
        DoubleMutQuery,
        &'static str,
    >)
        requires
            old(self).wf(),
        ensures
            Self::lease_two_post(*old(self), *final(self), key_a, key_b, true, r),
            (r matches Ok(q) ==> q.key_a == key_a && q.key_b == key_b),
    {
        match self.lease_two(key_a, key_b, true) {
            Ok(_) => Ok(DoubleMutQuery::new(key_a, key_b)),
            Err(m) => Err(m),
        }
    }

    /// Releases the two-column lease for the given key pair, whatever its
    /// mode. Succeeds — checking both columns back into the store — only
    /// when the caller's handle is the only outstanding one; fails with an
    /// explicit "still active" result, changing nothing, while other handles
    /// remain. Releasing a pair that holds no lease succeeds and changes
    /// nothing.
    pub fn try_clear_query_with_two(&mut self, key_a: u64, key_b: u64) -> (r: Result<
        (),
        &'static str,
    >)
        requires
            old(self).wf(),
        ensures
            final(self).wf(),
            final(self).entity_count() == old(self).entity_count(),
            final(self).singles() == old(self).singles(),
            (r is Ok <==> !(old(self).doubles().dom().contains((key_a, key_b))
                && old(self).doubles()[(key_a, key_b)].count > 1)),
            (r is Ok && !old(self).doubles().dom().contains((key_a, key_b))
                ==> final(self).doubles() == old(self).doubles()
                    && final(self).store() == old(self).store()),
            (r is Ok && old(self).doubles().dom().contains((key_a, key_b))
                ==> final(self).doubles() == old(self).doubles().remove((key_a, key_b))
                    && final(self).store() == old(self).store().insert(
                        key_a,
                        old(self).doubles()[(key_a, key_b)].row_a,
                    ).insert(key_b, old(self).doubles()[(key_a, key_b)].row_b)),
            (r is Err ==> final(self).doubles() == old(self).doubles() && final(self).store()
                == old(self).store()),
            (r matches Err(m) ==> m@ == "There are still active queris"@),
    {
        let ghost orig = *self;
        match find_double(&self.double_leases, key_a, key_b) {
            None => {
                proof {
                    lemma_double_dom(orig.double_leases@, (key_a, key_b));
                }
                Ok(())
            },
            Some(i) => {
                proof {
                    lemma_double_pairs_distinct(orig.double_leases@);
                    lemma_pair_map_index(double_pairs(orig.double_leases@), i as int);
                    assert(double_pairs(orig.double_leases@)[i as int] == (
                        (key_a, key_b),
                        DoubleLeaseView {
                            mutable: orig.double_leases@[i as int].mutable,
                            count: orig.double_leases@[i as int].count as nat,
                            row_a: orig.double_leases@[i as int].row_a@,
                            row_b: orig.double_leases@[i as int].row_b@,
                        },
                    ));
                }
                if self.double_leases[i].count > 1 {
                    return Err("There are still active queris");
                }
                let e = self.double_leases.remove(i);
                let col_a = Column { key: key_a, slots: tag_row(e.row_a, key_a) };
                self.components.push(col_a);
                let ghost mid = *self;
                let col_b = Column { key: key_b, slots: tag_row(e.row_b, key_b) };
                self.components.push(col_b);
                proof {
                    lemma_checkin_two(orig, mid, *self, i as int);
                }
                Ok(())
            },
        }
    }

    /// Releases the one-column lease for the given key, whatever its mode.
    ///
    /// Succeeds — converting the leased column back to erased form and
    /// checking it into the store — only when the caller's handle is the
    /// only outstanding one; fails with an explicit "still active" result,
    /// changing nothing, while other handles remain. Releasing a key that
    /// holds no one-column lease succeeds and changes nothing.
    pub fn try_clear_query_with_one(&mut self, key: u64) -> (r: Result<(), &'static str>)
        requires
            old(self).wf(),
        ensures
            final(self).wf(),
            final(self).entity_count() == old(self).entity_count(),
            final(self).doubles() == old(self).doubles(),
            (r is Ok <==> !(old(self).singles().dom().contains(key) && old(self).singles()[key].count
                > 1)),
            (r is Ok && !old(self).singles().dom().contains(key) ==> final(self).singles() == old(
                self,
            ).singles() && final(self).store() == old(self).store()),
            (r is Ok && old(self).singles().dom().contains(key) ==> final(self).singles() == old(
                self,
            ).singles().remove(key) && final(self).store() == old(self).store().insert(
                key,
                old(self).singles()[key].row,
            )),
            (r is Err ==> final(self).singles() == old(self).singles() && final(self).store() == old(
                self,
            ).store()),
            (r matches Err(m) ==> m@ == "There are still active queris"@),
    {
        let ghost orig = *self;
        match find_single(&self.single_leases, key) {
            None => {
                proof {
                    lemma_single_dom(orig.single_leases@, key);
                }
                Ok(())
            },
            Some(i) => {
                proof {
                    lemma_single_pairs_distinct(orig.single_leases@);
                    lemma_pair_map_index(single_pairs(orig.single_leases@), i as int);
                    assert(single_pairs(orig.single_leases@)[i as int] == (
                        orig.single_leases@[i as int].key,
                        LeaseView {
                            mutable: orig.single_leases@[i as int].mutable,
                            count: orig.single_leases@[i as int].count as nat,
                            row: orig.single_leases@[i as int].row@,
                        },
                    ));
                }
                if self.single_leases[i].count > 1 {
                    return Err("There are still active queris");
                }
                let e = self.single_leases.remove(i);
                let col = Column { key, slots: tag_row(e.row, key) };
                self.components.push(col);
                proof {
                    lemma_checkin_one(orig, *self, i as int);
                }
                Ok(())
            },
        }
    }

    /// Gives one handle of the one-column lease for the given key up: its
    /// reference count drops by one. Handing the data back to the store
    /// remains a separate, explicit release.
    pub(crate) fn drop_one(&mut self, key: u64)
        requires
            old(self).wf(),
        ensures
            Self::drop_one_post(*old(self), *final(self), key),
    {
        let ghost orig = *self;
        match find_single(&self.single_leases, key) {
            None => {
                proof {
                    lemma_single_dom(orig.single_leases@, key);
                }
            },
            Some(i) => {
                proof {
                    lemma_single_pairs_distinct(orig.single_leases@);
                    lemma_pair_map_index(single_pairs(orig.single_leases@), i as int);
                    assert(single_pairs(orig.single_leases@)[i as int] == (
                        orig.single_leases@[i as int].key,
                        LeaseView {
                            mutable: orig.single_leases@[i as int].mutable,
                            count: orig.single_leases@[i as int].count as nat,
                            row: orig.single_leases@[i as int].row@,
                        },
                    ));
                }
                if self.single_leases[i].count > 0 {
                    let mut e = self.single_leases.remove(i);
                    e.count = e.count - 1;
                    let ghost ge = e;
                    self.single_leases.push(e);
                    proof {
                        lemma_single_replace(orig, *self, i as int, ge);
                    }
                }
            },
        }
    }

    /// The two-column counterpart of [`Self::drop_one`].
    pub(crate) fn drop_two(&mut self, key_a: u64, key_b: u64)
        requires
            old(self).wf(),
        ensures
            Self::drop_two_post(*old(self), *final(self), key_a, key_b),
    {
        let ghost orig = *self;
        match find_double(&self.double_leases, key_a, key_b) {
            None => {
                proof {
                    lemma_double_dom(orig.double_leases@, (key_a, key_b));
                }
            },
            Some(i) => {
                proof {
                    lemma_double_pairs_distinct(orig.double_leases@);
                    lemma_pair_map_index(double_pairs(orig.double_leases@), i as int);
                    assert(double_pairs(orig.double_leases@)[i as int] == (
                        (key_a, key_b),
                        DoubleLeaseView {
                            mutable: orig.double_leases@[i as int].mutable,
                            count: orig.double_leases@[i as int].count as nat,
                            row_a: orig.double_leases@[i as int].row_a@,
                            row_b: orig.double_leases@[i as int].row_b@,
                        },
                    ));
                }
                if self.double_leases[i].count > 0 {
                    let mut e = self.double_leases.remove(i);
                    e.count = e.count - 1;
                    let ghost ge = e;
                    self.double_leases.push(e);
                    proof {
                        lemma_double_replace(orig, *self, i as int, ge);
                    }
                }
            },
        }
    }

    /// Writes one slot of the column held by the mutable one-column lease
    /// for the given key; only a present slot can be written.
    pub(crate) fn set_one(&mut self, key: u64, id: usize, value: V) -> (r: bool)
        requires
            old(self).wf(),
        ensures
            Self::set_one_post(*old(self), *final(self), key, id, value, r),
    {
        let ghost orig = *self;
        match find_single(&self.single_leases, key) {
            None => {
                proof {
                    lemma_single_dom(orig.single_leases@, key);
                }
                false
            },
            Some(i) => {
                proof {
                    lemma_single_pairs_distinct(orig.single_leases@);
                    lemma_pair_map_index(single_pairs(orig.single_leases@), i as int);
                    assert(single_pairs(orig.single_leases@)[i as int] == (
                        orig.single_leases@[i as int].key,
                        LeaseView {
                            mutable: orig.single_leases@[i as int].mutable,
                            count: orig.single_leases@[i as int].count as nat,
                            row: orig.single_leases@[i as int].row@,
                        },
                    ));
                }
                if !self.single_leases[i].mutable {
                    return false;
                }
                if id >= self.single_leases[i].row.len() {
                    return false;
                }
                if self.single_leases[i].row[id].is_none() {
                    return false;
                }
                let mut e = self.single_leases.remove(i);
                e.row[id] = Some(value);
                let ghost ge = e;
                self.single_leases.push(e);
                proof {
                    lemma_single_replace(orig, *self, i as int, ge);
                }
                true
            },
        }
    }

    /// Writes one slot of one column of the pair held by the mutable
    /// two-column lease for the given keys; `left` selects the column, and
    /// only an index at which both columns have a present slot can be
    /// written.
    pub(crate) fn set_two(&mut self, key_a: u64, key_b: u64, left: bool, id: usize, value: V) -> (r:
        bool)
        requires
            old(self).wf(),
        ensures
            Self::set_two_post(*old(self), *final(self), key_a, key_b, left, id, value, r),
    {
        let ghost orig = *self;
        match find_double(&self.double_leases, key_a, key_b) {
            None => {
                proof {
                    lemma_double_dom(orig.double_leases@, (key_a, key_b));
                }
                false
            },
            Some(i) => {
                proof {
                    lemma_double_pairs_distinct(orig.double_leases@);
                    lemma_pair_map_index(double_pairs(orig.double_leases@), i as int);
                    assert(double_pairs(orig.double_leases@)[i as int] == (
                        (key_a, key_b),
                        DoubleLeaseView {
                            mutable: orig.double_leases@[i as int].mutable,
                            count: orig.double_leases@[i as int].count as nat,
                            row_a: orig.double_leases@[i as int].row_a@,
                            row_b: orig.double_leases@[i as int].row_b@,
                        },
                    ));
                }
                if !self.double_leases[i].mutable {
                    return false;
                }
                if id >= self.double_leases[i].row_a.len() || id >= self.double_leases[i].row_b.len()
                {
                    return false;
                }
                if self.double_leases[i].row_a[id].is_none() || self.double_leases[i].row_b[
                    id
                ].is_none() {
                    return false;
                }
                let mut e = self.double_leases.remove(i);
                if left {
                    e.row_a[id] = Some(value);
                } else {
                    e.row_b[id] = Some(value);
                }
                let ghost ge = e;
                self.double_leases.push(e);
                proof {
                    lemma_double_replace(orig, *self, i as int, ge);
                }
                true
            },
        }
    }
}

impl<V: Copy> EntitySystem<V> {
    /// The present components of the column held by the one-column lease for
    /// the given key, in ascending entity order; an unleased key yields
    /// nothing.
    pub(crate) fn collect_one(&self, key: u64) -> (r: Vec<(crate::entity_system::query::ID, V)>)
        requires
            self.wf(),
        ensures
            r@ == (if self.singles().dom().contains(key) {
                crate::entity_system::query::present_pairs(self.singles()[key].row)
            } else {
                Seq::<(crate::entity_system::query::ID, V)>::empty()
            }),
    {
        match find_single(&self.single_leases, key) {
            None => {
                proof {
                    lemma_single_dom(self.single_leases@, key);
                }
                Vec::new()
            },
            Some(i) => {
                proof {
                    lemma_single_pairs_distinct(self.single_leases@);
                    lemma_pair_map_index(single_pairs(self.single_leases@), i as int);
                    assert(single_pairs(self.single_leases@)[i as int] == (
                        self.single_leases@[i as int].key,
                        LeaseView {
                            mutable: self.single_leases@[i as int].mutable,
                            count: self.single_leases@[i as int].count as nat,
                            row: self.single_leases@[i as int].row@,
                        },
                    ));
                }
                crate::entity_system::query::present_of(&self.single_leases[i].row)
            },
        }
    }

    /// The indices present in both columns held by the two-column lease for
    /// the given keys, with both values, in ascending entity order; an
    /// unleased pair yields nothing.
    pub(crate) fn collect_two(&self, key_a: u64, key_b: u64) -> (r: Vec<
        (crate::entity_system::query::ID, V, V),
    >)
        requires
            self.wf(),
        ensures
            r@ == (if self.doubles().dom().contains((key_a, key_b)) {
                crate::entity_system::query::present_pairs2(
                    self.doubles()[(key_a, key_b)].row_a,
                    self.doubles()[(key_a, key_b)].row_b,
                )
            } else {
                Seq::<(crate::entity_system::query::ID, V, V)>::empty()
            }),
    {
        match find_double(&self.double_leases, key_a, key_b) {
            None => {
                proof {
                    lemma_double_dom(self.double_leases@, (key_a, key_b));
                }
                Vec::new()
            },
            Some(i) => {
                proof {
                    lemma_double_pairs_distinct(self.double_leases@);
                    lemma_pair_map_index(double_pairs(self.double_leases@), i as int);
                    assert(double_pairs(self.double_leases@)[i as int] == (
                        (key_a, key_b),
                        DoubleLeaseView {
                            mutable: self.double_leases@[i as int].mutable,
                            count: self.double_leases@[i as int].count as nat,
                            row_a: self.double_leases@[i as int].row_a@,
                            row_b: self.double_leases@[i as int].row_b@,
                        },
                    ));
                }
                crate::entity_system::query::present2_of(
                    &self.double_leases[i].row_a,
                    &self.double_leases[i].row_b,
                )
            },
        }
    }
}

/// Every column — resident in the store or held by a live lease — has
/// exactly one slot per entity: the store's standing invariant, stated over
/// its public views.
pub proof fn lemma_columns_match_entity_count<V>(s: EntitySystem<V>)
    requires
        s.wf(),
    ensures
        forall|k: u64| #![auto]
            s.store().dom().contains(k) ==> s.store()[k].len() == s.entity_count(),
        forall|k: u64| #![auto]
            s.singles().dom().contains(k) ==> s.singles()[k].row.len() == s.entity_count(),
        forall|p: (u64, u64)| #![auto]
            s.doubles().dom().contains(p) ==> s.doubles()[p].row_a.len() == s.entity_count()
                && s.doubles()[p].row_b.len() == s.entity_count(),
{
    assert forall|k: u64| #![auto] s.store().dom().contains(k) implies s.store()[k].len()
        == s.entity_count() by {
        lemma_col_dom(s.components@, k);
        let i = choose|i: int| 0 <= i < s.components@.len() && (#[trigger] s.components@[i]).key
            == k;
        lemma_col_pairs_distinct(s.components@);
        lemma_pair_map_index(col_pairs(s.components@), i);
        assert(s.components@[i].slots@.len() == s.entity_count() && row_tagged(
            s.components@[i].slots@,
            s.components@[i].key,
        ));
    }
    assert forall|k: u64| #![auto] s.singles().dom().contains(k) implies s.singles()[k].row.len()
        == s.entity_count() by {
        lemma_single_dom(s.single_leases@, k);
        let i = choose|i: int| 0 <= i < s.single_leases@.len() && (
        #[trigger] s.single_leases@[i]).key == k;
        lemma_single_pairs_distinct(s.single_leases@);
        lemma_pair_map_index(single_pairs(s.single_leases@), i);
        assert(s.single_leases@[i].row@.len() == s.entity_count());
    }
    assert forall|p: (u64, u64)| #![auto] s.doubles().dom().contains(p) implies s.doubles()[
        p
    ].row_a.len() == s.entity_count() && s.doubles()[p].row_b.len() == s.entity_count() by {
        lemma_double_dom(s.double_leases@, p);
        let i = choose|i: int|
            0 <= i < s.double_leases@.len() && (#[trigger] s.double_leases@[i]).key_a == p.0
                && s.double_leases@[i].key_b == p.1;
        lemma_double_pairs_distinct(s.double_leases@);
        lemma_pair_map_index(double_pairs(s.double_leases@), i);
        assert(s.double_leases@[i].row_a@.len() == s.entity_count() && s.double_leases@[
            i
        ].row_b@.len() == s.entity_count() && s.double_leases@[i].key_a < s.double_leases@[
            i
        ].key_b);
    }
}

impl<V> Default for EntitySystem<V> {
    /// The same empty system that [`EntitySystem::new`] creates.
    fn default() -> (s: Self)
        ensures
            s.wf(),
            s.entity_count() == 0,
            s.store() == Map::<u64, Seq<Option<V>>>::empty(),
            s.singles() == Map::<u64, LeaseView<V>>::empty(),
            s.doubles() == Map::<(u64, u64), DoubleLeaseView<V>>::empty(),
    {
        Self::new()
    }
}

/// An all-absent erased column of the given length.
fn blank_row<V>(n: usize) -> (r: ComponentRow<V>)
    ensures
        r@.len() == n,
        forall|i: int| 0 <= i < n ==> (#[trigger] r@[i]) is None,
{
    let mut r: ComponentRow<V> = Vec::new();
    while r.len() < n
        invariant
            r@.len() <= n,
            forall|i: int| 0 <= i < r@.len() ==> (#[trigger] r@[i]) is None,
        decreases n - r@.len(),
    {
        r.push(None);
    }
    r
}

/// Index of the column with the given key, if the store holds one.
fn find_col<V>(cols: &Vec<Column<V>>, key: u64) -> (r: Option<usize>)
    ensures
        (r matches Some(i) ==> i < cols@.len() && cols@[i as int].key == key),
        (r is None ==> forall|i: int| 0 <= i < cols@.len() ==> (#[trigger] cols@[i]).key != key),
{
    let mut i: usize = 0;
    while i < cols.len()
        invariant
            i <= cols@.len(),
            forall|j: int| 0 <= j < i ==> (#[trigger] cols@[j]).key != key,
        decreases cols@.len() - i,
    {
        if cols[i].key == key {
            return Some(i);
        }
        i = i + 1;
    }
    None
}

/// Index of the one-column lease with the given key, if one is live.
fn find_single<V>(ls: &Vec<SingleLease<V>>, key: u64) -> (r: Option<usize>)
    ensures
        (r matches Some(i) ==> i < ls@.len() && ls@[i as int].key == key),
        (r is None ==> forall|i: int| 0 <= i < ls@.len() ==> (#[trigger] ls@[i]).key != key),
{
    let mut i: usize = 0;
    while i < ls.len()
        invariant
            i <= ls@.len(),
            forall|j: int| 0 <= j < i ==> (#[trigger] ls@[j]).key != key,
        decreases ls@.len() - i,
    {
        if ls[i].key == key {
            return Some(i);
        }
        i = i + 1;
    }
    None
}

/// Index of a two-column lease involving the given key, if one is live.
fn find_double_containing<V>(ds: &Vec<DoubleLease<V>>, key: u64) -> (r: Option<usize>)
    ensures
        (r matches Some(i) ==> i < ds@.len() && (ds@[i as int].key_a == key || ds@[i as int].key_b
            == key)),
        (r is None ==> !double_has_key(ds@, key)),
{
    let mut i: usize = 0;
    while i < ds.len()
        invariant
            i <= ds@.len(),
            forall|j: int|
                0 <= j < i ==> (#[trigger] ds@[j]).key_a != key && ds@[j].key_b != key,
        decreases ds@.len() - i,
    {
        if ds[i].key_a == key || ds[i].key_b == key {
            return Some(i);
        }
        i = i + 1;
    }
    None
}

/// Recovers a checked-out column into its typed form. This is the single
/// downcast boundary: it may only be applied to a row whose every present
/// slot carries the expected key, which the store's invariant guarantees, so
/// the recovery is total.
fn recover_row<V>(slots: ComponentRow<V>, key: u64) -> (r: Vec<Option<V>>)
    requires
        row_tagged(slots@, key),
    ensures
        r@ == untag(slots@),
{
    let ghost orig = slots@;
    let mut slots = slots;
    let mut r: Vec<Option<V>> = Vec::new();
    while slots.len() > 0
        invariant
            r@.len() + slots@.len() == orig.len(),
            forall|j: int| 0 <= j < slots@.len() ==> #[trigger] slots@[j] == orig[j + r@.len()],
            forall|j: int| 0 <= j < r@.len() ==> #[trigger] r@[j] == untag(orig)[j],
        decreases slots@.len(),
    {
        let s = slots.remove(0);
        match s {
            Some(t) => r.push(Some(t.value)),
            None => r.push(None),
        }
    }
    proof {
        assert(r@ =~= untag(orig));
    }
    r
}

/// Converts a typed column back to its erased form under the given key, as a
/// release checks it back into the store.
fn tag_row<V>(row: Vec<Option<V>>, key: u64) -> (r: ComponentRow<V>)
    ensures
        r@ == retag(row@, key),
{
    let ghost orig = row@;
    let mut row = row;
    let mut r: ComponentRow<V> = Vec::new();
    while row.len() > 0
        invariant
            r@.len() + row@.len() == orig.len(),
            forall|j: int| 0 <= j < row@.len() ==> #[trigger] row@[j] == orig[j + r@.len()],
            forall|j: int| 0 <= j < r@.len() ==> #[trigger] r@[j] == retag(orig, key)[j],
        decreases row@.len(),
    {
        let s = row.remove(0);
        match s {
            Some(v) => r.push(Some(Tagged { key, value: v })),
            None => r.push(None),
        }
    }
    proof {
        assert(r@ =~= retag(orig, key));
    }
    r
}

/// An all-absent typed column of the given length.
fn absent_vrow<V>(n: usize) -> (r: Vec<Option<V>>)
    ensures
        r@ == all_absent::<V>(n as nat),
{
    let mut r: Vec<Option<V>> = Vec::new();
    while r.len() < n
        invariant
            r@.len() <= n,
            forall|i: int| 0 <= i < r@.len() ==> (#[trigger] r@[i]) is None,
        decreases n - r@.len(),
    {
        r.push(None);
    }
    proof {
        assert(r@ =~= all_absent::<V>(n as nat));
    }
    r
}

proof fn lemma_single_pairs_distinct<V>(ls: Seq<SingleLease<V>>)
    requires
        single_keys_distinct(ls),
    ensures
        distinct_keys(single_pairs(ls)),
{
    assert forall|i: int, j: int| 0 <= i < j < single_pairs(ls).len() implies (
    #[trigger] single_pairs(ls)[i]).0 != (#[trigger] single_pairs(ls)[j]).0 by {
        assert(ls[i].key != ls[j].key);
    }
}

/// Replacing the one-column lease entry at an index by another entry with
/// the same key and row length updates the lease map at that key and keeps
/// everything else, well-formedness included.
proof fn lemma_single_replace<V>(
    orig: EntitySystem<V>,
    s: EntitySystem<V>,
    i: int,
    e: SingleLease<V>,
)
    requires
        orig.wf(),
        0 <= i < orig.single_leases@.len(),
        e.key == orig.single_leases@[i].key,
        e.row@.len() == orig.single_leases@[i].row@.len(),
        s.amount_of_entities == orig.amount_of_entities,
        s.components@ == orig.components@,
        s.double_leases@ == orig.double_leases@,
        s.single_leases@ == orig.single_leases@.remove(i).push(e),
    ensures
        s.wf(),
        s.store() == orig.store(),
        s.doubles() == orig.doubles(),
        s.singles() == orig.singles().insert(
            e.key,
            (LeaseView { mutable: e.mutable, count: e.count as nat, row: e.row@ }),
        ),
{
    let ls = orig.single_leases@;
    let ls2 = s.single_leases@;
    let rest = ls.remove(i);
    assert(forall|x: int| 0 <= x < rest.len() ==> (#[trigger] rest[x]).key != e.key) by {
        assert forall|x: int| 0 <= x < rest.len() implies (#[trigger] rest[x]).key != e.key by {
            let ox = if x < i { x } else { x + 1 };
            assert(rest[x] == ls[ox]);
            assert(ls[ox].key != ls[i].key);
        }
    }
    assert(single_keys_distinct(ls2)) by {
        assert forall|x: int, y: int| 0 <= x < y < ls2.len() implies (#[trigger] ls2[x]).key != (
        #[trigger] ls2[y]).key by {
            assert(ls2[x] == rest[x]);
            if y < ls2.len() - 1 {
                assert(ls2[y] == rest[y]);
                let ox = if x < i { x } else { x + 1 };
                let oy = if y < i { y } else { y + 1 };
                assert(rest[x] == ls[ox]);
                assert(rest[y] == ls[oy]);
                assert(ls[ox].key != ls[oy].key);
            }
        }
    }
    assert(singles_wf(ls2, s.entity_count())) by {
        assert forall|x: int| 0 <= x < ls2.len() implies (#[trigger] ls2[x]).row@.len()
            == s.entity_count() by {
            if x < ls2.len() - 1 {
                let ox = if x < i { x } else { x + 1 };
                assert(ls2[x] == ls[ox]);
                assert(ls[ox].row@.len() == orig.entity_count());
            } else {
                assert(ls[i].row@.len() == orig.entity_count());
            }
        }
    }
    assert(keys_exclusive(s.components@, ls2, s.double_leases@)) by {
        assert(forall|k: u64| single_has_key(ls2, k) ==> single_has_key(ls, k)) by {
            assert forall|k: u64| single_has_key(ls2, k) implies single_has_key(ls, k) by {
                let x = choose|x: int| 0 <= x < ls2.len() && (#[trigger] ls2[x]).key == k;
                if x < ls2.len() - 1 {
                    let ox = if x < i { x } else { x + 1 };
                    assert(ls2[x] == ls[ox]);
                    assert(ls[ox].key == k);
                } else {
                    assert(ls[i].key == k);
                }
            }
        }
        assert forall|x: int| 0 <= x < s.components@.len() implies !single_has_key(
            ls2,
            (#[trigger] s.components@[x]).key,
        ) && !double_has_key(s.double_leases@, s.components@[x].key) by {
            assert(!single_has_key(ls, s.components@[x].key));
        }
        assert forall|x: int| 0 <= x < ls2.len() implies !double_has_key(
            s.double_leases@,
            (#[trigger] ls2[x]).key,
        ) by {
            if x < ls2.len() - 1 {
                let ox = if x < i { x } else { x + 1 };
                assert(ls2[x] == ls[ox]);
                assert(!double_has_key(orig.double_leases@, ls[ox].key));
            } else {
                assert(!double_has_key(orig.double_leases@, ls[i].key));
            }
        }
    }
    assert(s.wf());
    lemma_single_pairs_distinct(ls);
    lemma_pair_map_remove(single_pairs(ls), i);
    assert(single_pairs(rest) =~= single_pairs(ls).remove(i));
    lemma_pair_map_push(
        single_pairs(rest),
        (e.key, LeaseView { mutable: e.mutable, count: e.count as nat, row: e.row@ }),
    );
    assert(single_pairs(ls2) =~= single_pairs(rest).push(
        (e.key, LeaseView { mutable: e.mutable, count: e.count as nat, row: e.row@ }),
    ));
    lemma_pair_map_index(single_pairs(ls), i);
    assert(s.singles() =~~= orig.singles().insert(
        e.key,
        LeaseView { mutable: e.mutable, count: e.count as nat, row: e.row@ },
    ));
}

/// Granting a fresh one-column lease — checking the column out of the store
/// if it is resident — inserts the lease into the lease map, removes the key
/// from the store's map, and keeps everything else, well-formedness included.
proof fn lemma_fresh_single<V>(
    orig: EntitySystem<V>,
    s: EntitySystem<V>,
    e: SingleLease<V>,
    ci: Option<usize>,
)
    requires
        orig.wf(),
        !single_has_key(orig.single_leases@, e.key),
        !double_has_key(orig.double_leases@, e.key),
        e.row@.len() == orig.entity_count(),
        (match ci {
            Some(i) => i < orig.components@.len() && orig.components@[i as int].key == e.key
                && s.components@ == orig.components@.remove(i as int) && e.row@ == untag(
                orig.components@[i as int].slots@,
            ),
            None => s.components@ == orig.components@ && (forall|i: int|
                0 <= i < orig.components@.len() ==> (#[trigger] orig.components@[i]).key != e.key)
                && e.row@ == all_absent::<V>(orig.entity_count()),
        }),
        s.amount_of_entities == orig.amount_of_entities,
        s.double_leases@ == orig.double_leases@,
        s.single_leases@ == orig.single_leases@.push(e),
    ensures
        s.wf(),
        s.doubles() == orig.doubles(),
        s.store() == orig.store().remove(e.key),
        s.singles() == orig.singles().insert(
            e.key,
            (LeaseView { mutable: e.mutable, count: e.count as nat, row: e.row@ }),
        ),
        e.row@ == orig.checkout_row(e.key),
{
    let key = e.key;
    let ls = orig.single_leases@;
    let ls2 = s.single_leases@;
    let cs = orig.components@;
    let cs2 = s.components@;
    // The store's map after the checkout, and the checked-out row.
    lemma_col_dom(cs, key);
    match ci {
        Some(i) => {
            let i = i as int;
            lemma_col_pairs_distinct(cs);
            lemma_pair_map_index(col_pairs(cs), i);
            lemma_pair_map_remove(col_pairs(cs), i);
            assert(col_pairs(cs2) =~= col_pairs(cs).remove(i));
            assert(e.row@ == orig.checkout_row(key));
        },
        None => {
            assert(!orig.store().dom().contains(key));
            assert(s.store() == orig.store());
            assert(orig.store().remove(key) =~~= orig.store());
            assert(e.row@ == orig.checkout_row(key));
        },
    }
    // The lease map gains the new entry.
    lemma_pair_map_push(
        single_pairs(ls),
        (key, LeaseView { mutable: e.mutable, count: e.count as nat, row: e.row@ }),
    );
    assert(single_pairs(ls2) =~= single_pairs(ls).push(
        (key, LeaseView { mutable: e.mutable, count: e.count as nat, row: e.row@ }),
    ));
    // Well-formedness of the result.
    assert(col_keys_distinct(cs2)) by {
        match ci {
            Some(i) => {
                let i = i as int;
                assert forall|x: int, y: int| 0 <= x < y < cs2.len() implies (
                #[trigger] cs2[x]).key != (#[trigger] cs2[y]).key by {
                    let ox = if x < i { x } else { x + 1 };
                    let oy = if y < i { y } else { y + 1 };
                    assert(cs2[x] == cs[ox]);
                    assert(cs2[y] == cs[oy]);
                    assert(cs[ox].key != cs[oy].key);
                }
            },
            None => {},
        }
    }
    assert(cols_wf(cs2, s.entity_count())) by {
        assert forall|x: int| 0 <= x < cs2.len() implies {
            let c = #[trigger] cs2[x];
            c.slots@.len() == s.entity_count() && row_tagged(c.slots@, c.key)
        } by {
            match ci {
                Some(i) => {
                    let i = i as int;
                    let ox = if x < i { x } else { x + 1 };
                    assert(cs2[x] == cs[ox]);
                    assert(cs[ox].slots@.len() == orig.entity_count() && row_tagged(
                        cs[ox].slots@,
                        cs[ox].key,
                    ));
                },
                None => {
                    assert(cs[x].slots@.len() == orig.entity_count() && row_tagged(
                        cs[x].slots@,
                        cs[x].key,
                    ));
                },
            }
        }
    }
    assert(single_keys_distinct(ls2)) by {
        assert forall|x: int, y: int| 0 <= x < y < ls2.len() implies (#[trigger] ls2[x]).key != (
        #[trigger] ls2[y]).key by {
            assert(ls2[x] == ls[x]);
            if y < ls2.len() - 1 {
                assert(ls2[y] == ls[y]);
            } else {
                assert(ls[x].key != key);
            }
        }
    }
    assert(singles_wf(ls2, s.entity_count())) by {
        assert forall|x: int| 0 <= x < ls2.len() implies (#[trigger] ls2[x]).row@.len()
            == s.entity_count() by {
            if x < ls2.len() - 1 {
                assert(ls2[x] == ls[x]);
                assert(ls[x].row@.len() == orig.entity_count());
            }
        }
    }
    assert(keys_exclusive(cs2, ls2, s.double_leases@)) by {
        assert forall|x: int| 0 <= x < cs2.len() implies !single_has_key(
            ls2,
            (#[trigger] cs2[x]).key,
        ) && !double_has_key(s.double_leases@, cs2[x].key) by {
            let ox = (match ci {
                Some(i) => if x < i as int {
                    x
                } else {
                    x + 1
                },
                None => x,
            });
            assert(cs2[x] == cs[ox]);
            assert(!single_has_key(ls, cs[ox].key) && !double_has_key(
                orig.double_leases@,
                cs[ox].key,
            ));
            assert(cs2[x].key != key) by {
                match ci {
                    Some(i) => {
                        assert(cs[ox].key != cs[i as int].key);
                    },
                    None => {},
                }
            }
            if single_has_key(ls2, cs2[x].key) {
                let j = choose|j: int| 0 <= j < ls2.len() && (#[trigger] ls2[j]).key == cs2[x].key;
                assert(j < ls2.len() - 1);
                assert(ls2[j] == ls[j]);
                assert(single_has_key(ls, cs2[x].key));
            }
        }
        assert forall|x: int| 0 <= x < ls2.len() implies !double_has_key(
            s.double_leases@,
            (#[trigger] ls2[x]).key,
        ) by {
            if x < ls2.len() - 1 {
                assert(ls2[x] == ls[x]);
                assert(!double_has_key(orig.double_leases@, ls[x].key));
            }
        }
    }
    assert(s.wf());
    assert(s.store() =~~= orig.store().remove(key)) by {
        match ci {
            Some(i) => {
                lemma_pair_map_remove(col_pairs(cs), i as int);
            },
            None => {},
        }
    }
    assert(s.singles() =~~= orig.singles().insert(
        key,
        LeaseView { mutable: e.mutable, count: e.count as nat, row: e.row@ },
    ));
}

/// Releasing the one-column lease at an index — converting its column back
/// to erased form and reinserting it — moves the column from the lease map
/// back into the store's map, well-formedness included.
proof fn lemma_checkin_one<V>(orig: EntitySystem<V>, s: EntitySystem<V>, i: int)
    requires
        orig.wf(),
        0 <= i < orig.single_leases@.len(),
        s.amount_of_entities == orig.amount_of_entities,
        s.double_leases@ == orig.double_leases@,
        s.single_leases@ == orig.single_leases@.remove(i),
        s.components@.len() == orig.components@.len() + 1,
        forall|x: int|
            0 <= x < orig.components@.len() ==> #[trigger] s.components@[x] == orig.components@[x],
        s.components@.last().key == orig.single_leases@[i].key,
        s.components@.last().slots@ == retag(
            orig.single_leases@[i].row@,
            orig.single_leases@[i].key,
        ),
    ensures
        s.wf(),
        s.doubles() == orig.doubles(),
        s.singles() == orig.singles().remove(orig.single_leases@[i].key),
        s.store() == orig.store().insert(
            orig.single_leases@[i].key,
            orig.single_leases@[i].row@,
        ),
{
    let ls = orig.single_leases@;
    let ls2 = s.single_leases@;
    let cs = orig.components@;
    let cs2 = s.components@;
    let key = ls[i].key;
    let row = ls[i].row@;
    crate::entity_system::query::lemma_row_round_trip(row, key);
    // Maps.
    lemma_single_pairs_distinct(ls);
    lemma_pair_map_remove(single_pairs(ls), i);
    assert(single_pairs(ls2) =~= single_pairs(ls).remove(i));
    lemma_pair_map_push(col_pairs(cs), (key, untag(retag(row, key))));
    assert(col_pairs(cs2) =~= col_pairs(cs).push((key, row)));
    // Well-formedness.
    assert(!col_has_key(cs, key)) by {
        if col_has_key(cs, key) {
            let x = choose|x: int| 0 <= x < cs.len() && (#[trigger] cs[x]).key == key;
            assert(single_has_key(ls, cs[x].key));
            assert(false);
        }
    }
    assert(col_keys_distinct(cs2)) by {
        assert forall|x: int, y: int| 0 <= x < y < cs2.len() implies (#[trigger] cs2[x]).key != (
        #[trigger] cs2[y]).key by {
            assert(cs2[x] == cs[x]);
            if y < cs2.len() - 1 {
                assert(cs2[y] == cs[y]);
            }
        }
    }
    assert(cols_wf(cs2, s.entity_count())) by {
        assert forall|x: int| 0 <= x < cs2.len() implies {
            let c = #[trigger] cs2[x];
            c.slots@.len() == s.entity_count() && row_tagged(c.slots@, c.key)
        } by {
            if x < cs2.len() - 1 {
                assert(cs2[x] == cs[x]);
                assert(cs[x].slots@.len() == orig.entity_count() && row_tagged(
                    cs[x].slots@,
                    cs[x].key,
                ));
            } else {
                assert(ls[i].row@.len() == orig.entity_count());
            }
        }
    }
    assert(single_keys_distinct(ls2)) by {
        assert forall|x: int, y: int| 0 <= x < y < ls2.len() implies (#[trigger] ls2[x]).key != (
        #[trigger] ls2[y]).key by {
            let ox = if x < i { x } else { x + 1 };
            let oy = if y < i { y } else { y + 1 };
            assert(ls2[x] == ls[ox]);
            assert(ls2[y] == ls[oy]);
            assert(ls[ox].key != ls[oy].key);
        }
    }
    assert(forall|k: u64| single_has_key(ls2, k) ==> single_has_key(ls, k) && k != key) by {
        assert forall|k: u64| single_has_key(ls2, k) implies single_has_key(ls, k) && k != key by {
            let x = choose|x: int| 0 <= x < ls2.len() && (#[trigger] ls2[x]).key == k;
            let ox = if x < i { x } else { x + 1 };
            assert(ls2[x] == ls[ox]);
            assert(ls[ox].key == k);
            assert(ls[ox].key != ls[i].key || ox == i);
        }
    }
    assert(singles_wf(ls2, s.entity_count())) by {
        assert forall|x: int| 0 <= x < ls2.len() implies (#[trigger] ls2[x]).row@.len()
            == s.entity_count() by {
            let ox = if x < i { x } else { x + 1 };
            assert(ls2[x] == ls[ox]);
            assert(ls[ox].row@.len() == orig.entity_count());
        }
    }
    assert(keys_exclusive(cs2, ls2, s.double_leases@)) by {
        assert forall|x: int| 0 <= x < cs2.len() implies !single_has_key(
            ls2,
            (#[trigger] cs2[x]).key,
        ) && !double_has_key(s.double_leases@, cs2[x].key) by {
            if x < cs2.len() - 1 {
                assert(cs2[x] == cs[x]);
                assert(!single_has_key(ls, cs[x].key));
                assert(!double_has_key(orig.double_leases@, cs[x].key));
            } else {
                assert(cs2[x].key == key);
                assert(!double_has_key(orig.double_leases@, ls[i].key));
            }
        }
        assert forall|x: int| 0 <= x < ls2.len() implies !double_has_key(
            s.double_leases@,
            (#[trigger] ls2[x]).key,
        ) by {
            let ox = if x < i { x } else { x + 1 };
            assert(ls2[x] == ls[ox]);
            assert(!double_has_key(orig.double_leases@, ls[ox].key));
        }
    }
    assert(s.wf());
    lemma_pair_map_index(single_pairs(ls), i);
    assert(s.singles() =~~= orig.singles().remove(key));
    assert(s.store() =~~= orig.store().insert(key, row));
}

/// Index of the two-column lease with exactly the given key pair, if live.
fn find_double<V>(ds: &Vec<DoubleLease<V>>, key_a: u64, key_b: u64) -> (r: Option<usize>)
    ensures
        (r matches Some(i) ==> i < ds@.len() && ds@[i as int].key_a == key_a && ds@[i as int].key_b
            == key_b),
        (r is None ==> forall|i: int|
            0 <= i < ds@.len() ==> !((#[trigger] ds@[i]).key_a == key_a && ds@[i].key_b == key_b)),
{
    let mut i: usize = 0;
    while i < ds.len()
        invariant
            i <= ds@.len(),
            forall|j: int|
                0 <= j < i ==> !((#[trigger] ds@[j]).key_a == key_a && ds@[j].key_b == key_b),
        decreases ds@.len() - i,
    {
        if ds[i].key_a == key_a && ds[i].key_b == key_b {
            return Some(i);
        }
        i = i + 1;
    }
    None
}

proof fn lemma_double_pairs_distinct<V>(ds: Seq<DoubleLease<V>>)
    requires
        double_keys_disjoint(ds),
    ensures
        distinct_keys(double_pairs(ds)),
{
    assert forall|i: int, j: int| 0 <= i < j < double_pairs(ds).len() implies (
    #[trigger] double_pairs(ds)[i]).0 != (#[trigger] double_pairs(ds)[j]).0 by {
        assert(ds[i].key_a != ds[j].key_a);
    }
}

/// Removing one resident column removes its key from the store's map and
/// keeps everything else, well-formedness included.
proof fn lemma_remove_col<V>(orig: EntitySystem<V>, s: EntitySystem<V>, ci: int)
    requires
        orig.wf(),
        0 <= ci < orig.components@.len(),
        s.amount_of_entities == orig.amount_of_entities,
        s.single_leases@ == orig.single_leases@,
        s.double_leases@ == orig.double_leases@,
        s.components@ == orig.components@.remove(ci),
    ensures
        s.wf(),
        s.singles() == orig.singles(),
        s.doubles() == orig.doubles(),
        s.store() == orig.store().remove(orig.components@[ci].key),
        orig.store().dom().contains(orig.components@[ci].key),
        orig.store()[orig.components@[ci].key] == untag(orig.components@[ci].slots@),
{
    let cs = orig.components@;
    let cs2 = s.components@;
    lemma_col_pairs_distinct(cs);
    lemma_pair_map_index(col_pairs(cs), ci);
    lemma_pair_map_remove(col_pairs(cs), ci);
    assert(col_pairs(cs2) =~= col_pairs(cs).remove(ci));
    assert(col_keys_distinct(cs2)) by {
        assert forall|x: int, y: int| 0 <= x < y < cs2.len() implies (#[trigger] cs2[x]).key != (
        #[trigger] cs2[y]).key by {
            let ox = if x < ci { x } else { x + 1 };
            let oy = if y < ci { y } else { y + 1 };
            assert(cs2[x] == cs[ox]);
            assert(cs2[y] == cs[oy]);
            assert(cs[ox].key != cs[oy].key);
        }
    }
    assert(cols_wf(cs2, s.entity_count())) by {
        assert forall|x: int| 0 <= x < cs2.len() implies {
            let c = #[trigger] cs2[x];
            c.slots@.len() == s.entity_count() && row_tagged(c.slots@, c.key)
        } by {
            let ox = if x < ci { x } else { x + 1 };
            assert(cs2[x] == cs[ox]);
            assert(cs[ox].slots@.len() == orig.entity_count() && row_tagged(
                cs[ox].slots@,
                cs[ox].key,
            ));
        }
    }
    assert(keys_exclusive(cs2, s.single_leases@, s.double_leases@)) by {
        assert forall|x: int| 0 <= x < cs2.len() implies !single_has_key(
            s.single_leases@,
            (#[trigger] cs2[x]).key,
        ) && !double_has_key(s.double_leases@, cs2[x].key) by {
            let ox = if x < ci { x } else { x + 1 };
            assert(cs2[x] == cs[ox]);
            assert(!single_has_key(orig.single_leases@, cs[ox].key) && !double_has_key(
                orig.double_leases@,
                cs[ox].key,
            ));
        }
    }
    assert(s.wf());
}

/// Replacing the two-column lease entry at an index by another entry with
/// the same key pair and row lengths updates the lease map at that pair and
/// keeps everything else, well-formedness included.
proof fn lemma_double_replace<V>(
    orig: EntitySystem<V>,
    s: EntitySystem<V>,
    i: int,
    e: DoubleLease<V>,
)
    requires
        orig.wf(),
        0 <= i < orig.double_leases@.len(),
        e.key_a == orig.double_leases@[i].key_a,
        e.key_b == orig.double_leases@[i].key_b,
        e.row_a@.len() == orig.double_leases@[i].row_a@.len(),
        e.row_b@.len() == orig.double_leases@[i].row_b@.len(),
        s.amount_of_entities == orig.amount_of_entities,
        s.components@ == orig.components@,
        s.single_leases@ == orig.single_leases@,
        s.double_leases@ == orig.double_leases@.remove(i).push(e),
    ensures
        s.wf(),
        s.store() == orig.store(),
        s.singles() == orig.singles(),
        s.doubles() == orig.doubles().insert(
            (e.key_a, e.key_b),
            (DoubleLeaseView {
                mutable: e.mutable,
                count: e.count as nat,
                row_a: e.row_a@,
                row_b: e.row_b@,
            }),
        ),
{
    let ds = orig.double_leases@;
    let ds2 = s.double_leases@;
    let rest = ds.remove(i);
    assert(double_keys_disjoint(ds2)) by {
        assert forall|x: int, y: int| 0 <= x < ds2.len() && 0 <= y < ds2.len() && x != y implies {
            let d = #[trigger] ds2[x];
            let f = #[trigger] ds2[y];
            d.key_a != f.key_a && d.key_a != f.key_b && d.key_b != f.key_a && d.key_b != f.key_b
        } by {
            let ox = if x < i { x } else { if x == ds2.len() - 1 { i } else { x + 1 } };
            let oy = if y < i { y } else { if y == ds2.len() - 1 { i } else { y + 1 } };
            if x < ds2.len() - 1 {
                assert(ds2[x] == rest[x]);
                assert(rest[x] == ds[ox]);
            }
            if y < ds2.len() - 1 {
                assert(ds2[y] == rest[y]);
                assert(rest[y] == ds[oy]);
            }
            assert(ds2[x].key_a == ds[ox].key_a && ds2[x].key_b == ds[ox].key_b);
            assert(ds2[y].key_a == ds[oy].key_a && ds2[y].key_b == ds[oy].key_b);
            assert(ox != oy);
            assert(ds[ox].key_a != ds[oy].key_a && ds[ox].key_a != ds[oy].key_b && ds[ox].key_b
                != ds[oy].key_a && ds[ox].key_b != ds[oy].key_b);
        }
    }
    assert(forall|k: u64| double_has_key(ds2, k) ==> double_has_key(ds, k)) by {
        assert forall|k: u64| double_has_key(ds2, k) implies double_has_key(ds, k) by {
            let x = choose|x: int|
                0 <= x < ds2.len() && ((#[trigger] ds2[x]).key_a == k || ds2[x].key_b == k);
            let ox = if x < i { x } else { if x == ds2.len() - 1 { i } else { x + 1 } };
            if x < ds2.len() - 1 {
                assert(ds2[x] == rest[x]);
                assert(rest[x] == ds[ox]);
            }
            assert(ds[ox].key_a == k || ds[ox].key_b == k);
        }
    }
    assert(doubles_wf(ds2, s.entity_count())) by {
        assert forall|x: int| 0 <= x < ds2.len() implies {
            let d = #[trigger] ds2[x];
            d.key_a < d.key_b && d.row_a@.len() == s.entity_count() && d.row_b@.len()
                == s.entity_count()
        } by {
            let ox = if x < i { x } else { if x == ds2.len() - 1 { i } else { x + 1 } };
            if x < ds2.len() - 1 {
                assert(ds2[x] == rest[x]);
                assert(rest[x] == ds[ox]);
            }
            assert(ds[ox].key_a < ds[ox].key_b && ds[ox].row_a@.len() == orig.entity_count() && ds[
                ox
            ].row_b@.len() == orig.entity_count());
        }
    }
    assert(keys_exclusive(s.components@, s.single_leases@, ds2)) by {
        assert forall|x: int| 0 <= x < s.components@.len() implies !single_has_key(
            s.single_leases@,
            (#[trigger] s.components@[x]).key,
        ) && !double_has_key(ds2, s.components@[x].key) by {
            assert(!single_has_key(orig.single_leases@, s.components@[x].key));
            assert(!double_has_key(ds, s.components@[x].key));
        }
        assert forall|x: int| 0 <= x < s.single_leases@.len() implies !double_has_key(
            ds2,
            (#[trigger] s.single_leases@[x]).key,
        ) by {
            assert(!double_has_key(ds, s.single_leases@[x].key));
        }
    }
    assert(s.wf());
    lemma_double_pairs_distinct(ds);
    lemma_pair_map_remove(double_pairs(ds), i);
    assert(double_pairs(rest) =~= double_pairs(ds).remove(i));
    lemma_pair_map_push(
        double_pairs(rest),
        (
            (e.key_a, e.key_b),
            DoubleLeaseView {
                mutable: e.mutable,
                count: e.count as nat,
                row_a: e.row_a@,
                row_b: e.row_b@,
            },
        ),
    );
    assert(double_pairs(ds2) =~= double_pairs(rest).push(
        (
            (e.key_a, e.key_b),
            DoubleLeaseView {
                mutable: e.mutable,
                count: e.count as nat,
                row_a: e.row_a@,
                row_b: e.row_b@,
            },
        ),
    ));
    lemma_pair_map_index(double_pairs(ds), i);
    assert(s.doubles() =~~= orig.doubles().insert(
        (e.key_a, e.key_b),
        DoubleLeaseView {
            mutable: e.mutable,
            count: e.count as nat,
            row_a: e.row_a@,
            row_b: e.row_b@,
        },
    ));
}

/// Granting a fresh two-column lease on a state where neither key resides
/// anywhere inserts the lease into the lease map and keeps everything else,
/// well-formedness included.
proof fn lemma_fresh_double<V>(orig: EntitySystem<V>, s: EntitySystem<V>, e: DoubleLease<V>)
    requires
        orig.wf(),
        e.key_a < e.key_b,
        e.count == 1,
        e.row_a@.len() == orig.entity_count(),
        e.row_b@.len() == orig.entity_count(),
        !col_has_key(orig.components@, e.key_a),
        !col_has_key(orig.components@, e.key_b),
        !single_has_key(orig.single_leases@, e.key_a),
        !single_has_key(orig.single_leases@, e.key_b),
        !double_has_key(orig.double_leases@, e.key_a),
        !double_has_key(orig.double_leases@, e.key_b),
        s.amount_of_entities == orig.amount_of_entities,
        s.components@ == orig.components@,
        s.single_leases@ == orig.single_leases@,
        s.double_leases@ == orig.double_leases@.push(e),
    ensures
        s.wf(),
        s.store() == orig.store(),
        s.singles() == orig.singles(),
        s.doubles() == orig.doubles().insert(
            (e.key_a, e.key_b),
            (DoubleLeaseView {
                mutable: e.mutable,
                count: 1nat,
                row_a: e.row_a@,
                row_b: e.row_b@,
            }),
        ),
{
    let ds = orig.double_leases@;
    let ds2 = s.double_leases@;
    assert(double_keys_disjoint(ds2)) by {
        assert forall|x: int, y: int| 0 <= x < ds2.len() && 0 <= y < ds2.len() && x != y implies {
            let d = #[trigger] ds2[x];
            let f = #[trigger] ds2[y];
            d.key_a != f.key_a && d.key_a != f.key_b && d.key_b != f.key_a && d.key_b != f.key_b
        } by {
            if x < ds2.len() - 1 && y < ds2.len() - 1 {
                assert(ds2[x] == ds[x]);
                assert(ds2[y] == ds[y]);
            } else if x < ds2.len() - 1 {
                assert(ds2[x] == ds[x]);
                assert(!(ds[x].key_a == e.key_a || ds[x].key_b == e.key_a));
                assert(!(ds[x].key_a == e.key_b || ds[x].key_b == e.key_b));
            } else {
                assert(ds2[y] == ds[y]);
                assert(!(ds[y].key_a == e.key_a || ds[y].key_b == e.key_a));
                assert(!(ds[y].key_a == e.key_b || ds[y].key_b == e.key_b));
            }
        }
    }
    assert(doubles_wf(ds2, s.entity_count())) by {
        assert forall|x: int| 0 <= x < ds2.len() implies {
            let d = #[trigger] ds2[x];
            d.key_a < d.key_b && d.row_a@.len() == s.entity_count() && d.row_b@.len()
                == s.entity_count()
        } by {
            if x < ds2.len() - 1 {
                assert(ds2[x] == ds[x]);
                assert(ds[x].key_a < ds[x].key_b && ds[x].row_a@.len() == orig.entity_count() && ds[
                    x
                ].row_b@.len() == orig.entity_count());
            }
        }
    }
    assert(keys_exclusive(s.components@, s.single_leases@, ds2)) by {
        assert forall|x: int| 0 <= x < s.components@.len() implies !single_has_key(
            s.single_leases@,
            (#[trigger] s.components@[x]).key,
        ) && !double_has_key(ds2, s.components@[x].key) by {
            assert(!single_has_key(orig.single_leases@, s.components@[x].key));
            assert(!double_has_key(ds, s.components@[x].key));
            if double_has_key(ds2, s.components@[x].key) {
                let j = choose|j: int|
                    0 <= j < ds2.len() && ((#[trigger] ds2[j]).key_a == s.components@[x].key || ds2[
                        j
                    ].key_b == s.components@[x].key);
                if j < ds2.len() - 1 {
                    assert(ds2[j] == ds[j]);
                    assert(double_has_key(ds, s.components@[x].key));
                } else {
                    assert(col_has_key(orig.components@, e.key_a) || col_has_key(
                        orig.components@,
                        e.key_b,
                    ));
                }
            }
        }
        assert forall|x: int| 0 <= x < s.single_leases@.len() implies !double_has_key(
            ds2,
            (#[trigger] s.single_leases@[x]).key,
        ) by {
            assert(!double_has_key(ds, s.single_leases@[x].key));
            if double_has_key(ds2, s.single_leases@[x].key) {
                let j = choose|j: int|
                    0 <= j < ds2.len() && ((#[trigger] ds2[j]).key_a == s.single_leases@[x].key
                        || ds2[j].key_b == s.single_leases@[x].key);
                if j < ds2.len() - 1 {
                    assert(ds2[j] == ds[j]);
                    assert(double_has_key(ds, s.single_leases@[x].key));
                } else {
                    assert(single_has_key(orig.single_leases@, e.key_a) || single_has_key(
                        orig.single_leases@,
                        e.key_b,
                    ));
                }
            }
        }
    }
    assert(s.wf());
    lemma_pair_map_push(
        double_pairs(ds),
        (
            (e.key_a, e.key_b),
            DoubleLeaseView { mutable: e.mutable, count: 1nat, row_a: e.row_a@, row_b: e.row_b@ },
        ),
    );
    assert(double_pairs(ds2) =~= double_pairs(ds).push(
        (
            (e.key_a, e.key_b),
            DoubleLeaseView { mutable: e.mutable, count: 1nat, row_a: e.row_a@, row_b: e.row_b@ },
        ),
    ));
}

/// Releasing the two-column lease at an index — converting both columns back
/// to erased form and reinserting them — moves both columns from the lease
/// map back into the store's map, well-formedness included.
proof fn lemma_checkin_two<V>(orig: EntitySystem<V>, mid: EntitySystem<V>, s: EntitySystem<V>, i: int)
    requires
        orig.wf(),
        0 <= i < orig.double_leases@.len(),
        mid.amount_of_entities == orig.amount_of_entities,
        mid.single_leases@ == orig.single_leases@,
        mid.double_leases@ == orig.double_leases@.remove(i),
        mid.components@.len() == orig.components@.len() + 1,
        forall|x: int|
            0 <= x < orig.components@.len() ==> #[trigger] mid.components@[x]
                == orig.components@[x],
        mid.components@.last().key == orig.double_leases@[i].key_a,
        mid.components@.last().slots@ == retag(
            orig.double_leases@[i].row_a@,
            orig.double_leases@[i].key_a,
        ),
        s.amount_of_entities == orig.amount_of_entities,
        s.single_leases@ == orig.single_leases@,
        s.double_leases@ == mid.double_leases@,
        s.components@.len() == mid.components@.len() + 1,
        forall|x: int|
            0 <= x < mid.components@.len() ==> #[trigger] s.components@[x] == mid.components@[x],
        s.components@.last().key == orig.double_leases@[i].key_b,
        s.components@.last().slots@ == retag(
            orig.double_leases@[i].row_b@,
            orig.double_leases@[i].key_b,
        ),
    ensures
        s.wf(),
        s.singles() == orig.singles(),
        s.doubles() == orig.doubles().remove(
            (orig.double_leases@[i].key_a, orig.double_leases@[i].key_b),
        ),
        s.store() == orig.store().insert(
            orig.double_leases@[i].key_a,
            orig.double_leases@[i].row_a@,
        ).insert(orig.double_leases@[i].key_b, orig.double_leases@[i].row_b@),
{
    let d = orig.double_leases@[i];
    let ds = orig.double_leases@;
    let ds2 = s.double_leases@;
    let cs = orig.components@;
    let cs2 = s.components@;
    crate::entity_system::query::lemma_row_round_trip(d.row_a@, d.key_a);
    crate::entity_system::query::lemma_row_round_trip(d.row_b@, d.key_b);
    // Maps.
    lemma_double_pairs_distinct(ds);
    lemma_pair_map_remove(double_pairs(ds), i);
    assert(double_pairs(ds2) =~= double_pairs(ds).remove(i));
    lemma_pair_map_index(double_pairs(ds), i);
    lemma_pair_map_push(col_pairs(cs), (d.key_a, d.row_a@));
    assert(col_pairs(mid.components@) =~= col_pairs(cs).push((d.key_a, d.row_a@)));
    lemma_pair_map_push(col_pairs(mid.components@), (d.key_b, d.row_b@));
    assert(col_pairs(cs2) =~= col_pairs(mid.components@).push((d.key_b, d.row_b@)));
    // Neither key resides anywhere else.
    assert(!col_has_key(cs, d.key_a) && !col_has_key(cs, d.key_b)) by {
        if col_has_key(cs, d.key_a) {
            let x = choose|x: int| 0 <= x < cs.len() && (#[trigger] cs[x]).key == d.key_a;
            assert(double_has_key(ds, cs[x].key));
            assert(false);
        }
        if col_has_key(cs, d.key_b) {
            let x = choose|x: int| 0 <= x < cs.len() && (#[trigger] cs[x]).key == d.key_b;
            assert(double_has_key(ds, cs[x].key));
            assert(false);
        }
    }
    assert(forall|k: u64| double_has_key(ds2, k) ==> double_has_key(ds, k) && k != d.key_a && k
        != d.key_b) by {
        assert forall|k: u64| double_has_key(ds2, k) implies double_has_key(ds, k) && k != d.key_a
            && k != d.key_b by {
            let x = choose|x: int|
                0 <= x < ds2.len() && ((#[trigger] ds2[x]).key_a == k || ds2[x].key_b == k);
            let ox = if x < i { x } else { x + 1 };
            assert(ds2[x] == ds[ox]);
            assert(ds[ox].key_a == k || ds[ox].key_b == k);
            assert(ds[ox].key_a != d.key_a && ds[ox].key_a != d.key_b && ds[ox].key_b != d.key_a
                && ds[ox].key_b != d.key_b);
        }
    }
    // Well-formedness.
    assert(col_keys_distinct(cs2)) by {
        assert forall|x: int, y: int| 0 <= x < y < cs2.len() implies (#[trigger] cs2[x]).key != (
        #[trigger] cs2[y]).key by {
            if x < cs.len() {
                assert(cs2[x] == cs[x]);
            }
            if y < cs.len() {
                assert(cs2[y] == cs[y]);
            }
            if y == cs.len() {
                assert(cs2[y].key == d.key_a);
            }
        }
    }
    assert(cols_wf(cs2, s.entity_count())) by {
        assert forall|x: int| 0 <= x < cs2.len() implies {
            let c = #[trigger] cs2[x];
            c.slots@.len() == s.entity_count() && row_tagged(c.slots@, c.key)
        } by {
            if x < cs.len() {
                assert(cs2[x] == cs[x]);
                assert(cs[x].slots@.len() == orig.entity_count() && row_tagged(
                    cs[x].slots@,
                    cs[x].key,
                ));
            } else {
                assert(d.key_a < d.key_b && d.row_a@.len() == orig.entity_count() && d.row_b@.len()
                    == orig.entity_count());
            }
        }
    }
    assert(double_keys_disjoint(ds2)) by {
        assert forall|x: int, y: int| 0 <= x < ds2.len() && 0 <= y < ds2.len() && x != y implies {
            let a = #[trigger] ds2[x];
            let b = #[trigger] ds2[y];
            a.key_a != b.key_a && a.key_a != b.key_b && a.key_b != b.key_a && a.key_b != b.key_b
        } by {
            let ox = if x < i { x } else { x + 1 };
            let oy = if y < i { y } else { y + 1 };
            assert(ds2[x] == ds[ox]);
            assert(ds2[y] == ds[oy]);
            assert(ds[ox].key_a != ds[oy].key_a && ds[ox].key_a != ds[oy].key_b && ds[ox].key_b
                != ds[oy].key_a && ds[ox].key_b != ds[oy].key_b);
        }
    }
    assert(doubles_wf(ds2, s.entity_count())) by {
        assert forall|x: int| 0 <= x < ds2.len() implies {
            let dd = #[trigger] ds2[x];
            dd.key_a < dd.key_b && dd.row_a@.len() == s.entity_count() && dd.row_b@.len()
                == s.entity_count()
        } by {
            let ox = if x < i { x } else { x + 1 };
            assert(ds2[x] == ds[ox]);
            assert(ds[ox].key_a < ds[ox].key_b && ds[ox].row_a@.len() == orig.entity_count() && ds[
                ox
            ].row_b@.len() == orig.entity_count());
        }
    }
    assert(keys_exclusive(cs2, s.single_leases@, ds2)) by {
        assert forall|x: int| 0 <= x < cs2.len() implies !single_has_key(
            s.single_leases@,
            (#[trigger] cs2[x]).key,
        ) && !double_has_key(ds2, cs2[x].key) by {
            if x < cs.len() {
                assert(cs2[x] == cs[x]);
                assert(!single_has_key(orig.single_leases@, cs[x].key) && !double_has_key(
                    ds,
                    cs[x].key,
                ));
            } else {
                assert(cs2[x].key == d.key_a || cs2[x].key == d.key_b);
                if single_has_key(orig.single_leases@, cs2[x].key) {
                    let j = choose|j: int|
                        0 <= j < orig.single_leases@.len() && (#[trigger] orig.single_leases@[j]).key
                            == cs2[x].key;
                    assert(!double_has_key(ds, orig.single_leases@[j].key));
                    assert(ds[i].key_a == d.key_a && ds[i].key_b == d.key_b);
                    assert(double_has_key(ds, d.key_a));
                    assert(double_has_key(ds, d.key_b));
                    assert(false);
                }
            }
        }
        assert forall|x: int| 0 <= x < s.single_leases@.len() implies !double_has_key(
            ds2,
            (#[trigger] s.single_leases@[x]).key,
        ) by {
            assert(!double_has_key(ds, orig.single_leases@[x].key));
        }
    }
    assert(s.wf());
    assert(s.doubles() =~~= orig.doubles().remove((d.key_a, d.key_b)));
    assert(s.store() =~~= orig.store().insert(d.key_a, d.row_a@).insert(d.key_b, d.row_b@));
}

proof fn lemma_col_pairs_distinct<V>(cs: Seq<Column<V>>)
    requires
        col_keys_distinct(cs),
    ensures
        distinct_keys(col_pairs(cs)),
{
    assert forall|i: int, j: int| 0 <= i < j < col_pairs(cs).len() implies (#[trigger] col_pairs(
        cs,
    )[i]).0 != (#[trigger] col_pairs(cs)[j]).0 by {
        assert(cs[i].key != cs[j].key);
    }
}

/// A key is in the store's map exactly when some resident column carries it.
proof fn lemma_col_dom<V>(cs: Seq<Column<V>>, key: u64)
    ensures
        pair_map(col_pairs(cs)).dom().contains(key) <==> col_has_key(cs, key),
{
    lemma_pair_map_dom(col_pairs(cs), key);
    if col_has_key(cs, key) {
        let i = choose|i: int| 0 <= i < cs.len() && (#[trigger] cs[i]).key == key;
        assert(col_pairs(cs)[i].0 == key);
    } else if pair_map(col_pairs(cs)).dom().contains(key) {
        let i = choose|i: int|
            0 <= i < col_pairs(cs).len() && (#[trigger] col_pairs(cs)[i]).0 == key;
        assert(cs[i].key == key);
    }
}

proof fn lemma_single_dom<V>(ls: Seq<SingleLease<V>>, key: u64)
    ensures
        pair_map(single_pairs(ls)).dom().contains(key) <==> single_has_key(ls, key),
{
    lemma_pair_map_dom(single_pairs(ls), key);
    if single_has_key(ls, key) {
        let i = choose|i: int| 0 <= i < ls.len() && (#[trigger] ls[i]).key == key;
        assert(single_pairs(ls)[i].0 == key);
    } else if pair_map(single_pairs(ls)).dom().contains(key) {
        let i = choose|i: int|
            0 <= i < single_pairs(ls).len() && (#[trigger] single_pairs(ls)[i]).0 == key;
        assert(ls[i].key == key);
    }
}

proof fn lemma_double_dom<V>(ds: Seq<DoubleLease<V>>, p: (u64, u64))
    ensures
        pair_map(double_pairs(ds)).dom().contains(p) <==> exists|i: int|
            0 <= i < ds.len() && (#[trigger] ds[i]).key_a == p.0 && ds[i].key_b == p.1,
{
    lemma_pair_map_dom(double_pairs(ds), p);
    if exists|i: int| 0 <= i < ds.len() && (#[trigger] ds[i]).key_a == p.0 && ds[i].key_b == p.1 {
        let i = choose|i: int|
            0 <= i < ds.len() && (#[trigger] ds[i]).key_a == p.0 && ds[i].key_b == p.1;
        assert(double_pairs(ds)[i].0 == p);
    } else if pair_map(double_pairs(ds)).dom().contains(p) {
        let i = choose|i: int|
            0 <= i < double_pairs(ds).len() && (#[trigger] double_pairs(ds)[i]).0 == p;
        assert(ds[i].key_a == p.0 && ds[i].key_b == p.1);
    }
}

/// A key is involved in a view-level double lease exactly when some entry of
/// the double-lease cache carries it.
proof fn lemma_double_key<V>(s: EntitySystem<V>, key: u64)
    ensures
        s.key_in_double(key) <==> double_has_key(s.double_leases@, key),
{
    let ds = s.double_leases@;
    if double_has_key(ds, key) {
        let i = choose|i: int|
            0 <= i < ds.len() && ((#[trigger] ds[i]).key_a == key || ds[i].key_b == key);
        lemma_double_dom(ds, (ds[i].key_a, ds[i].key_b));
        assert(s.doubles().dom().contains((ds[i].key_a, ds[i].key_b)));
    }
    if s.key_in_double(key) {
        let p = choose|p: (u64, u64)|
            #[trigger] s.doubles().dom().contains(p) && (p.0 == key || p.1 == key);
        lemma_double_dom(ds, p);
        let i = choose|i: int|
            0 <= i < ds.len() && (#[trigger] ds[i]).key_a == p.0 && ds[i].key_b == p.1;
        assert(ds[i].key_a == key || ds[i].key_b == key);
    }
}

/// An unleased system's lease caches are empty vectors.
proof fn lemma_unleased_vecs_empty<V>(s: EntitySystem<V>)
    requires
        s.unleased(),
    ensures
        s.single_leases@.len() == 0,
        s.double_leases@.len() == 0,
{
    if s.single_leases@.len() > 0 {
        lemma_single_dom(s.single_leases@, s.single_leases@[0].key);
        assert(single_has_key(s.single_leases@, s.single_leases@[0].key));
    }
    if s.double_leases@.len() > 0 {
        let d = s.double_leases@[0];
        lemma_double_dom(s.double_leases@, (d.key_a, d.key_b));
        assert(s.doubles().dom().contains((d.key_a, d.key_b)));
    }
}

/// A key leased at view level by no lease is carried by no cache entry.
proof fn lemma_key_unleased_vecs<V>(s: EntitySystem<V>, key: u64)
    requires
        !s.key_leased(key),
    ensures
        !single_has_key(s.single_leases@, key),
        !double_has_key(s.double_leases@, key),
{
    lemma_single_dom(s.single_leases@, key);
    lemma_double_key(s, key);
}

/// Appending an absent slot to every column pushes `None` onto every value of
/// the store's map and keeps its domain.
proof fn lemma_grown_store<V>(old_cols: Seq<Column<V>>, new_cols: Seq<Column<V>>)
    requires
        col_keys_distinct(old_cols),
        new_cols.len() == old_cols.len(),
        forall|i: int|
            0 <= i < new_cols.len() ==> {
                let c = #[trigger] new_cols[i];
                c.key == old_cols[i].key && c.slots@ == old_cols[i].slots@.push(None::<Tagged<V>>)
            },
    ensures
        col_keys_distinct(new_cols),
        pair_map(col_pairs(new_cols)).dom() == pair_map(col_pairs(old_cols)).dom(),
        forall|k: u64| #![auto]
            pair_map(col_pairs(old_cols)).dom().contains(k) ==> pair_map(col_pairs(new_cols))[k]
                == pair_map(col_pairs(old_cols))[k].push(None::<V>),
{
    assert(col_keys_distinct(new_cols)) by {
        assert forall|i: int, j: int| 0 <= i < j < new_cols.len() implies (#[trigger] new_cols[i]).key
            != (#[trigger] new_cols[j]).key by {
            assert(old_cols[i].key != old_cols[j].key);
        }
    }
    assert(pair_map(col_pairs(new_cols)).dom() =~= pair_map(col_pairs(old_cols)).dom()) by {
        assert forall|k: u64| pair_map(col_pairs(new_cols)).dom().contains(k) <==> pair_map(
            col_pairs(old_cols),
        ).dom().contains(k) by {
            lemma_col_dom(new_cols, k);
            lemma_col_dom(old_cols, k);
            if col_has_key(old_cols, k) {
                let i = choose|i: int| 0 <= i < old_cols.len() && (#[trigger] old_cols[i]).key == k;
                assert(new_cols[i].key == k);
            }
            if col_has_key(new_cols, k) {
                let i = choose|i: int| 0 <= i < new_cols.len() && (#[trigger] new_cols[i]).key == k;
                assert(old_cols[i].key == k);
            }
        }
    }
    assert forall|k: u64| #![auto]
        pair_map(col_pairs(old_cols)).dom().contains(k) implies pair_map(col_pairs(new_cols))[k]
        == pair_map(col_pairs(old_cols))[k].push(None::<V>) by {
        lemma_col_dom(old_cols, k);
        let i = choose|i: int| 0 <= i < old_cols.len() && (#[trigger] old_cols[i]).key == k;
        lemma_col_pairs_distinct(old_cols);
        lemma_pair_map_index(col_pairs(old_cols), i);
        assert(col_keys_distinct(new_cols));
        lemma_col_pairs_distinct(new_cols);
        lemma_pair_map_index(col_pairs(new_cols), i);
        assert(untag(new_cols[i].slots@) =~= untag(old_cols[i].slots@).push(None::<V>));
    }
}

/// Well-formedness is preserved by writing one slot of one column.
proof fn lemma_with_wf<V>(
    orig: EntitySystem<V>,
    s: EntitySystem<V>,
    key: u64,
    old_cols: Seq<Column<V>>,
    found: Option<usize>,
)
    requires
        orig.wf(),
        0 < orig.entity_count(),
        !orig.key_leased(key),
        old_cols == orig.components@,
        s.amount_of_entities == orig.amount_of_entities,
        s.single_leases@ == orig.single_leases@,
        s.double_leases@ == orig.double_leases@,
        s.components@.len() > 0,
        (match found {
            Some(i) => i < old_cols.len() && old_cols[i as int].key == key
                && s.components@.drop_last() == old_cols.remove(i as int),
            None => (forall|i: int|
                0 <= i < old_cols.len() ==> (#[trigger] old_cols[i]).key != key)
                && s.components@.drop_last() == old_cols,
        }),
        s.components@.last().key == key,
        s.components@.last().slots@.len() == orig.entity_count(),
        row_tagged(s.components@.last().slots@, key),
    ensures
        s.wf(),
{
    lemma_key_unleased_vecs(orig, key);
    let rest = s.components@.drop_last();
    assert(col_keys_distinct(rest)) by {
        match found {
            Some(i) => {
                assert forall|x: int, y: int| 0 <= x < y < rest.len() implies (#[trigger] rest[x]).key
                    != (#[trigger] rest[y]).key by {
                    let i = i as int;
                    let ox = if x < i { x } else { x + 1 };
                    let oy = if y < i { y } else { y + 1 };
                    assert(rest[x] == old_cols[ox]);
                    assert(rest[y] == old_cols[oy]);
                    assert(old_cols[ox].key != old_cols[oy].key);
                }
            },
            None => {},
        }
    }
    assert(forall|x: int| 0 <= x < rest.len() ==> (#[trigger] rest[x]).key != key) by {
        match found {
            Some(i) => {
                assert forall|x: int| 0 <= x < rest.len() implies (#[trigger] rest[x]).key != key by {
                    let i = i as int;
                    let ox = if x < i { x } else { x + 1 };
                    assert(rest[x] == old_cols[ox]);
                    if ox != i {
                        assert(old_cols[ox].key != old_cols[i].key);
                    }
                }
            },
            None => {
                assert forall|x: int| 0 <= x < rest.len() implies (#[trigger] rest[x]).key != key by {
                    assert(old_cols[x].key != key);
                }
            },
        }
    }
    assert(col_keys_distinct(s.components@)) by {
        assert forall|x: int, y: int| 0 <= x < y < s.components@.len() implies (#[trigger] s
            .components@[x]).key != (#[trigger] s.components@[y]).key by {
            if y < s.components@.len() - 1 {
                assert(s.components@[x] == rest[x]);
                assert(s.components@[y] == rest[y]);
            } else {
                assert(s.components@[x] == rest[x]);
            }
        }
    }
    assert(cols_wf(s.components@, s.entity_count())) by {
        assert forall|i: int| 0 <= i < s.components@.len() implies {
            let c = #[trigger] s.components@[i];
            c.slots@.len() == s.entity_count() && row_tagged(c.slots@, c.key)
        } by {
            if i < s.components@.len() - 1 {
                assert(s.components@[i] == rest[i]);
                match found {
                    Some(fi) => {
                        let fi = fi as int;
                        let oi = if i < fi { i } else { i + 1 };
                        assert(rest[i] == old_cols[oi]);
                        assert(cols_wf(old_cols, orig.entity_count()));
                        assert(old_cols[oi].slots@.len() == orig.entity_count() && row_tagged(
                            old_cols[oi].slots@,
                            old_cols[oi].key,
                        ));
                    },
                    None => {
                        assert(rest[i] == old_cols[i]);
                        assert(old_cols[i].slots@.len() == orig.entity_count() && row_tagged(
                            old_cols[i].slots@,
                            old_cols[i].key,
                        ));
                    },
                }
            }
        }
    }
    assert(keys_exclusive(s.components@, s.single_leases@, s.double_leases@)) by {
        assert forall|i: int| 0 <= i < s.components@.len() implies !single_has_key(
            s.single_leases@,
            (#[trigger] s.components@[i]).key,
        ) && !double_has_key(s.double_leases@, s.components@[i].key) by {
            if i < s.components@.len() - 1 {
                assert(s.components@[i] == rest[i]);
                match found {
                    Some(fi) => {
                        let fi = fi as int;
                        let oi = if i < fi { i } else { i + 1 };
                        assert(rest[i] == old_cols[oi]);
                        assert(!single_has_key(orig.single_leases@, old_cols[oi].key)
                            && !double_has_key(orig.double_leases@, old_cols[oi].key));
                    },
                    None => {
                        assert(rest[i] == old_cols[i]);
                        assert(!single_has_key(orig.single_leases@, old_cols[i].key)
                            && !double_has_key(orig.double_leases@, old_cols[i].key));
                    },
                }
            }
        }
    }
}

} // verus!
