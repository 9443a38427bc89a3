//! Query views over leased component columns, and the row-level functions
//! they are specified with: tagging and untagging slots at the checkout
//! boundary, and projecting the present slots of one or two columns.

use vstd::prelude::*;

pub mod double_mut_query;
pub mod double_query;
pub mod single_mut_query;
pub mod single_query;

pub use double_mut_query::DoubleMutQuery;
pub use double_query::DoubleQuery;
pub use single_mut_query::SingleMutQuery;
pub use single_query::SingleQuery;

verus! {

/// An entity's index.
pub type ID = usize;

/// Every present slot of an erased row carries the given component-type key.
///
/// This is the condition under which recovering the static type from the
/// erased form cannot fail; the store's invariant supplies it for each column.
pub open spec fn row_tagged<V>(row: Seq<Option<crate::entity_system::Tagged<V>>>, key: u64) -> bool {
    forall|i: int|
        0 <= i < row.len() ==> ((#[trigger] row[i]) matches Some(t) ==> t.key == key)
}

/// The typed row that an erased row denotes: tags stripped, presence kept.
pub open spec fn untag<V>(row: Seq<Option<crate::entity_system::Tagged<V>>>) -> Seq<Option<V>> {
    Seq::new(
        row.len(),
        |i: int|
            match row[i] {
                Some(t) => Some(t.value),
                None => None,
            },
    )
}

/// The erased row that a typed row denotes under the given key.
pub open spec fn retag<V>(row: Seq<Option<V>>, key: u64) -> Seq<
    Option<crate::entity_system::Tagged<V>>,
> {
    Seq::new(
        row.len(),
        |i: int|
            match row[i] {
                Some(v) => Some(crate::entity_system::Tagged { key, value: v }),
                None => None,
            },
    )
}

/// A column of the given length with every slot absent.
pub open spec fn all_absent<V>(n: nat) -> Seq<Option<V>> {
    Seq::new(n, |i: int| None::<V>)
}

/// The present slots of a column, in ascending index order, each paired with
/// its entity index. This is what a one-column query iterates over.
pub open spec fn present_pairs<V>(row: Seq<Option<V>>) -> Seq<(ID, V)>
    decreases row.len(),
{
    if row.len() == 0 {
        Seq::empty()
    } else {
        let rest = present_pairs(row.drop_last());
        match row.last() {
            Some(v) => rest.push((((row.len() - 1) as ID), v)),
            None => rest,
        }
    }
}

/// The entity indices at which both columns have a present slot, in ascending
/// order, each with the two values. This is the inner join that a two-column
/// query iterates over; an index absent in either column is skipped.
pub open spec fn present_pairs2<V>(row_a: Seq<Option<V>>, row_b: Seq<Option<V>>) -> Seq<
    (ID, V, V),
>
    decreases row_a.len(),
{
    if row_a.len() == 0 || row_b.len() == 0 {
        Seq::empty()
    } else {
        let rest = present_pairs2(row_a.drop_last(), row_b.drop_last());
        match (row_a.last(), row_b.last()) {
            (Some(x), Some(y)) => rest.push((((row_a.len() - 1) as ID), x, y)),
            _ => rest,
        }
    }
}

/// The present slots of a column with their indices, as a vector.
pub(crate) fn present_of<V: Copy>(row: &Vec<Option<V>>) -> (r: Vec<(ID, V)>)
    ensures
        r@ == present_pairs(row@),
{
    let mut r: Vec<(ID, V)> = Vec::new();
    let mut i: usize = 0;
    while i < row.len()
        invariant
            i <= row@.len(),
            r@ == present_pairs(row@.take(i as int)),
        decreases row@.len() - i,
    {
        proof {
            assert(row@.take(i + 1).drop_last() =~= row@.take(i as int));
            assert(row@.take(i + 1).last() == row@[i as int]);
        }
        match row[i] {
            Some(v) => r.push((i, v)),
            None => (),
        }
        i = i + 1;
    }
    proof {
        assert(row@.take(row@.len() as int) =~= row@);
    }
    r
}

/// The indices present in both columns with both values, as a vector.
pub(crate) fn present2_of<V: Copy>(row_a: &Vec<Option<V>>, row_b: &Vec<Option<V>>) -> (r: Vec<
    (ID, V, V),
>)
    requires
        row_a@.len() == row_b@.len(),
    ensures
        r@ == present_pairs2(row_a@, row_b@),
{
    let mut r: Vec<(ID, V, V)> = Vec::new();
    let mut i: usize = 0;
    while i < row_a.len()
        invariant
            i <= row_a@.len(),
            row_a@.len() == row_b@.len(),
            r@ == present_pairs2(row_a@.take(i as int), row_b@.take(i as int)),
        decreases row_a@.len() - i,
    {
        proof {
            assert(row_a@.take(i + 1).drop_last() =~= row_a@.take(i as int));
            assert(row_b@.take(i + 1).drop_last() =~= row_b@.take(i as int));
            assert(row_a@.take(i + 1).last() == row_a@[i as int]);
            assert(row_b@.take(i + 1).last() == row_b@[i as int]);
        }
        match (row_a[i], row_b[i]) {
            (Some(x), Some(y)) => r.push((i, x, y)),
            _ => (),
        }
        i = i + 1;
    }
    proof {
        assert(row_a@.take(row_a@.len() as int) =~= row_a@);
        assert(row_b@.take(row_b@.len() as int) =~= row_b@);
    }
    r
}

/// Round trip: a typed column converted to erased form and recovered again
/// is unchanged, slot for slot — so data checked back into the store on a
/// release is exactly what the next checkout yields.
pub proof fn lemma_row_round_trip<V>(row: Seq<Option<V>>, key: u64)
    ensures
        untag(retag(row, key)) == row,
{
    assert(untag(retag(row, key)) =~= row);
}

/// A column written while it had no queried type yields nothing: every slot
/// of an all-absent column is skipped.
pub proof fn lemma_absent_column_yields_nothing<V>(n: nat)
    ensures
        present_pairs(all_absent::<V>(n)) == Seq::<(ID, V)>::empty(),
    decreases n,
{
    if n > 0 {
        assert(all_absent::<V>(n).drop_last() =~= all_absent::<V>((n - 1) as nat));
        lemma_absent_column_yields_nothing::<V>((n - 1) as nat);
    }
}

/// A component attached to the newest entity is reported by a one-column
/// query at that entity's index, as the last element of the iteration.
pub proof fn lemma_attached_component_is_queried<V>(row: Seq<Option<V>>, v: V)
    requires
        0 < row.len() <= usize::MAX,
        row.last() == Some(v),
    ensures
        present_pairs(row).len() > 0,
        present_pairs(row).last() == (((row.len() - 1) as ID), v),
{
}

} // verus!
