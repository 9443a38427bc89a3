//! A spec-level view of a vector of key-value pairs as a mathematical map,
//! together with the lemmas that relate vector edits to map edits. The store
//! and the lease caches are all keyed vectors, and their public contracts
//! speak of maps built by [`pair_map`].

use vstd::prelude::*;

verus! {

/// The map that a sequence of key-value pairs denotes. Later pairs shadow
/// earlier ones, which never matters here because every user keeps its keys
/// distinct.
pub open spec fn pair_map<K, A>(s: Seq<(K, A)>) -> Map<K, A>
    decreases s.len(),
{
    if s.len() == 0 {
        Map::empty()
    } else {
        pair_map(s.drop_last()).insert(s.last().0, s.last().1)
    }
}

/// No two pairs share a key.
pub open spec fn distinct_keys<K, A>(s: Seq<(K, A)>) -> bool {
    forall|i: int, j: int| 0 <= i < j < s.len() ==> (#[trigger] s[i]).0 != (#[trigger] s[j]).0
}

/// A key is in the map exactly when some pair carries it.
pub proof fn lemma_pair_map_dom<K, A>(s: Seq<(K, A)>, k: K)
    ensures
        pair_map(s).dom().contains(k) <==> exists|i: int| 0 <= i < s.len() && (#[trigger] s[i]).0 == k,
    decreases s.len(),
{
    if s.len() > 0 {
        lemma_pair_map_dom(s.drop_last(), k);
        if s.last().0 == k {
            assert(s[s.len() - 1].0 == k);
        } else if pair_map(s).dom().contains(k) {
            let i = choose|i: int| 0 <= i < s.drop_last().len() && (#[trigger] s.drop_last()[i]).0 == k;
            assert(s[i].0 == k);
        } else {
            assert forall|i: int| 0 <= i < s.len() implies (#[trigger] s[i]).0 != k by {
                if i < s.len() - 1 {
                    assert(s.drop_last()[i].0 == s[i].0);
                }
            }
        }
    }
}

/// With distinct keys, the pair at any index gives the map's value at its key.
pub proof fn lemma_pair_map_index<K, A>(s: Seq<(K, A)>, i: int)
    requires
        distinct_keys(s),
        0 <= i < s.len(),
    ensures
        pair_map(s).dom().contains(s[i].0),
        pair_map(s)[s[i].0] == s[i].1,
    decreases s.len(),
{
    if i == s.len() - 1 {
        assert(s[i] == s.last());
    } else {
        assert(distinct_keys(s.drop_last())) by {
            assert forall|x: int, y: int| 0 <= x < y < s.drop_last().len()
                implies (#[trigger] s.drop_last()[x]).0 != (#[trigger] s.drop_last()[y]).0 by {
                assert(s.drop_last()[x] == s[x]);
                assert(s.drop_last()[y] == s[y]);
            }
        }
        assert(s.drop_last()[i] == s[i]);
        lemma_pair_map_index(s.drop_last(), i);
        assert(s[i].0 != s.last().0);
    }
}

/// Appending a pair inserts it into the map.
pub proof fn lemma_pair_map_push<K, A>(s: Seq<(K, A)>, p: (K, A))
    ensures
        pair_map(s.push(p)) == pair_map(s).insert(p.0, p.1),
{
    assert(s.push(p).drop_last() =~= s);
    assert(s.push(p).last() == p);
}

/// With distinct keys, removing the pair at an index removes its key from the map.
pub proof fn lemma_pair_map_remove<K, A>(s: Seq<(K, A)>, i: int)
    requires
        distinct_keys(s),
        0 <= i < s.len(),
    ensures
        pair_map(s.remove(i)) == pair_map(s).remove(s[i].0),
    decreases s.len(),
{
    if i == s.len() - 1 {
        assert(s.remove(i) =~= s.drop_last());
        lemma_pair_map_dom(s.drop_last(), s[i].0);
        assert forall|x: int| 0 <= x < s.drop_last().len()
            implies (#[trigger] s.drop_last()[x]).0 != s[i].0 by {
            assert(s.drop_last()[x] == s[x]);
        }
        assert(!pair_map(s.drop_last()).dom().contains(s[i].0));
        assert(pair_map(s.drop_last()).insert(s.last().0, s.last().1).remove(s[i].0)
            =~= pair_map(s.drop_last()));
    } else {
        assert(distinct_keys(s.drop_last())) by {
            assert forall|x: int, y: int| 0 <= x < y < s.drop_last().len()
                implies (#[trigger] s.drop_last()[x]).0 != (#[trigger] s.drop_last()[y]).0 by {
                assert(s.drop_last()[x] == s[x]);
                assert(s.drop_last()[y] == s[y]);
            }
        }
        assert(s.drop_last()[i] == s[i]);
        lemma_pair_map_remove(s.drop_last(), i);
        assert(s.remove(i).drop_last() =~= s.drop_last().remove(i));
        assert(s.remove(i).last() == s.last());
        assert(s[i].0 != s.last().0);
        assert(pair_map(s.remove(i))
            == pair_map(s.drop_last().remove(i)).insert(s.last().0, s.last().1));
        assert(pair_map(s.drop_last()).remove(s[i].0).insert(s.last().0, s.last().1)
            =~= pair_map(s.drop_last()).insert(s.last().0, s.last().1).remove(s[i].0));
    }
}

} // verus!
