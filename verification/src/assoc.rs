//! Association lists viewed as finite maps.
//!
//! The engine stores each of its four maps as a vector of key-value pairs
//! whose keys never repeat. These spec functions and lemmas relate such a
//! list to the `Map` it denotes, so that contracts can be stated over maps
//! while the executable code walks the list.

use vstd::prelude::*;

verus! {

/// The map denoted by a list of key-value pairs (a later entry would win,
/// though the lists in this crate never repeat a key).
pub open spec fn list_to_map<K, V>(s: Seq<(K, V)>) -> Map<K, V>
    decreases s.len(),
{
    if s.len() == 0 {
        Map::empty()
    } else {
        list_to_map(s.drop_last()).insert(s.last().0, s.last().1)
    }
}

/// No key occurs twice in the list.
pub open spec fn unique_keys<K, V>(s: Seq<(K, V)>) -> bool {
    forall|i: int, j: int| 0 <= i < j < s.len() ==> s[i].0 != s[j].0
}

/// A key is in the denoted map exactly when some entry carries it.
pub proof fn lemma_contains<K, V>(s: Seq<(K, V)>, k: K)
    ensures
        list_to_map(s).contains_key(k) <==> exists|i: int| 0 <= i < s.len() && s[i].0 == k,
    decreases s.len(),
{
    if s.len() > 0 {
        lemma_contains(s.drop_last(), k);
        if s.last().0 == k {
            assert(s[s.len() - 1].0 == k);
        } else if exists|i: int| 0 <= i < s.len() && s[i].0 == k {
            let i = choose|i: int| 0 <= i < s.len() && s[i].0 == k;
            assert(s.drop_last()[i] == s[i]);
        }
    }
}

/// With unique keys, the denoted map sends each entry's key to its value.
pub proof fn lemma_index<K, V>(s: Seq<(K, V)>, i: int)
    requires
        unique_keys(s),
        0 <= i < s.len(),
    ensures
        list_to_map(s).contains_key(s[i].0),
        list_to_map(s)[s[i].0] == s[i].1,
    decreases s.len(),
{
    if i < s.len() - 1 {
        assert(s.drop_last()[i] == s[i]);
        lemma_index(s.drop_last(), i);
        assert(s[i].0 != s.last().0);
    }
}

/// Appending a fresh pair inserts it into the denoted map.
pub proof fn lemma_push<K, V>(s: Seq<(K, V)>, k: K, v: V)
    ensures
        list_to_map(s.push((k, v))) == list_to_map(s).insert(k, v),
{
    assert(s.push((k, v)).drop_last() =~= s);
    assert(s.push((k, v)).last() == (k, v));
}

/// Replacing the value of the entry at `i` updates the denoted map at its key.
pub proof fn lemma_update<K, V>(s: Seq<(K, V)>, i: int, v: V)
    requires
        unique_keys(s),
        0 <= i < s.len(),
    ensures
        list_to_map(s.update(i, (s[i].0, v))) == list_to_map(s).insert(s[i].0, v),
    decreases s.len(),
{
    let t = s.update(i, (s[i].0, v));
    if i == s.len() - 1 {
        assert(t.drop_last() =~= s.drop_last());
        assert(list_to_map(t) =~= list_to_map(s).insert(s[i].0, v));
    } else {
        assert(t.drop_last() =~= s.drop_last().update(i, (s[i].0, v)));
        lemma_update(s.drop_last(), i, v);
        assert(s.drop_last()[i] == s[i]);
        assert(s[i].0 != s.last().0);
        assert(t.last() == s.last());
        assert(list_to_map(t) =~= list_to_map(s).insert(s[i].0, v));
    }
}

/// Removing the entry at `i` removes its key from the denoted map.
pub proof fn lemma_remove<K, V>(s: Seq<(K, V)>, i: int)
    requires
        unique_keys(s),
        0 <= i < s.len(),
    ensures
        list_to_map(s.remove(i)) == list_to_map(s).remove(s[i].0),
    decreases s.len(),
{
    if i == s.len() - 1 {
        assert(s.remove(i) =~= s.drop_last());
        lemma_contains(s.drop_last(), s[i].0);
        assert(forall|j: int|
            0 <= j < s.drop_last().len() ==> s.drop_last()[j] == s[j]);
        assert(!list_to_map(s.drop_last()).contains_key(s[i].0));
        assert(list_to_map(s.remove(i)) =~= list_to_map(s).remove(s[i].0));
    } else {
        let t = s.remove(i);
        assert(t.drop_last() =~= s.drop_last().remove(i));
        assert(s.drop_last()[i] == s[i]);
        lemma_remove(s.drop_last(), i);
        assert(t.last() == s.last());
        assert(s[i].0 != s.last().0);
        assert(list_to_map(t) =~= list_to_map(s).remove(s[i].0));
    }
}

/// Two lists with pointwise equal keys denote maps with the same domain.
pub proof fn lemma_aligned_dom<K, V, W>(s: Seq<(K, V)>, t: Seq<(K, W)>)
    requires
        s.len() == t.len(),
        forall|i: int| 0 <= i < s.len() ==> s[i].0 == t[i].0,
    ensures
        list_to_map(s).dom() == list_to_map(t).dom(),
{
    assert forall|k: K|
        list_to_map(s).contains_key(k) <==> list_to_map(t).contains_key(k) by {
        lemma_contains(s, k);
        lemma_contains(t, k);
    }
    assert(list_to_map(s).dom() =~= list_to_map(t).dom());
}

/// With unique keys, the denoted map has one domain element per entry.
pub proof fn lemma_dom_len<K, V>(s: Seq<(K, V)>)
    requires
        unique_keys(s),
    ensures
        list_to_map(s).dom().finite(),
        list_to_map(s).dom().len() == s.len(),
    decreases s.len(),
{
    if s.len() > 0 {
        lemma_dom_len(s.drop_last());
        lemma_contains(s.drop_last(), s.last().0);
        assert(forall|j: int|
            0 <= j < s.drop_last().len() ==> s.drop_last()[j] == s[j]);
        assert(!list_to_map(s.drop_last()).contains_key(s.last().0));
        assert(list_to_map(s).dom() =~= list_to_map(s.drop_last()).dom().insert(s.last().0));
    }
}

} // verus!
