use vstd::prelude::*;

use crate::key::Key;
use crate::tree::BST;

verus! {

/// Round trip: inserting an element and at once looking its key up yields
/// exactly that element, whatever the tree held before.
pub proof fn lemma_insert_then_find<T: Key>(tree: BST<T>, data: T)
    ensures
        tree@.insert(data.spec_key(), data).dom().contains(data.spec_key()),
        tree@.insert(data.spec_key(), data)[data.spec_key()] == data,
{
}

/// Upsert: two insertions sharing a key leave only the later element — the
/// tree's map after both is the map after the second insertion alone.
pub proof fn lemma_upsert_overwrites<T: Key>(tree: BST<T>, first: T, second: T)
    requires
        first.spec_key() == second.spec_key(),
    ensures
        tree@.insert(first.spec_key(), first).insert(second.spec_key(), second)
            =~= tree@.insert(second.spec_key(), second),
        tree@.insert(first.spec_key(), first).insert(second.spec_key(), second)[second.spec_key()]
            == second,
{
}

/// The map left behind after removing a sequence of keys, first key first.
pub open spec fn remove_all<K, V>(m: Map<K, V>, keys: Seq<K>) -> Map<K, V>
    decreases keys.len(),
{
    if keys.len() == 0 {
        m
    } else {
        remove_all(m.remove(keys[0]), keys.drop_first())
    }
}

/// Removing keys never adds any: what is left is part of what was there.
proof fn lemma_remove_all_dom<K, V>(m: Map<K, V>, keys: Seq<K>)
    ensures
        remove_all(m, keys).dom().subset_of(m.dom()),
    decreases keys.len(),
{
    if keys.len() > 0 {
        lemma_remove_all_dom(m.remove(keys[0]), keys.drop_first());
    }
}

/// Emptying, one half: a deleted key stays gone — once a key stands in the
/// sequence of removals, the map left behind cannot contain it.
pub proof fn lemma_remove_all_removes<K, V>(m: Map<K, V>, keys: Seq<K>)
    ensures
        forall|k: K| keys.contains(k) ==> !remove_all(m, keys).dom().contains(k),
    decreases keys.len(),
{
    if keys.len() > 0 {
        lemma_remove_all_removes(m.remove(keys[0]), keys.drop_first());
        assert forall|k: K| keys.contains(k) implies !remove_all(m, keys).dom().contains(k) by {
            let i = choose|i: int| 0 <= i < keys.len() && keys[i] == k;
            assert(remove_all(m, keys) == remove_all(m.remove(keys[0]), keys.drop_first()));
            if i == 0 {
                lemma_remove_all_dom(m.remove(keys[0]), keys.drop_first());
                assert(!m.remove(keys[0]).dom().contains(k));
            } else {
                assert(keys.drop_first()[i - 1] == k);
                assert(keys.drop_first().contains(k));
            }
        }
    }
}

/// Emptying: deleting every key the tree holds, in any order, leaves a tree
/// in which no key can be found.
pub proof fn lemma_remove_all_empties<K, V>(m: Map<K, V>, keys: Seq<K>)
    requires
        forall|k: K| m.dom().contains(k) ==> keys.contains(k),
    ensures
        remove_all(m, keys) =~= Map::empty(),
{
    lemma_remove_all_dom(m, keys);
    lemma_remove_all_removes(m, keys);
    assert forall|k: K| !remove_all(m, keys).dom().contains(k) by {
        if remove_all(m, keys).dom().contains(k) {
            assert(m.dom().contains(k));
            assert(keys.contains(k));
        }
    }
}

} // verus!
