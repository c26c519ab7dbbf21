//! Hash maps with ids as keys.
use std::collections::HashMap;
use vstd::prelude::*;

verus! {

/// Whether a list holds each key of a map once, and nothing else. A map has
/// many such lists: the order in which its keys are walked is left open.
pub open spec fn lists_keys<V>(keys: Seq<u64>, map: Map<u64, V>) -> bool {
    &&& keys.no_duplicates()
    &&& forall|key: u64| #[trigger] keys.contains(key) <==> map.contains_key(key)
}

/// The keys of a map, in some order.
pub fn keys_of<V>(map: &HashMap<u64, V>) -> (keys: Vec<u64>)
    ensures
        lists_keys(keys@, map@),
{
    broadcast use vstd::std_specs::hash::group_hash_axioms;

    let mut keys: Vec<u64> = Vec::new();
    for key in it: map.keys()
        invariant
            keys@ == it.seq().unref().take(it.index()),
            it.index() == it.seq().len() ==> keys@ == it.seq().unref(),
            it.seq().unref().to_set() == map@.dom(),
            it.seq().no_duplicates(),
    {
        keys.push(*key);
    }
    proof {
        assert forall|key: u64| #[trigger] keys@.contains(key) <==> map@.contains_key(key) by {
            assert(keys@.to_set().contains(key) <==> map@.dom().contains(key));
        }
    }
    keys
}

}
