//! Walking a hash map: the order in which the keys come is arbitrary, but
//! each key comes exactly once.

use std::collections::HashMap;
use vstd::prelude::*;
use vstd::relations::injective_on;
use vstd::set_lib::*;

verus! {

broadcast use vstd::std_specs::hash::group_hash_axioms;

/// `order` names every key of `keys` exactly once. A hash map is walked in
/// such an order, and nothing more is known of it.
pub open spec fn is_walk(order: Seq<u32>, keys: Set<u32>) -> bool {
    order.no_duplicates() && order.to_set() == keys
}

/// A walk of a single key is that key; a walk of no key is empty.
pub proof fn lemma_small_walk(order: Seq<u32>, keys: Set<u32>)
    requires
        is_walk(order, keys),
        keys.finite(),
        keys.len() <= 1,
    ensures
        keys.len() == 0 ==> order == Seq::<u32>::empty(),
        keys.len() == 1 ==> order == seq![keys.choose()],
{
    order.unique_seq_to_set();
    if keys.len() == 0 {
        assert(order =~= Seq::<u32>::empty());
    } else {
        assert(order.to_set().contains(order[0]));
        assert(keys.contains(keys.choose()));
        keys.lemma_singleton_size();
        assert(keys.is_singleton()) by {
            Set::<u32>::lemma_is_singleton(keys);
        }
        assert(order =~= seq![keys.choose()]);
    }
}

/// A sequence with one more element holds what it held before, and that
/// element.
pub proof fn lemma_contains_push<A>(s: Seq<A>, last: A, x: A)
    ensures
        s.push(last).contains(x) <==> s.contains(x) || x == last,
{
    if s.contains(x) {
        let j = choose|j: int| 0 <= j < s.len() && s[j] == x;
        assert(s.push(last)[j] == x);
    }
    if x == last {
        assert(s.push(last)[s.len() as int] == x);
    }
    if s.push(last).contains(x) {
        let j = choose|j: int| 0 <= j < s.push(last).len() && s.push(last)[j] == x;
        if j < s.len() {
            assert(s[j] == x);
        }
    }
}

/// The keys of `map`, each once, in the order in which the map is walked.
pub fn walk<V>(map: &HashMap<u32, V>) -> (keys: Vec<u32>)
    ensures
        is_walk(keys@, map@.dom()),
{
    let mut keys: Vec<u32> = Vec::new();
    for key in it: map.keys()
        invariant
            keys@ == it.seq().unref().take(it.index()),
            it.seq().unref().to_set() == map@.dom(),
            it.seq().unref().no_duplicates(),
            it.index() == it.seq().len() ==> keys@ =~= it.seq().unref(),
    {
        keys.push(*key);
    }
    keys
}

/// There are no more than 2^32 distinct keys.
pub proof fn lemma_walk_bounded(order: Seq<u32>)
    requires
        order.no_duplicates(),
    ensures
        order.len() <= 0x1_0000_0000,
{
    order.unique_seq_to_set();
    let keys = order.to_set();
    let widen = |key: u32| key as int;
    let image = keys.map(widen);
    assert(injective_on(widen, keys));
    lemma_map_size(keys, image, widen);
    lemma_int_range(0, 0x1_0000_0000);
    assert(image.subset_of(set_int_range(0, 0x1_0000_0000)));
    lemma_len_subset(image, set_int_range(0, 0x1_0000_0000));
}

} // verus!
