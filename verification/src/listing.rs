//! Walking a hash map, whose order is nobody's choice.

use std::collections::HashMap;

use vstd::prelude::*;
use vstd::std_specs::hash::{group_hash_axioms, spec_keys_iter};
use vstd::std_specs::iter::IteratorSpec;

verus! {

/// Whether `order` holds every key once and nothing else.
pub open spec fn lists(order: Seq<u64>, keys: Set<u64>) -> bool {
    &&& order.no_duplicates()
    &&& forall|k: u64| #[trigger] order.contains(k) <==> keys.contains(k)
}

/// The keys of a map, in the order in which it is walked.
pub fn list_keys<V>(m: &HashMap<u64, V>) -> (r: Vec<u64>)
    ensures
        lists(r@, m@.dom()),
{
    broadcast use group_hash_axioms;

    let ghost refs = spec_keys_iter(m).remaining();
    let ghost all: Seq<u64> = refs.unref();
    let mut r: Vec<u64> = Vec::new();
    for k in it: m.keys()
        invariant
            it.seq() == refs,
            all == refs.unref(),
            r@ == all.take(it.index()),
    {
        r.push(*k);
        assert(r@ =~= all.take(it.index() + 1));
    }
    proof {
        assert(all.take(all.len() as int) =~= all);
        assert(r@ == all);
        assert forall|i: int, j: int| 0 <= i < all.len() && 0 <= j < all.len() && i != j implies all[i]
            != all[j] by {
            assert(*refs[i] == all[i]);
            assert(*refs[j] == all[j]);
        }
        assert forall|k: u64| #[trigger] r@.contains(k) <==> m@.dom().contains(k) by {
            assert(all.to_set().contains(k) <==> all.contains(k));
        }
    }
    r
}

} // verus!
