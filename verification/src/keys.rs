//! Walking the keys of a hash map in verified code.

use vstd::prelude::*;
use std::collections::HashMap;
use std::hash::Hash;
use vstd::std_specs::hash::*;
use vstd::std_specs::cmp::PartialEqSpec;
use vstd::std_specs::iter::IteratorSpec;

verus! {

/// What the counter asks of an identity type: its hashing agrees with its
/// equality, and its `==` is equality of values.
pub open spec fn lawful<Id: Eq>() -> bool {
    &&& obeys_key_model::<Id>()
    &&& Id::obeys_eq_spec()
    &&& forall|a: Id, b: Id| #[trigger] a.eq_spec(&b) <==> a == b
}

/// The unsigned 64-bit integers are lawful identities.
pub proof fn lemma_u64_is_lawful()
    ensures
        lawful::<u64>(),
{
    broadcast use group_hash_axioms;
}

/// The keys of `m`, each once, in the order in which the map hands them out.
pub fn keys_of<Id: Hash + Eq + Copy, V>(m: &HashMap<Id, V>) -> (r: Vec<Id>)
    requires
        lawful::<Id>(),
    ensures
        r@.no_duplicates(),
        forall|k: Id| r@.contains(k) <==> m@.contains_key(k),
{
    broadcast use group_hash_axioms;
    let mut out: Vec<Id> = Vec::new();
    for k in it: m.keys()
        invariant
            it.seq() == spec_keys_iter(m).remaining(),
            out.len() == it.index(),
            forall|j: int| 0 <= j < out.len() ==> out@[j] == *it.seq()[j],
    {
        out.push(*k);
    }
    proof {
        let s = spec_keys_iter(m).remaining();
        assert(out@ =~= s.unref());
        assert forall|i: int, j: int| 0 <= i < out.len() && 0 <= j < out.len() && i != j implies out@[i] != out@[j] by {
            assert(s[i] != s[j]);
        }
        assert forall|k: Id| out@.contains(k) <==> m@.contains_key(k) by {
            assert(s.unref().to_set() == m@.dom());
            assert(s.unref().to_set().contains(k) == m@.dom().contains(k));
        }
    }
    out
}

} // verus!
