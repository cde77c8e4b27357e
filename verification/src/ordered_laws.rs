//! Laws of sets and maps that keep the order of insertion.

use crate::keys;
use crate::ordered::OrderedMap;
use crate::ordered::OrderedSet;
use std::hash::Hash;
use vstd::prelude::*;
use vstd::std_specs::cmp::PartialEqSpec;

verus! {

/// `==` on sets: two sets are equal if and only if they have the same items.
pub proof fn law_set_equality<T: Hash + Eq + Clone>(a: OrderedSet<T>, b: OrderedSet<T>)
    requires
        keys::key_model::<T>(),
    ensures
        OrderedSet::<T>::obeys_eq_spec(),
        a.eq_spec(&b) <==> forall|x: T| #[trigger] a@.contains(x) <==> b@.contains(x),
{
    if a.eq_spec(&b) {
        assert forall|x: T| #[trigger] a@.contains(x) <==> b@.contains(x) by {
            assert(a@.to_set().contains(x) <==> b@.to_set().contains(x));
        }
    }
    if forall|x: T| #[trigger] a@.contains(x) <==> b@.contains(x) {
        assert(a@.to_set() =~= b@.to_set());
    }
}

/// `==` on maps: two maps are equal if and only if they have the same keys, with equal values.
pub proof fn law_map_equality<K: Hash + Eq + Clone, V: PartialEq>(
    a: OrderedMap<K, V>,
    b: OrderedMap<K, V>,
)
    requires
        keys::key_model::<K>(),
        V::obeys_eq_spec(),
        a.wf(),
        b.wf(),
    ensures
        OrderedMap::<K, V>::obeys_eq_spec(),
        a.eq_spec(&b) <==> {
            &&& forall|k: K| #[trigger] a.keys().contains(k) <==> b.keys().contains(k)
            &&& forall|k: K| #[trigger] a.keys().contains(k) ==> a@[k].eq_spec(&b@[k])
        },
{
    if a.eq_spec(&b) {
        assert forall|k: K| #[trigger] a.keys().contains(k) <==> b.keys().contains(k) by {
            assert(a@.dom().contains(k) <==> b@.dom().contains(k));
            assert(a@.contains_key(k) <==> a.keys().contains(k));
            assert(b@.contains_key(k) <==> b.keys().contains(k));
        }
        assert forall|k: K| #[trigger] a.keys().contains(k) implies a@[k].eq_spec(&b@[k]) by {
            assert(a@.contains_key(k));
        }
    }
    if forall|k: K| #[trigger] a.keys().contains(k) <==> b.keys().contains(k) {
        assert forall|k: K| a@.dom().contains(k) <==> b@.dom().contains(k) by {
            assert(a@.contains_key(k) <==> a.keys().contains(k));
            assert(b@.contains_key(k) <==> b.keys().contains(k));
        }
        assert(a@.dom() =~= b@.dom());
    }
}

} // verus!
