//! What the library asks of the types of nodes and values.

use vstd::prelude::*;

verus! {

/// `T` can be a key: its hash is deterministic, its `==` is identity of values, and a clone is
/// identical to what it was cloned from.
pub open spec fn key_model<T: Clone + Eq>() -> bool {
    &&& vstd::std_specs::hash::obeys_key_model::<T>()
    &&& vstd::laws_eq::obeys_concrete_eq::<T>()
    &&& forall|a: T, b: T| #[trigger] cloned(a, b) ==> a == b
}

/// A copy of a key.
pub(crate) fn copy_key<T: Clone + Eq>(key: &T) -> (copy: T)
    requires
        key_model::<T>(),
    ensures
        copy == *key,
{
    let copy = key.clone();
    assert(cloned(*key, copy));
    copy
}

/// Whether two keys are the same.
pub(crate) fn same_key<T: Clone + Eq>(a: &T, b: &T) -> (same: bool)
    requires
        key_model::<T>(),
    ensures
        same <==> *a == *b,
{
    reveal(vstd::laws_eq::obeys_concrete_eq);
    *a == *b
}

/// Integers and truth values can be keys.
pub proof fn lemma_integers_are_keys()
    ensures
        key_model::<u8>(),
        key_model::<u16>(),
        key_model::<u32>(),
        key_model::<u64>(),
        key_model::<u128>(),
        key_model::<usize>(),
        key_model::<i8>(),
        key_model::<i16>(),
        key_model::<i32>(),
        key_model::<i64>(),
        key_model::<i128>(),
        key_model::<isize>(),
        key_model::<bool>(),
{
    broadcast use vstd::std_specs::hash::group_hash_axioms;
    broadcast use vstd::laws_eq::group_laws_eq;

}

} // verus!
