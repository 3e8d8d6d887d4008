//! What the trie stores: values that carry their own key.

use vstd::prelude::*;

verus! {

/// A value stored in the trie, which carries the key it is found by.
pub trait HashValue {
    /// The key a value is found by.
    type Key: Eq;

    /// The key of this value.
    spec fn key(&self) -> Self::Key;

    /// A reference to the key of this value.
    fn extract_key(&self) -> (k: &Self::Key)
        ensures
            *k == self.key(),
    ;

    /// Whether two values are the same object.
    fn ptr_eq(&self, other: &Self) -> bool;

    /// A copy of this value, equal to it. Nodes copy their values with it
    /// when a shared node is made unique before a change.
    fn clone_value(&self) -> (r: Self)
        where Self: Sized
        ensures
            r == *self,
    ;
}

/// `==` on keys of this type is equality of the keys.
pub open spec fn keys_compare_by_equality<A: HashValue>() -> bool {
    vstd::laws_eq::obeys_concrete_eq::<A::Key>()
}

/// Compares a key with the key of a stored value.
pub fn key_matches<A: HashValue>(key: &A::Key, value: &A) -> (r: bool)
    requires
        keys_compare_by_equality::<A>(),
    ensures
        r == (*key == value.key()),
{
    proof {
        reveal(vstd::laws_eq::obeys_concrete_eq);
    }
    key.eq(value.extract_key())
}

/// `core::mem::needs_drop`: whether dropping a `T` may run code. Nothing is
/// claimed of what it returns.
pub assume_specification<T: ?Sized>[ core::mem::needs_drop::<T> ]() -> bool;

/// Whether two hashes may belong to equal keys: true when the hashes are
/// equal, and also when keys of the type are cheap enough to compare directly
/// (`needs_drop` is false and the key is at most 16 bytes).
pub fn may_eq_given(needs_drop: bool, key_size: usize, hash: u32, other_hash: u32) -> (r: bool)
    ensures
        r == ((!needs_drop && key_size <= 16) || hash == other_hash),
{
    (!needs_drop && key_size <= 16) || hash == other_hash
}

/// Compare two hashes, returning true if they are equal or if the key is
/// (likely) cheap to compare.
pub fn hash_may_eq<A: HashValue>(hash: u32, other_hash: u32) -> (r: bool)
    ensures
        hash == other_hash ==> r,
        r ==> hash == other_hash || vstd::layout::size_of::<A::Key>() <= 16,
{
    may_eq_given(core::mem::needs_drop::<A::Key>(), core::mem::size_of::<A::Key>(), hash, other_hash)
}

} // verus!
