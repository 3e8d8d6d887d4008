//! Collision nodes: the values whose hashes are all equal, in a list.

use vstd::prelude::*;
use crate::bits::HashBits;
use crate::node::{CollisionNode, Entry};
use crate::value::{key_matches, keys_compare_by_equality, HashValue};

verus! {

/// `i` is the first index of `s` whose value has key `k`.
pub open spec fn first_with_key<A: HashValue>(s: Seq<A>, k: A::Key, i: int) -> bool {
    &&& 0 <= i < s.len()
    &&& s[i].key() == k
    &&& forall|j: int| 0 <= j < i ==> (#[trigger] s[j]).key() != k
}

/// `i` is the last index of `s` whose value has key `k`.
pub open spec fn last_with_key<A: HashValue>(s: Seq<A>, k: A::Key, i: int) -> bool {
    &&& 0 <= i < s.len()
    &&& s[i].key() == k
    &&& forall|j: int| i < j < s.len() ==> (#[trigger] s[j]).key() != k
}

/// No value of `s` has key `k`.
pub open spec fn no_key<A: HashValue>(s: Seq<A>, k: A::Key) -> bool {
    forall|j: int| 0 <= j < s.len() ==> (#[trigger] s[j]).key() != k
}

impl<A: HashValue> CollisionNode<A> {
    /// A collision node for two values with hash `hash`.
    pub fn new(hash: HashBits, value1: A, value2: A) -> (r: Self)
        ensures
            r.hash == hash,
            r.data@ == seq![value1, value2],
    {
        let mut data: Vec<A> = Vec::new();
        data.push(value1);
        data.push(value2);
        proof {
            assert(data@ =~= seq![value1, value2]);
        }
        CollisionNode { hash, data }
    }

    /// The number of values.
    pub fn len(&self) -> (r: usize)
        ensures
            r == self.data@.len(),
    {
        self.data.len()
    }

    /// The first value with key `key`.
    pub fn get(&self, key: &A::Key) -> (r: Option<&A>)
        requires
            keys_compare_by_equality::<A>(),
        ensures
            match r {
                Some(v) => exists|i: int| first_with_key(self.data@, *key, i) && self.data@[i] == *v,
                None => no_key(self.data@, *key),
            },
    {
        let mut i: usize = 0;
        while i < self.data.len()
            invariant
                i <= self.data@.len(),
                keys_compare_by_equality::<A>(),
                no_key(self.data@.take(i as int), *key),
            decreases self.data@.len() - i,
        {
            if key_matches(key, &self.data[i]) {
                assert(first_with_key(self.data@, *key, i as int)) by {
                    assert forall|j: int| 0 <= j < i implies (#[trigger] self.data@[j]).key() != *key by {
                        assert(self.data@.take(i as int)[j] == self.data@[j]);
                    }
                }
                return Some(&self.data[i]);
            }
            assert forall|j: int| 0 <= j < i + 1 implies (#[trigger] self.data@.take(i + 1)[j]).key() != *key by {
                if j < i {
                    assert(self.data@.take(i as int)[j] == self.data@.take(i + 1)[j]);
                }
            }
            i = i + 1;
        }
        assert(self.data@.take(i as int) =~= self.data@);
        None
    }

    /// A mutable reference to the first value with key `key`.
    pub fn get_mut(&mut self, key: &A::Key) -> (r: Option<&mut A>)
        requires
            keys_compare_by_equality::<A>(),
        ensures
            final(self).hash == old(self).hash,
            match r {
                Some(v) => exists|i: int|
                    first_with_key(old(self).data@, *key, i) && *v == old(self).data@[i]
                        && final(self).data@ == old(self).data@.update(i, *final(v)),
                None => no_key(old(self).data@, *key) && final(self).data@ == old(self).data@,
            },
    {
        let mut i: usize = 0;
        while i < self.data.len()
            invariant
                i <= self.data@.len(),
                keys_compare_by_equality::<A>(),
                self.data@ == old(self).data@,
                self.hash == old(self).hash,
                no_key(self.data@.take(i as int), *key),
            decreases self.data@.len() - i,
        {
            if key_matches(key, &self.data[i]) {
                assert(first_with_key(self.data@, *key, i as int)) by {
                    assert forall|j: int| 0 <= j < i implies (#[trigger] self.data@[j]).key() != *key by {
                        assert(self.data@.take(i as int)[j] == self.data@[j]);
                    }
                }
                return Some(&mut self.data[i]);
            }
            assert forall|j: int| 0 <= j < i + 1 implies (#[trigger] self.data@.take(i + 1)[j]).key() != *key by {
                if j < i {
                    assert(self.data@.take(i as int)[j] == self.data@.take(i + 1)[j]);
                }
            }
            i = i + 1;
        }
        assert(self.data@.take(i as int) =~= self.data@);
        None
    }

    /// Puts `value` in place of the first value with the same key, and gives
    /// that one back; or adds it at the end.
    pub fn insert(&mut self, value: A) -> (r: Option<A>)
        requires
            keys_compare_by_equality::<A>(),
        ensures
            final(self).hash == old(self).hash,
            match r {
                Some(prev) => exists|i: int|
                    first_with_key(old(self).data@, value.key(), i) && prev == old(self).data@[i]
                        && final(self).data@ == old(self).data@.update(i, value),
                None => no_key(old(self).data@, value.key()) && final(self).data@ == old(
                    self,
                ).data@.push(value),
            },
    {
        let mut i: usize = 0;
        while i < self.data.len()
            invariant
                i <= self.data@.len(),
                keys_compare_by_equality::<A>(),
                self.data@ == old(self).data@,
                self.hash == old(self).hash,
                no_key(self.data@.take(i as int), value.key()),
            decreases self.data@.len() - i,
        {
            if key_matches(value.extract_key(), &self.data[i]) {
                assert(first_with_key(self.data@, value.key(), i as int)) by {
                    assert forall|j: int| 0 <= j < i implies (#[trigger] self.data@[j]).key() != value.key() by {
                        assert(self.data@.take(i as int)[j] == self.data@[j]);
                    }
                }
                let mut prev = value;
                std::mem::swap(&mut self.data[i], &mut prev);
                return Some(prev);
            }
            assert forall|j: int| 0 <= j < i + 1 implies (#[trigger] self.data@.take(i + 1)[j]).key() != value.key() by {
                if j < i {
                    assert(self.data@.take(i as int)[j] == self.data@.take(i + 1)[j]);
                }
            }
            i = i + 1;
        }
        assert(self.data@.take(i as int) =~= self.data@);
        self.data.push(value);
        None
    }

    /// Takes out the last value with key `key`.
    pub fn remove(&mut self, key: &A::Key) -> (r: Option<A>)
        requires
            keys_compare_by_equality::<A>(),
        ensures
            final(self).hash == old(self).hash,
            match r {
                Some(v) => exists|i: int|
                    last_with_key(old(self).data@, *key, i) && v == old(self).data@[i]
                        && final(self).data@ == old(self).data@.remove(i),
                None => no_key(old(self).data@, *key) && final(self).data@ == old(self).data@,
            },
    {
        let mut loc: Option<usize> = None;
        let mut i: usize = 0;
        while i < self.data.len()
            invariant
                i <= self.data@.len(),
                keys_compare_by_equality::<A>(),
                match loc {
                    Some(l) => last_with_key(self.data@.take(i as int), *key, l as int),
                    None => no_key(self.data@.take(i as int), *key),
                },
            decreases self.data@.len() - i,
        {
            let ghost before = self.data@.take(i as int);
            let ghost after = self.data@.take(i + 1);
            assert forall|j: int| 0 <= j < i implies before[j] == #[trigger] after[j] by {}
            if key_matches(key, &self.data[i]) {
                loc = Some(i);
            }
            i = i + 1;
        }
        assert(self.data@.take(i as int) =~= self.data@);
        match loc {
            Some(index) => Some(self.data.remove(index)),
            None => None,
        }
    }

    /// Takes out the last value, as a value entry with the shared hash.
    pub fn pop(&mut self) -> (r: Entry<A>)
        requires
            old(self).data@.len() > 0,
        ensures
            r == Entry::Value(old(self).data@.last(), old(self).hash),
            final(self).hash == old(self).hash,
            final(self).data@ == old(self).data@.drop_last(),
    {
        let v = self.data.pop().unwrap();
        Entry::Value(v, self.hash)
    }
}

} // verus!
