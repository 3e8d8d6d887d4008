//! Small nodes: 16 slots that hold only values, each at its own slot.

use vstd::prelude::*;
use crate::bits::{small_mask, small_slot_of, HashBits, SMALL_NODE_WIDTH};
use crate::chunk::{empty_slots, Chunk};
use crate::model::{agree_with, has_key, items_map, keys_unique};
use crate::node::{
    is_value, lemma_map_clear_slot, lemma_map_replace, lemma_map_split, lemma_members_replace, lemma_slot_value,
    lemma_value_items, lemma_value_slot, opt_items, slots_items, slots_prefix, small_items, small_wf,
    Entry, SmallNode,
};
use crate::value::{hash_may_eq, key_matches, keys_compare_by_equality, HashValue};

verus! {

impl<A> SmallNode<A> {
    /// An empty small node.
    pub fn new() -> (r: Self)
        ensures
            r.data.wf(),
            r.data.slots@ == empty_slots::<Entry<A>>(SMALL_NODE_WIDTH as nat),
    {
        SmallNode { data: Chunk::new() }
    }

    /// The number of values.
    pub fn len(&self) -> (r: usize)
        requires
            self.data.wf(),
        ensures
            r == self.data.count(),
    {
        self.data.len()
    }

    /// The slot of `hash` in a small node at level `shift`.
    pub fn mask(hash: HashBits, shift: usize) -> (r: HashBits)
        requires
            shift < 32,
        ensures
            r == small_slot_of(hash, shift as nat),
            r < 16,
    {
        small_mask(hash, shift)
    }

    /// Takes out the value in the lowest occupied slot.
    pub fn pop(&mut self) -> (r: Entry<A>)
        requires
            old(self).data.wf(),
            old(self).data.count() > 0,
        ensures
            final(self).data.wf(),
            exists|i: int|
                0 <= i < SMALL_NODE_WIDTH && old(self).data.slots@[i] == Some(r) && (forall|j: int|
                    0 <= j < i ==> old(self).data.slots@[j] is None) && final(self).data.slots@
                    == old(self).data.slots@.update(i, None),
            final(self).data.count() == old(self).data.count() - 1,
    {
        proof {
            crate::chunk::lemma_count_zero(self.data.slots@);
        }
        match self.data.pop() {
            Some(e) => e,
            None => {
                assert(false);
                vstd::pervasive::unreached()
            },
        }
    }
}

impl<A> Default for SmallNode<A> {
    /// An empty small node.
    fn default() -> (r: Self)
        ensures
            r.data.wf(),
            r.data.slots@ == empty_slots::<Entry<A>>(SMALL_NODE_WIDTH as nat),
    {
        Self::new()
    }
}

/// The hash of a key in a node: if the key is there, its stored hash is
/// `hash`.
pub open spec fn hash_fits<A: HashValue>(m: Map<A::Key, (A, HashBits)>, key: A::Key, hash: HashBits) -> bool {
    m.contains_key(key) ==> m[key].1 == hash
}

impl<A: HashValue> SmallNode<A> {
    /// The value with key `key`, given the key's hash.
    pub fn get(&self, hash: HashBits, shift: usize, key: &A::Key) -> (r: Option<&A>)
        requires
            small_wf(*self, shift as nat),
            keys_compare_by_equality::<A>(),
            hash_fits(self@, *key, hash),
        ensures
            match r {
                Some(v) => self@.contains_key(*key) && *v == self@[*key].0,
                None => !self@.contains_key(*key),
            },
    {
        let index = Self::mask(hash, shift) as usize;
        let ghost s = self.data.slots@;
        match self.data.get(index) {
            Some(Entry::Value(value, value_hash)) => {
                if hash_may_eq::<A>(hash, *value_hash) && key_matches(key, value) {
                    proof {
                        lemma_slot_value(s, index as int);
                    }
                    Some(value)
                } else {
                    proof {
                        self.lemma_absent(hash, shift as nat, *key, index as int);
                    }
                    None
                }
            },
            _ => {
                proof {
                    self.lemma_absent(hash, shift as nat, *key, index as int);
                }
                None
            },
        }
    }

    /// A key whose hash fits is absent when the slot of the hash does not
    /// hold a value with that hash and key.
    proof fn lemma_absent(&self, hash: HashBits, shift: nat, key: A::Key, index: int)
        requires
            small_wf(*self, shift),
            hash_fits(self@, key, hash),
            index == small_slot_of(hash, shift),
            0 <= index < SMALL_NODE_WIDTH,
            !(self.data.slots@[index] matches Some(Entry::Value(v, h)) && h == hash && v.key() == key),
        ensures
            !self@.contains_key(key),
    {
        let s = self.data.slots@;
        if self@.contains_key(key) {
            let j = lemma_value_slot(s, key);
            assert(small_slot_of(s[j]->0->Value_1, shift) == j);
        }
    }

    /// A mutable reference to the value with key `key`, given the key's hash.
    /// While the key of the value stays the same, the node stays well formed
    /// and maps the key to what the reference leaves.
    pub fn get_mut(&mut self, hash: HashBits, shift: usize, key: &A::Key) -> (r: Option<&mut A>)
        requires
            small_wf(*old(self), shift as nat),
            keys_compare_by_equality::<A>(),
            hash_fits(old(self)@, *key, hash),
        ensures
            match r {
                Some(v) => {
                    &&& old(self)@.contains_key(*key)
                    &&& *v == old(self)@[*key].0
                    &&& final(v).key() == *key ==> small_wf(*final(self), shift as nat)
                        && final(self)@ == old(self)@.insert(*key, (*final(v), hash))
                    &&& final(self).data.slots@ == old(self).data.slots@.update(
                        small_slot_of(hash, shift as nat),
                        Some(Entry::Value(*final(v), hash)),
                    )
                    &&& final(self).data.len == old(self).data.len
                },
                None => {
                    &&& !old(self)@.contains_key(*key)
                    &&& *final(self) == *old(self)
                },
            },
    {
        let index = Self::mask(hash, shift) as usize;
        let ghost s = self.data.slots@;
        let ghost n = *self;
        let found = match self.data.get(index) {
            Some(Entry::Value(value, value_hash)) => hash_may_eq::<A>(hash, *value_hash) && key_matches(
                key,
                value,
            ),
            _ => false,
        };
        if !found {
            proof {
                n.lemma_absent(hash, shift as nat, *key, index as int);
            }
            return None;
        }
        proof {
            lemma_slot_value(s, index as int);
            assert forall|w: A| w.key() == *key implies ({
                let t = #[trigger] s.update(index as int, Some(Entry::Value(w, hash)));
                &&& keys_unique(slots_items(t, 0))
                &&& items_map(slots_items(t, 0)) == n@.insert(*key, (w, hash))
                &&& crate::model::hashes_agree(slots_items(t, 0), shift as nat)
                &&& crate::chunk::count_some(t) == crate::chunk::count_some(s)
            }) by {
                n.lemma_replace_value(shift as nat, index as int, w, hash);
                crate::chunk::lemma_count_update(s, index as int, Some(Entry::Value(w, hash)));
            }
        }
        match self.data.get_mut(index) {
            Some(Entry::Value(value, _)) => Some(value),
            _ => {
                assert(false);
                vstd::pervasive::unreached()
            },
        }
    }

    /// Takes out the value with key `key`, given the key's hash.
    pub fn remove(&mut self, hash: HashBits, shift: usize, key: &A::Key) -> (r: Option<A>)
        requires
            small_wf(*old(self), shift as nat),
            keys_compare_by_equality::<A>(),
            hash_fits(old(self)@, *key, hash),
        ensures
            small_wf(*final(self), shift as nat),
            final(self)@ == old(self)@.remove(*key),
            forall|y: (A, HashBits)| #[trigger] crate::model::contains_item(small_items(*final(self)), y)
                ==> crate::model::contains_item(small_items(*old(self)), y),
            match r {
                Some(v) => old(self)@.contains_key(*key) && v == old(self)@[*key].0,
                None => !old(self)@.contains_key(*key),
            },
    {
        let index = Self::mask(hash, shift) as usize;
        let ghost s = self.data.slots@;
        match self.data.get(index) {
            Some(Entry::Value(value, value_hash)) => {
                if hash_may_eq::<A>(hash, *value_hash) && key_matches(key, value) {
                    proof {
                        lemma_slot_value(s, index as int);
                        self.lemma_clear(shift as nat, index as int);
                    }
                    match self.data.remove(index) {
                        Some(e) => Some(e.unwrap_value()),
                        None => {
                            assert(false);
                            vstd::pervasive::unreached()
                        },
                    }
                } else {
                    proof {
                        self.lemma_absent(hash, shift as nat, *key, index as int);
                        assert(old(self)@.remove(*key) =~= old(self)@);
                    }
                    None
                }
            },
            _ => {
                proof {
                    self.lemma_absent(hash, shift as nat, *key, index as int);
                    assert(old(self)@.remove(*key) =~= old(self)@);
                }
                None
            },
        }
    }

    /// Emptying the slot of a value keeps the node well formed and removes the
    /// value's key from the map.
    proof fn lemma_clear(&self, shift: nat, index: int)
        requires
            small_wf(*self, shift),
            0 <= index < SMALL_NODE_WIDTH,
            self.data.slots@[index] is Some,
            self.data.slots@[index]->0 is Value,
        ensures
            ({
                let t = self.data.slots@.update(index, None);
                let k = self.data.slots@[index]->0->Value_0.key();
                &&& keys_unique(slots_items(t, 0))
                &&& items_map(slots_items(t, 0)) == self@.remove(k)
                &&& crate::model::hashes_agree(slots_items(t, 0), shift)
                &&& forall|y: (A, HashBits)| #[trigger] crate::model::contains_item(slots_items(t, 0), y)
                    ==> crate::model::contains_item(slots_items(self.data.slots@, 0), y)
            }),
    {
        let s = self.data.slots@;
        let e = s[index]->0;
        lemma_map_clear_slot(s, index);
        lemma_value_items(e->Value_0, e->Value_1);
        crate::model::lemma_map_single(e->Value_0, e->Value_1);
        assert(items_map(opt_items(s[index])).dom() =~= set![e->Value_0.key()]);
        assert(self@.remove_keys(set![e->Value_0.key()]) =~= self@.remove(e->Value_0.key()));
        crate::model::lemma_agree_subset(slots_items(s.update(index, None), 0), slots_items(s, 0), shift);
    }

    /// Puts `value` in its slot. Gives back `Ok` with the value it replaced,
    /// if any, or `Err(value)` when the slot holds a value with another key.
    pub fn insert(&mut self, hash: HashBits, shift: usize, value: A) -> (r: Result<Option<A>, A>)
        requires
            small_wf(*old(self), shift as nat),
            keys_compare_by_equality::<A>(),
            hash_fits(old(self)@, value.key(), hash),
            agree_with(small_items(*old(self)), hash, shift as nat),
        ensures
            match r {
                Ok(prev) => {
                    &&& old(self)@.contains_key(value.key()) || old(self).data.slots@[small_slot_of(hash, shift as nat)] is None
                    &&& small_wf(*final(self), shift as nat)
                    &&& final(self)@ == old(self)@.insert(value.key(), (value, hash))
                    &&& forall|y: (A, HashBits)| #[trigger] crate::model::contains_item(small_items(*final(self)), y)
                        ==> crate::model::contains_item(small_items(*old(self)), y) || y == (value, hash)
                    &&& match prev {
                        Some(p) => old(self)@.contains_key(value.key()) && p == old(self)@[value.key()].0,
                        None => !old(self)@.contains_key(value.key()),
                    }
                },
                Err(v) => {
                    &&& v == value
                    &&& *final(self) == *old(self)
                    &&& !old(self)@.contains_key(value.key())
                    &&& old(self).data.slots@[small_slot_of(hash, shift as nat)] is Some
                },
            },
    {
        let index = Self::mask(hash, shift) as usize;
        let ghost s = self.data.slots@;
        let ghost k = value.key();
        match self.data.get(index) {
            Some(Entry::Value(existing, existing_hash)) => {
                let eh = *existing_hash;
                if hash_may_eq::<A>(hash, eh) && key_matches(value.extract_key(), existing) {
                    proof {
                        lemma_slot_value(s, index as int);
                    }
                    let ghost x = Some(Entry::Value(value, eh));
                    proof {
                        self.lemma_replace_value(shift as nat, index as int, value, eh);
                    }
                    let prev = self.data.insert(index, Entry::Value(value, eh));
                    match prev {
                        Some(Entry::Value(p, _)) => Ok(Some(p)),
                        _ => {
                            assert(false);
                            vstd::pervasive::unreached()
                        },
                    }
                } else {
                    proof {
                        self.lemma_absent(hash, shift as nat, k, index as int);
                    }
                    Err(value)
                }
            },
            None => {
                proof {
                    self.lemma_absent(hash, shift as nat, k, index as int);
                    self.lemma_replace_value(shift as nat, index as int, value, hash);
                }
                self.data.insert(index, Entry::Value(value, hash));
                Ok(None)
            },
            _ => {
                assert(false);
                vstd::pervasive::unreached()
            },
        }
    }

    /// Putting a value in its slot, where the slot is empty or holds a value
    /// with the same key and hash, keeps the node well formed and inserts the
    /// value into the map.
    proof fn lemma_replace_value(&self, shift: nat, index: int, value: A, hash: HashBits)
        requires
            small_wf(*self, shift),
            index == small_slot_of(hash, shift),
            0 <= index < SMALL_NODE_WIDTH,
            agree_with(small_items(*self), hash, shift),
            match self.data.slots@[index] {
                None => !self@.contains_key(value.key()),
                Some(e) => e matches Entry::Value(v, h) && h == hash && v.key() == value.key(),
            },
        ensures
            ({
                let t = self.data.slots@.update(index, Some(Entry::Value(value, hash)));
                &&& keys_unique(slots_items(t, 0))
                &&& items_map(slots_items(t, 0)) == self@.insert(value.key(), (value, hash))
                &&& crate::model::hashes_agree(slots_items(t, 0), shift)
                &&& forall|y: (A, HashBits)| #[trigger] crate::model::contains_item(slots_items(t, 0), y)
                    ==> crate::model::contains_item(slots_items(self.data.slots@, 0), y) || y == (value, hash)
            }),
    {
        let s = self.data.slots@;
        let x = Some(Entry::Value(value, hash));
        let t = s.update(index, x);
        let p = slots_prefix(s, index as nat);
        let q = slots_items(s, (index + 1) as nat);
        lemma_map_split(s, index);
        lemma_value_items(value, hash);
        assert(opt_items(x) == seq![(value, hash)]);
        assert forall|a: int, b: int| 0 <= a < opt_items(x).len() && 0 <= b < (p + q).len() implies #[trigger] opt_items(x)[a].0.key()
            != #[trigger] (p + q)[b].0.key() by {
            if opt_items(x)[a].0.key() == (p + q)[b].0.key() {
                assert(has_key(p + q, value.key()));
                match s[index] {
                    None => {
                        assert(!has_key(slots_items(s, 0), value.key()));
                        crate::model::lemma_has_key_concat(p + q, opt_items(s[index]), value.key());
                        crate::model::lemma_contains_concat(p + q, opt_items(s[index]), (p + q)[b]);
                        assert(crate::model::contains_item(p + q, (p + q)[b]));
                        lemma_members_replace(s, index, x, (p + q)[b]);
                        assert(crate::model::contains_item(slots_items(s, 0), (p + q)[b]));
                        let i = choose|i: int| 0 <= i < slots_items(s, 0).len() && slots_items(s, 0)[i] == (p + q)[b];
                        assert(slots_items(s, 0)[i].0.key() == value.key());
                    },
                    Some(e) => {
                        let v = e->Value_0;
                        lemma_value_items(v, hash);
                        assert(opt_items(s[index])[0].0.key() == value.key());
                        assert(opt_items(s[index])[0].0.key() != (p + q)[b].0.key());
                    },
                }
            }
        }
        lemma_map_replace(s, index, x);
        crate::model::lemma_map_single(value, hash);
        assert(items_map(slots_items(t, 0)) =~= self@.insert(value.key(), (value, hash))) by {
            if s[index] is Some {
                let e = s[index]->0;
                lemma_value_items(e->Value_0, e->Value_1);
                crate::model::lemma_map_single(e->Value_0, e->Value_1);
            } else {
                crate::model::lemma_map_empty::<A>();
            }
        }
        assert forall|y: (A, HashBits)| crate::model::contains_item(slots_items(t, 0), y) implies crate::model::contains_item(slots_items(s, 0), y) || y == (value, hash) by {
            lemma_members_replace(s, index, x, y);
            if crate::model::contains_item(opt_items(x), y) {
                let i = choose|i: int| 0 <= i < opt_items(x).len() && opt_items(x)[i] == y;
            }
            if crate::model::contains_item(opt_items(s[index]), y) {
                let i = choose|i: int| 0 <= i < opt_items(s[index]).len() && opt_items(s[index])[i] == y;
                crate::node::lemma_slot_item_in(s, index, i);
            }
        }
        crate::model::lemma_agree_members(slots_items(t, 0), slots_items(s, 0), hash, shift);
    }
}

} // verus!
