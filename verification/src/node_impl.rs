//! Lookup, insertion and removal in a node of the trie.

use vstd::prelude::*;
use std::sync::Arc;
use crate::bits::{agree_below, cyc_dist, mask, slot_of, small_slot_of, valid_shift, HashBits, HASH_SHIFT, HASH_WIDTH, SMALL_NODE_WIDTH};
use crate::chunk::{empty_slots, Chunk};
use crate::model::{agree_with, contains_item, has_key, hashes_agree, items_map, keys_unique};
use crate::node::{
    CollisionNode,
    branch_slot_ok, child_wf, entry_items, is_value, lemma_agree_two, lemma_empty_slots_items, lemma_put_value,
    node_items, node_wf, opt_items, probing_ok, slots_items, slots_prefix, small_items, small_wf, value_hash, Entry, Node, SmallNode,
};
use crate::shared::make_mut;
use crate::small::hash_fits;
use crate::value::{hash_may_eq, key_matches, keys_compare_by_equality, HashValue};

verus! {

impl<A> Node<A> {
    /// An empty node, with linear probing.
    pub fn new() -> (r: Self)
        ensures
            r.linear_probing,
            r.data.wf(),
            r.data.slots@ == empty_slots::<Entry<A>>(HASH_WIDTH as nat),
            r.data.count() == 0,
    {
        Node { linear_probing: true, data: Chunk::new() }
    }

    /// The number of occupied slots.
    pub fn len(&self) -> (r: usize)
        requires
            self.data.wf(),
        ensures
            r == self.data.count(),
    {
        self.data.len()
    }

    /// A node with linear probing that holds `value1` at `index1` and
    /// `value2` at `index2`, or just after `index1` when the two are equal.
    pub fn pair(index1: usize, value1: Entry<A>, index2: usize, value2: Entry<A>) -> (r: Arc<Self>)
        requires
            index1 < HASH_WIDTH,
            index2 < HASH_WIDTH,
        ensures
            r.linear_probing,
            r.data.wf(),
            r.data.slots@ == empty_slots::<Entry<A>>(HASH_WIDTH as nat).update(index1 as int, Some(value1)).update(
                (if index1 == index2 {
                    (index1 + 1) % 32
                } else {
                    index2 as int
                }),
                Some(value2),
            ),
    {
        let mut index2 = index2;
        if index1 == index2 {
            index2 = (index1 + 1) % HASH_WIDTH;
        }
        let mut node = Node::new();
        node.data.insert(index1, value1);
        node.data.insert(index2, value2);
        Arc::new(node)
    }

    /// Takes out the entry in the lowest occupied slot.
    pub fn pop(&mut self) -> (r: Entry<A>)
        requires
            old(self).data.wf(),
            old(self).data.count() > 0,
        ensures
            final(self).data.wf(),
            final(self).linear_probing == old(self).linear_probing,
            exists|i: int|
                0 <= i < HASH_WIDTH && old(self).data.slots@[i] == Some(r) && (forall|j: int|
                    0 <= j < i ==> old(self).data.slots@[j] is None) && final(self).data.slots@
                    == old(self).data.slots@.update(i, None),
            final(self).data.count() == old(self).data.count() - 1,
    {
        proof {
            crate::chunk::lemma_count_zero(self.data.slots@);
        }
        match self.data.pop() {
            Some(e) => e,
            None => {
                assert(false);
                vstd::pervasive::unreached()
            },
        }
    }
}

impl<A> Default for Node<A> {
    /// An empty node, with linear probing.
    fn default() -> (r: Self)
        ensures
            r.linear_probing,
            r.data.wf(),
            r.data.slots@ == empty_slots::<Entry<A>>(HASH_WIDTH as nat),
    {
        Self::new()
    }
}

impl<A> Node<A> {
    /// The entries of the occupied slots, in the order of the slots, for
    /// looking at how the node is laid out.
    pub fn analyze_structure(&self) -> (r: Vec<&Entry<A>>)
        ensures
            r@.len() == crate::chunk::count_some(self.data.slots@),
            r@.map_values(|e: &Entry<A>| *e) == occupied(self.data.slots@, 0),
            forall|i: int|
                0 <= i < self.data.slots@.len() && #[trigger] self.data.slots@[i] is Some ==> *r@[crate::chunk::count_some(
                    self.data.slots@.subrange(0, i),
                ) as int] == self.data.slots@[i]->0,
    {
        let mut r: Vec<&Entry<A>> = Vec::new();
        let mut i: usize = 0;
        let n = self.data.slots.len();
        proof {
            lemma_occupied_count(self.data.slots@, 0);
        }
        while i < n
            invariant
                i <= n,
                n == self.data.slots@.len(),
                occupied(self.data.slots@, 0) == r@.map_values(|e: &Entry<A>| *e) + occupied(self.data.slots@, i as nat),
            decreases n - i,
        {
            match &self.data.slots[i] {
                Some(e) => {
                    r.push(e);
                    proof {
                        assert(occupied(self.data.slots@, i as nat) == seq![*e] + occupied(self.data.slots@, (i + 1) as nat));
                        assert(r@.map_values(|e: &Entry<A>| *e) + occupied(self.data.slots@, (i + 1) as nat) =~= occupied(self.data.slots@, 0));
                    }
                },
                None => {},
            }
            i = i + 1;
        }
        proof {
            assert(r@.map_values(|e: &Entry<A>| *e) =~= occupied(self.data.slots@, 0));
            assert(self.data.slots@.subrange(0, n as int) =~= self.data.slots@);
            crate::laws::law_occupied_slots_in_order(self.data.slots@);
            let s = self.data.slots@;
            assert forall|i: int| 0 <= i < s.len() && #[trigger] s[i] is Some implies *r@[crate::chunk::count_some(
                s.subrange(0, i),
            ) as int] == s[i]->0 by {
                let idx = crate::chunk::count_some(s.subrange(0, i)) as int;
                assert(r@.map_values(|e: &Entry<A>| *e)[idx] == *r@[idx]);
            }
        }
        r
    }
}

/// The values of the occupied slots of `s` from `j` on, in order.
pub open spec fn occupied<T>(s: Seq<Option<T>>, j: nat) -> Seq<T>
    decreases s.len() - j,
{
    if j >= s.len() {
        Seq::empty()
    } else {
        match s[j as int] {
            None => occupied(s, j + 1),
            Some(e) => seq![e] + occupied(s, j + 1),
        }
    }
}

/// There are as many occupied slots from `j` on as the count of the slots
/// from `j` on.
pub proof fn lemma_occupied_count<T>(s: Seq<Option<T>>, j: nat)
    requires
        j <= s.len(),
    ensures
        occupied(s, j).len() == crate::chunk::count_some(s.subrange(j as int, s.len() as int)),
    decreases s.len() - j,
{
    let t = s.subrange(j as int, s.len() as int);
    if j < s.len() {
        lemma_occupied_count(s, j + 1);
        let u = s.subrange(j + 1 as int, s.len() as int);
        lemma_count_cons(t);
        assert(t.drop_first() =~= u);
    } else {
        assert(t =~= Seq::empty());
    }
}

/// An occupied slot `i` at or after `j` is listed at the place given by the
/// number of occupied slots from `j` up to it.
pub proof fn lemma_occupied_at<T>(s: Seq<Option<T>>, j: nat, i: int)
    requires
        j <= i < s.len(),
        s[i] is Some,
    ensures
        crate::chunk::count_some(s.subrange(j as int, i)) < occupied(s, j).len(),
        occupied(s, j)[crate::chunk::count_some(s.subrange(j as int, i)) as int] == s[i]->0,
    decreases i - j,
{
    let t = s.subrange(j as int, i);
    if j == i {
        assert(t =~= Seq::<Option<T>>::empty());
    } else {
        lemma_occupied_at(s, j + 1, i);
        lemma_count_cons(t);
        assert(t.drop_first() =~= s.subrange(j + 1 as int, i));
        assert(t[0] == s[j as int]);
    }
}

/// The count of a sequence is that of its first slot and of the rest.
pub proof fn lemma_count_cons<T>(t: Seq<Option<T>>)
    requires
        t.len() > 0,
    ensures
        crate::chunk::count_some(t) == crate::chunk::count_some(t.drop_first()) + if t[0] is Some {
            1nat
        } else {
            0nat
        },
    decreases t.len(),
{
    if t.len() > 1 {
        lemma_count_cons(t.drop_last());
        assert(t.drop_last().drop_first() =~= t.drop_first().drop_last());
    } else {
        assert(t.drop_first() =~= Seq::empty());
        assert(t.drop_last() =~= Seq::empty());
    }
}

impl<A: HashValue> Node<A> {
    /// A child at level `shift` for two values with different keys whose
    /// hashes agree below `shift`: a small node when their small slots
    /// differ, else a node with linear probing.
    pub fn merge_values(value1: A, hash1: HashBits, value2: A, hash2: HashBits, shift: usize) -> (r: Entry<A>)
        requires
            valid_shift(shift as nat),
            value1.key() != value2.key(),
            agree_below(hash1, hash2, shift as nat),
        ensures
            r is SmallNode <==> small_slot_of(hash1, shift as nat) != small_slot_of(hash2, shift as nat),
            r is Node <==> small_slot_of(hash1, shift as nat) == small_slot_of(hash2, shift as nat),
            r is SmallNode ==> crate::node::small_of(r).data.slots@ == empty_slots::<Entry<A>>(SMALL_NODE_WIDTH as nat).update(
                small_slot_of(hash1, shift as nat),
                Some(Entry::Value(value1, hash1)),
            ).update(small_slot_of(hash2, shift as nat), Some(Entry::Value(value2, hash2))),
            r is Node ==> crate::node::node_of(r).linear_probing && crate::node::node_of(r).data.slots@
                == empty_slots::<Entry<A>>(HASH_WIDTH as nat).update(slot_of(hash1, shift as nat), Some(Entry::Value(value1, hash1))).update(
                (if slot_of(hash1, shift as nat) == slot_of(hash2, shift as nat) {
                    (slot_of(hash1, shift as nat) + 1) % 32
                } else {
                    slot_of(hash2, shift as nat)
                }),
                Some(Entry::Value(value2, hash2)),
            ),
            r is SmallNode ==> crate::node::small_of(r).data.len == 2,
            r is Node ==> crate::node::node_of(r).data.len == 2,
            child_wf(r, shift as nat),
            keys_unique(entry_items(r)),
            entry_items(r).len() == 2,
            items_map(entry_items(r)) == map![value1.key() => (value1, hash1), value2.key() => (value2, hash2)],
            forall|y: (A, HashBits)| contains_item(entry_items(r), y) <==> (y == (value1, hash1) || y == (value2, hash2)),
    {
        let ghost x1 = (value1, hash1);
        let ghost x2 = (value2, hash2);
        let ghost k1 = value1.key();
        let ghost k2 = value2.key();
        let small_index1 = SmallNode::<A>::mask(hash1, shift) as usize;
        let small_index2 = SmallNode::<A>::mask(hash2, shift) as usize;
        if small_index1 != small_index2 {
            let mut node = SmallNode::new();
            let ghost s0 = node.data.slots@;
            proof {
                crate::chunk::lemma_count_empty::<Entry<A>>(SMALL_NODE_WIDTH as nat);
                lemma_empty_slots_items::<A>(SMALL_NODE_WIDTH as nat);
                assert(!has_key(crate::node::slots_items(s0, 0), k1));
                lemma_put_value(s0, small_index1 as int, value1, hash1);
            }
            node.data.insert(small_index1, Entry::Value(value1, hash1));
            let ghost s1 = node.data.slots@;
            proof {
                crate::model::lemma_map_empty::<A>();
                crate::model::lemma_map_dom(crate::node::slots_items(s1, 0), k2);
                lemma_put_value(s1, small_index2 as int, value2, hash2);
            }
            node.data.insert(small_index2, Entry::Value(value2, hash2));
            proof {
                let s2 = node.data.slots@;
                assert forall|y: (A, HashBits)| contains_item(crate::node::slots_items(s2, 0), y) implies y == x1 || y == x2 by {
                    if contains_item(crate::node::slots_items(s0, 0), y) {
                        let i = choose|i: int| 0 <= i < crate::node::slots_items(s0, 0).len() && crate::node::slots_items(s0, 0)[i] == y;
                    }
                }
                assert(contains_item(crate::node::slots_items(s1, 0), x1));
                assert(contains_item(crate::node::slots_items(s2, 0), x1));
                lemma_agree_two(crate::node::slots_items(s2, 0), x1, x2, shift as nat);
                assert(items_map(crate::node::slots_items(s2, 0)) =~= map![k1 => x1, k2 => x2]);
                crate::model::lemma_map_len(crate::node::slots_items(s2, 0));
                assert(map![k1 => x1, k2 => x2].dom() =~= set![k1].insert(k2));
            }
            Entry::SmallNode(Arc::new(node))
        } else {
            let index1 = mask(hash1, shift) as usize;
            let index2 = mask(hash2, shift) as usize;
            let node = Node::pair(index1, Entry::Value(value1, hash1), index2, Entry::Value(value2, hash2));
            proof {
                let s0 = empty_slots::<Entry<A>>(HASH_WIDTH as nat);
                let i2 = if index1 == index2 { (index1 + 1) % 32 } else { index2 as int };
                let s1 = s0.update(index1 as int, Some(Entry::Value(value1, hash1)));
                lemma_empty_slots_items::<A>(HASH_WIDTH as nat);
                lemma_put_value(s0, index1 as int, value1, hash1);
                crate::model::lemma_map_empty::<A>();
                crate::model::lemma_map_dom(crate::node::slots_items(s1, 0), k2);
                lemma_put_value(s1, i2, value2, hash2);
                let s2 = node.data.slots@;
                assert forall|y: (A, HashBits)| contains_item(crate::node::slots_items(s2, 0), y) implies y == x1 || y == x2 by {
                    if contains_item(crate::node::slots_items(s0, 0), y) {
                        let i = choose|i: int| 0 <= i < crate::node::slots_items(s0, 0).len() && crate::node::slots_items(s0, 0)[i] == y;
                    }
                }
                assert(contains_item(crate::node::slots_items(s1, 0), x1));
                assert(contains_item(crate::node::slots_items(s2, 0), x1));
                lemma_agree_two(crate::node::slots_items(s2, 0), x1, x2, shift as nat);
                assert(items_map(crate::node::slots_items(s2, 0)) =~= map![k1 => x1, k2 => x2]);
                crate::model::lemma_map_len(crate::node::slots_items(s2, 0));
                assert(map![k1 => x1, k2 => x2].dom() =~= set![k1].insert(k2));
                crate::chunk::lemma_count_empty::<Entry<A>>(HASH_WIDTH as nat);
                crate::chunk::lemma_count_update(s0, index1 as int, Some(Entry::Value(value1, hash1)));
                crate::chunk::lemma_count_update(s1, i2, Some(Entry::Value(value2, hash2)));
                assert(probing_ok(s2, shift as nat));
            }
            Entry::Node(node)
        }
    }

    /// The value with key `key`, given the key's hash.
    pub fn get(&self, hash: HashBits, shift: usize, key: &A::Key) -> (r: Option<&A>)
        requires
            node_wf(*self, shift as nat),
            keys_compare_by_equality::<A>(),
            hash_fits(self@, *key, hash),
        ensures
            match r {
                Some(v) => self@.contains_key(*key) && *v == self@[*key].0,
                None => !self@.contains_key(*key),
            },
        decreases 32 - shift,
    {
        let ideal = mask(hash, shift) as usize;
        let mut index = ideal;
        let ghost s = self.data.slots@;
        let ghost g: int = if self.linear_probing {
            crate::chunk::lemma_count_bound(s);
            crate::chunk::lemma_count_has_none(s)
        } else {
            0
        };
        loop
            invariant
                node_wf(*self, shift as nat),
                keys_compare_by_equality::<A>(),
                hash_fits(self@, *key, hash),
                s == self.data.slots@,
                ideal == slot_of(hash, shift as nat),
                ideal < HASH_WIDTH,
                index < HASH_WIDTH,
                !self.linear_probing ==> index == ideal,
                self.linear_probing ==> 0 <= g < HASH_WIDTH && s[g] is None && cyc_dist(ideal as int, index as int)
                    <= cyc_dist(ideal as int, g),
                self.linear_probing ==> forall|q: int|
                    0 <= q < HASH_WIDTH && cyc_dist(ideal as int, q) < cyc_dist(ideal as int, index as int)
                        ==> #[trigger] s[q] is Some && s[q]->0->Value_0.key() != *key,
            decreases (if self.linear_probing {
                cyc_dist(ideal as int, g) - cyc_dist(ideal as int, index as int)
            } else {
                0
            }),
        {
            match self.data.get(index) {
                None => {
                    proof {
                        if self.linear_probing {
                            crate::node::lemma_probe_absent(*self, shift as nat, hash, *key, index as int);
                        } else {
                            crate::node::lemma_branch_key(*self, shift as nat, hash, *key);
                        }
                    }
                    return None;
                },
                Some(Entry::Value(value, value_hash)) => {
                    if hash_may_eq::<A>(hash, *value_hash) && key_matches(key, value) {
                        proof {
                            crate::node::lemma_slot_value(s, index as int);
                        }
                        return Some(value);
                    } else if !self.linear_probing {
                        proof {
                            crate::node::lemma_branch_key(*self, shift as nat, hash, *key);
                            crate::node::lemma_value_items(*value, *value_hash);
                        }
                        return None;
                    }
                    proof {
                        crate::node::lemma_slot_value(s, index as int);
                        crate::node::lemma_probe_step(s, ideal as int, index as int, g, *key);
                    }
                    index = (index + 1) % HASH_WIDTH;
                },
                Some(Entry::Collision(coll)) => {
                    proof {
                        crate::node::lemma_branch_key(*self, shift as nat, hash, *key);
                        assert(branch_slot_ok(s[index as int]->0, shift as nat, index as int));
                        crate::node::lemma_coll_lookup(crate::node::coll_of(s[index as int]->0), *key);
                    }
                    return coll.get(key);
                },
                Some(Entry::Node(child)) => {
                    proof {
                        crate::node::lemma_branch_key(*self, shift as nat, hash, *key);
                        assert(branch_slot_ok(s[index as int]->0, shift as nat, index as int));
                    }
                    return child.get(hash, shift + HASH_SHIFT, key);
                },
                Some(Entry::SmallNode(small)) => {
                    proof {
                        crate::node::lemma_branch_key(*self, shift as nat, hash, *key);
                        assert(branch_slot_ok(s[index as int]->0, shift as nat, index as int));
                    }
                    return small.get(hash, shift + HASH_SHIFT, key);
                },
            }
        }
    }
}

impl<A: HashValue + Clone> Node<A> {
    /// A mutable reference to the value with key `key`, given the key's hash.
    /// Children on the way are made unique first. While the key of the value
    /// stays the same, the node stays well formed and maps the key to what
    /// the reference leaves.
    pub fn get_mut(&mut self, hash: HashBits, shift: usize, key: &A::Key) -> (r: Option<&mut A>)
        requires
            node_wf(*old(self), shift as nat),
            keys_compare_by_equality::<A>(),
            hash_fits(old(self)@, *key, hash),
        ensures
            final(self).linear_probing == old(self).linear_probing,
            final(self).data.len == old(self).data.len,
            match r {
                Some(v) => {
                    &&& old(self)@.contains_key(*key)
                    &&& *v == old(self)@[*key].0
                    &&& final(v).key() == *key ==> node_wf(*final(self), shift as nat)
                        && final(self)@ == old(self)@.insert(*key, (*final(v), hash))
                },
                None => {
                    &&& !old(self)@.contains_key(*key)
                    &&& node_wf(*final(self), shift as nat)
                    &&& node_items(*final(self)) == node_items(*old(self))
                },
            },
        decreases 32 - shift, 1int,
    {
        let ghost n0 = *self;
        let ghost s = self.data.slots@;
        let ghost k = *key;
        let ideal = mask(hash, shift) as usize;
        let mut index = ideal;
        let ghost g: int = if self.linear_probing {
            crate::chunk::lemma_count_bound(s);
            crate::chunk::lemma_count_has_none(s)
        } else {
            0
        };
        loop
            invariant
                *self == n0,
                node_wf(n0, shift as nat),
                keys_compare_by_equality::<A>(),
                hash_fits(n0@, k, hash),
                k == *key,
                s == n0.data.slots@,
                ideal == slot_of(hash, shift as nat),
                ideal < HASH_WIDTH,
                index < HASH_WIDTH,
                !n0.linear_probing ==> index == ideal,
                n0.linear_probing ==> 0 <= g < HASH_WIDTH && s[g] is None && cyc_dist(ideal as int, index as int)
                    <= cyc_dist(ideal as int, g),
                n0.linear_probing ==> forall|q: int|
                    0 <= q < HASH_WIDTH && cyc_dist(ideal as int, q) < cyc_dist(ideal as int, index as int)
                        ==> #[trigger] s[q] is Some && s[q]->0->Value_0.key() != k,
            ensures
                *self == n0,
                index < HASH_WIDTH,
                !n0.linear_probing ==> index == ideal,
                n0.linear_probing ==> s[index as int] is None || s[index as int]->0->Value_0.key() == k,
                n0.linear_probing && s[index as int] is None ==> !n0@.contains_key(k),
            decreases (if n0.linear_probing {
                cyc_dist(ideal as int, g) - cyc_dist(ideal as int, index as int)
            } else {
                0
            }),
        {
            let stop = match self.data.get(index) {
                None => true,
                Some(Entry::Value(value, _)) => !self.linear_probing || key_matches(key, value),
                Some(_) => true,
            };
            if stop {
                proof {
                    if n0.linear_probing && s[index as int] is None {
                        crate::node::lemma_probe_absent(n0, shift as nat, hash, k, index as int);
                    }
                    if n0.linear_probing && s[index as int] is Some {
                        crate::node::lemma_slot_value(s, index as int);
                    }
                }
                break;
            }
            proof {
                crate::node::lemma_slot_value(s, index as int);
                crate::node::lemma_probe_step(s, ideal as int, index as int, g, k);
            }
            index = (index + 1) % HASH_WIDTH;
        }
        proof {
            if !n0.linear_probing {
                crate::node::lemma_branch_key(n0, shift as nat, hash, k);
                crate::node::lemma_branch_items(n0, shift as nat, index as int);
            }
            if s[index as int] is Some {
                assert(n0.linear_probing ==> is_value(s[index as int]->0));
                assert(!n0.linear_probing ==> branch_slot_ok(s[index as int]->0, shift as nat, index as int));
            }
        }
        match self.data.get(index) {
            Some(Entry::Value(value, value_hash)) => {
                let matches = hash_may_eq::<A>(hash, *value_hash) && key_matches(key, value);
                proof {
                    crate::node::lemma_slot_value(s, index as int);
                }
                if matches {
                    Some(self.value_mut(index, hash, shift))
                } else {
                    None
                }
            },
            Some(Entry::Node(_)) => self.node_child_mut(index, hash, shift, key),
            Some(Entry::SmallNode(_)) => self.small_child_mut(index, hash, shift, key),
            Some(Entry::Collision(_)) => self.coll_child_mut(index, hash, shift, key),
            None => None,
        }
    }

    /// A mutable reference to the value in slot `index`, which is stored with
    /// hash `hash`. While its key stays the same, the node stays well formed
    /// and maps the key to what the reference leaves.
    fn value_mut(&mut self, index: usize, hash: HashBits, shift: usize) -> (r: &mut A)
        requires
            node_wf(*old(self), shift as nat),
            index < HASH_WIDTH,
            old(self).data.slots@[index as int] is Some,
            old(self).data.slots@[index as int]->0 is Value,
            old(self).data.slots@[index as int]->0->Value_1 == hash,
        ensures
            final(self).linear_probing == old(self).linear_probing,
            final(self).data.len == old(self).data.len,
            *r == old(self).data.slots@[index as int]->0->Value_0,
            final(r).key() == r.key() ==> node_wf(*final(self), shift as nat)
                && final(self)@ == old(self)@.insert(r.key(), (*final(r), hash)),
    {
        let ghost n0 = *self;
        let ghost s = self.data.slots@;
        let ghost k = s[index as int]->0->Value_0.key();
        proof {
            assert forall|n2: Node<A>| #![trigger node_wf(n2, shift as nat)]
                crate::node_proofs::slot_changed(n0, n2, index as int)
                    && n2.data.slots@[index as int]->0 is Value
                    && n2.data.slots@[index as int]->0->Value_1 == hash
                    && n2.data.slots@[index as int]->0->Value_0.key() == k
                implies node_wf(n2, shift as nat)
                    && n2@ == n0@.insert(k, (n2.data.slots@[index as int]->0->Value_0, hash)) by {
                let w = n2.data.slots@[index as int]->0->Value_0;
                assert(n2.data.slots@ =~= s.update(index as int, Some(Entry::Value(w, hash))));
                crate::chunk::lemma_count_update(s, index as int, Some(Entry::Value(w, hash)));
                crate::node_proofs::lemma_value_replace(n0, n2, shift as nat, index as int, w);
            }
        }
        match self.data.get_mut(index) {
            Some(Entry::Value(value, _)) => value,
            _ => {
                assert(false);
                vstd::pervasive::unreached()
            },
        }
    }

    /// In a branching node, a mutable reference to the value with key `key`
    /// under the node in slot `index`, which is made unique first.
    fn node_child_mut(&mut self, index: usize, hash: HashBits, shift: usize, key: &A::Key) -> (r: Option<&mut A>)
        requires
            node_wf(*old(self), shift as nat),
            !old(self).linear_probing,
            index == slot_of(hash, shift as nat),
            index < HASH_WIDTH,
            old(self).data.slots@[index as int] is Some,
            old(self).data.slots@[index as int]->0 is Node,
            keys_compare_by_equality::<A>(),
            hash_fits(old(self)@, *key, hash),
        ensures
            final(self).linear_probing == old(self).linear_probing,
            final(self).data.len == old(self).data.len,
            r matches Some(v) ==> old(self)@.contains_key(*key) && *v == old(self)@[*key].0,
            r matches Some(v) ==> (final(v).key() == *key ==> node_wf(*final(self), shift as nat)),
            r matches Some(v) ==> (final(v).key() == *key ==> final(self)@ == old(self)@.insert(*key, (*final(v), hash))),
            r is None ==> !old(self)@.contains_key(*key),
            r is None ==> node_wf(*final(self), shift as nat),
            r is None ==> node_items(*final(self)) == node_items(*old(self)),
        decreases 32 - shift, 0int,
    {
        let ghost n0 = *self;
        let ghost s = self.data.slots@;
        let ghost k = *key;
        proof {
            crate::node::lemma_branch_key(n0, shift as nat, hash, k);
            crate::node::lemma_branch_items(n0, shift as nat, index as int);
            assert(branch_slot_ok(s[index as int]->0, shift as nat, index as int));
        }
        match self.data.get_mut(index) {
            Some(Entry::Node(child_ref)) => {
                let ghost c0 = crate::node::node_of(s[index as int]->0);
                let child = make_mut(child_ref);
                proof {
                    crate::node_proofs::lemma_same_node(c0, *child, (shift + HASH_SHIFT) as nat);
                    if child@.contains_key(k) {
                        crate::node_proofs::lemma_slot_submap(n0, shift as nat, index as int, k);
                    }
                    crate::node_proofs::lemma_node_child_change(n0, shift as nat, (shift + HASH_SHIFT) as nat, index as int, k, hash);
                }
                child.get_mut(hash, shift + HASH_SHIFT, key)
            },
            _ => {
                assert(false);
                None
            },
        }
    }

    /// In a branching node, a mutable reference to the value with key `key`
    /// under the small node in slot `index`, which is made unique first.
    fn small_child_mut(&mut self, index: usize, hash: HashBits, shift: usize, key: &A::Key) -> (r: Option<&mut A>)
        requires
            node_wf(*old(self), shift as nat),
            !old(self).linear_probing,
            index == slot_of(hash, shift as nat),
            index < HASH_WIDTH,
            old(self).data.slots@[index as int] is Some,
            old(self).data.slots@[index as int]->0 is SmallNode,
            keys_compare_by_equality::<A>(),
            hash_fits(old(self)@, *key, hash),
        ensures
            final(self).linear_probing == old(self).linear_probing,
            final(self).data.len == old(self).data.len,
            r matches Some(v) ==> old(self)@.contains_key(*key) && *v == old(self)@[*key].0,
            r matches Some(v) ==> (final(v).key() == *key ==> node_wf(*final(self), shift as nat)),
            r matches Some(v) ==> (final(v).key() == *key ==> final(self)@ == old(self)@.insert(*key, (*final(v), hash))),
            r is None ==> !old(self)@.contains_key(*key),
            r is None ==> node_wf(*final(self), shift as nat),
            r is None ==> node_items(*final(self)) == node_items(*old(self)),
        decreases 32 - shift, 0int,
    {
        let ghost n0 = *self;
        let ghost s = self.data.slots@;
        let ghost k = *key;
        proof {
            crate::node::lemma_branch_key(n0, shift as nat, hash, k);
            crate::node::lemma_branch_items(n0, shift as nat, index as int);
            assert(branch_slot_ok(s[index as int]->0, shift as nat, index as int));
        }
        match self.data.get_mut(index) {
            Some(Entry::SmallNode(small_ref)) => {
                let small = make_mut(small_ref);
                proof {
                    if small@.contains_key(k) {
                        crate::node_proofs::lemma_slot_submap(n0, shift as nat, index as int, k);
                    }
                    crate::node_proofs::lemma_small_child_change(n0, shift as nat, (shift + HASH_SHIFT) as nat, index as int, k, hash);
                }
                small.get_mut(hash, shift + HASH_SHIFT, key)
            },
            _ => {
                assert(false);
                None
            },
        }
    }

    /// In a branching node, a mutable reference to the value with key `key`
    /// in the collision node in slot `index`, which is made unique first.
    fn coll_child_mut(&mut self, index: usize, hash: HashBits, shift: usize, key: &A::Key) -> (r: Option<&mut A>)
        requires
            node_wf(*old(self), shift as nat),
            !old(self).linear_probing,
            index == slot_of(hash, shift as nat),
            index < HASH_WIDTH,
            old(self).data.slots@[index as int] is Some,
            old(self).data.slots@[index as int]->0 is Collision,
            keys_compare_by_equality::<A>(),
            hash_fits(old(self)@, *key, hash),
        ensures
            final(self).linear_probing == old(self).linear_probing,
            final(self).data.len == old(self).data.len,
            r matches Some(v) ==> old(self)@.contains_key(*key) && *v == old(self)@[*key].0,
            r matches Some(v) ==> (final(v).key() == *key ==> node_wf(*final(self), shift as nat)),
            r matches Some(v) ==> (final(v).key() == *key ==> final(self)@ == old(self)@.insert(*key, (*final(v), hash))),
            r is None ==> !old(self)@.contains_key(*key),
            r is None ==> node_wf(*final(self), shift as nat),
            r is None ==> node_items(*final(self)) == node_items(*old(self)),
        decreases 32 - shift, 0int,
    {
        let ghost n0 = *self;
        let ghost s = self.data.slots@;
        let ghost k = *key;
        proof {
            crate::node::lemma_branch_key(n0, shift as nat, hash, k);
            crate::node::lemma_branch_items(n0, shift as nat, index as int);
            assert(branch_slot_ok(s[index as int]->0, shift as nat, index as int));
        }
        match self.data.get_mut(index) {
            Some(Entry::Collision(coll_ref)) => {
                let ghost c0 = crate::node::coll_of(s[index as int]->0);
                proof {
                    crate::node::lemma_coll_lookup(c0, k);
                    if has_key(crate::node::coll_items(c0), k) {
                        crate::node_proofs::lemma_slot_submap(n0, shift as nat, index as int, k);
                    }
                    crate::node_proofs::lemma_coll_child_change(n0, shift as nat, index as int, k, hash);
                }
                let coll = make_mut(coll_ref);
                coll.get_mut(key)
            },
            _ => {
                assert(false);
                None
            },
        }
    }

    /// Inserts every value held by `from` into this node, which holds
    /// nothing.
    fn insert_all<const N: usize>(&mut self, shift: usize, from: Chunk<Entry<A>, N>)
        requires
            node_wf(*old(self), shift as nat),
            node_items(*old(self)) == Seq::<(A, HashBits)>::empty(),
            keys_compare_by_equality::<A>(),
            from.wf(),
            forall|m: int| 0 <= m < N && #[trigger] from.slots@[m] is Some ==> is_value(from.slots@[m]->0),
            keys_unique(slots_items(from.slots@, 0)),
            hashes_agree(slots_items(from.slots@, 0), shift as nat),
        ensures
            node_wf(*final(self), shift as nat),
            final(self)@ == items_map(slots_items(from.slots@, 0)),
            forall|y: (A, HashBits)| #[trigger] contains_item(node_items(*final(self)), y) ==> contains_item(slots_items(from.slots@, 0), y),
            final(self).linear_probing ==> old(self).linear_probing,
        decreases 32 - shift, (if self.linear_probing { 5int } else { 3int }),
    {
        let ghost s0 = from.slots@;
        let ghost lp0 = self.linear_probing;
        let mut from = from;
        let mut j: usize = 0;
        proof {
            crate::model::lemma_map_empty::<A>();
            assert(self@ =~= items_map(slots_prefix(s0, 0)));
        }
        while j < N
            invariant
                j <= N,
                from.wf(),
                s0.len() == N,
                forall|m: int| j <= m < N ==> from.slots@[m] == s0[m],
                node_wf(*self, shift as nat),
                self@ == items_map(slots_prefix(s0, j as nat)),
                forall|y: (A, HashBits)| #[trigger] contains_item(node_items(*self), y) ==> contains_item(slots_items(s0, 0), y),
                keys_compare_by_equality::<A>(),
                forall|m: int| 0 <= m < N && #[trigger] s0[m] is Some ==> is_value(s0[m]->0),
                keys_unique(slots_items(s0, 0)),
                hashes_agree(slots_items(s0, 0), shift as nat),
                self.linear_probing ==> lp0,
                lp0 == old(self).linear_probing,
            decreases N - j,
        {
            proof {
                crate::node_proofs::lemma_prefix_step(s0, j as int);
            }
            match from.remove(j) {
                Some(Entry::Value(v, h)) => {
                    proof {
                        let k = v.key();
                        crate::node::lemma_value_items(v, h);
                        assert(has_key(opt_items(s0[j as int]), k)) by {
                            assert(opt_items(s0[j as int])[0].0.key() == k);
                        }
                        if has_key(slots_prefix(s0, j as nat), k) {
                            crate::model::lemma_disjoint_symmetric(slots_prefix(s0, j as nat), opt_items(s0[j as int]));
                            crate::model::lemma_disjoint_has_key(opt_items(s0[j as int]), slots_prefix(s0, j as nat), k);
                        }
                        crate::node::lemma_slot_item_in(s0, j as int, 0);
                        let i0 = choose|i0: int| 0 <= i0 < slots_items(s0, 0).len() && slots_items(s0, 0)[i0] == (v, h);
                        assert forall|i: int| 0 <= i < node_items(*self).len() implies agree_below(#[trigger] node_items(*self)[i].1, h, shift as nat) by {
                            assert(contains_item(node_items(*self), node_items(*self)[i]));
                            let i1 = choose|i1: int| 0 <= i1 < slots_items(s0, 0).len() && slots_items(s0, 0)[i1] == node_items(*self)[i];
                            assert(agree_below(slots_items(s0, 0)[i1].1, slots_items(s0, 0)[i0].1, shift as nat));
                        }
                    }
                    self.insert(h, shift, v);
                    proof {
                        crate::model::lemma_map_single(v, h);
                        assert(self@ =~= items_map(slots_prefix(s0, (j + 1) as nat)));
                        let i0 = choose|i0: int| 0 <= i0 < slots_items(s0, 0).len() && slots_items(s0, 0)[i0] == (v, h);
                        assert(contains_item(slots_items(s0, 0), (v, h)));
                    }
                },
                None => {
                    proof {
                        crate::model::lemma_map_empty::<A>();
                        assert(items_map(slots_prefix(s0, (j + 1) as nat)) =~= items_map(slots_prefix(s0, j as nat)));
                    }
                },
                _ => {
                    assert(false);
                },
            }
            j = j + 1;
        }
        proof {
            crate::node::lemma_slots_split(s0, N as nat);
            assert(slots_items(s0, N as nat) =~= Seq::<(A, HashBits)>::empty());
            assert(slots_prefix(s0, N as nat) =~= slots_items(s0, 0));
        }
    }

    /// Inserts `value`, given its hash, and gives back the value it replaced,
    /// if any.
    pub fn insert(&mut self, hash: HashBits, shift: usize, value: A) -> (r: Option<A>)
        requires
            node_wf(*old(self), shift as nat),
            keys_compare_by_equality::<A>(),
            hash_fits(old(self)@, value.key(), hash),
            agree_with(node_items(*old(self)), hash, shift as nat),
        ensures
            node_wf(*final(self), shift as nat),
            final(self)@ == old(self)@.insert(value.key(), (value, hash)),
            match r {
                Some(p) => old(self)@.contains_key(value.key()) && p == old(self)@[value.key()].0,
                None => !old(self)@.contains_key(value.key()),
            },
            forall|y: (A, HashBits)| #[trigger] contains_item(node_items(*final(self)), y) ==> contains_item(node_items(*old(self)), y) || y == (value, hash),
            final(self).linear_probing ==> old(self).linear_probing,
            old(self).linear_probing ==> (final(self).linear_probing <==> (old(self)@.contains_key(value.key())
                || old(self).data.len < HASH_WIDTH / 2)),
            final(self).linear_probing ==> final(self).data.len == old(self).data.len + (if old(self)@.contains_key(
                value.key(),
            ) {
                0int
            } else {
                1int
            }),
        decreases 32 - shift, (if self.linear_probing { 4int } else { 2int }),
    {
        let ghost n0 = *self;
        let ghost s = self.data.slots@;
        let ghost k = value.key();
        let ghost x = (value, hash);
        let ideal = mask(hash, shift) as usize;
        let mut index = ideal;
        let ghost g: int = if self.linear_probing {
            crate::chunk::lemma_count_bound(s);
            crate::chunk::lemma_count_has_none(s)
        } else {
            0
        };
        loop
            invariant
                *self == n0,
                n0 == *old(self),
                node_wf(n0, shift as nat),
                keys_compare_by_equality::<A>(),
                hash_fits(n0@, k, hash),
                agree_with(node_items(n0), hash, shift as nat),
                k == value.key(),
                x == (value, hash),
                s == n0.data.slots@,
                ideal == slot_of(hash, shift as nat),
                ideal < HASH_WIDTH,
                index < HASH_WIDTH,
                !n0.linear_probing ==> index == ideal,
                n0.linear_probing ==> 0 <= g < HASH_WIDTH && s[g] is None && cyc_dist(ideal as int, index as int)
                    <= cyc_dist(ideal as int, g),
                n0.linear_probing ==> forall|q: int|
                    0 <= q < HASH_WIDTH && cyc_dist(ideal as int, q) < cyc_dist(ideal as int, index as int)
                        ==> #[trigger] s[q] is Some && s[q]->0->Value_0.key() != k,
            ensures
                *self == n0,
                s[index as int] is None,
                index < HASH_WIDTH,
                !n0.linear_probing ==> index == ideal,
                n0.linear_probing ==> forall|q: int|
                    0 <= q < HASH_WIDTH && cyc_dist(ideal as int, q) < cyc_dist(ideal as int, index as int)
                        ==> #[trigger] s[q] is Some && s[q]->0->Value_0.key() != k,
            decreases (if n0.linear_probing {
                cyc_dist(ideal as int, g) - cyc_dist(ideal as int, index as int)
            } else {
                0
            }),
        {
            match self.data.get(index) {
                None => {
                    break;
                },
                Some(Entry::Value(current, current_hash)) => {
                    if hash_may_eq::<A>(hash, *current_hash) && key_matches(value.extract_key(), current) {
                        proof {
                            crate::node::lemma_slot_value(s, index as int);
                        }
                        return Some(self.replace_at(index, shift, value));
                    }
                    if self.linear_probing {
                        proof {
                            crate::node::lemma_slot_value(s, index as int);
                            crate::node::lemma_probe_step(s, ideal as int, index as int, g, k);
                        }
                        index = (index + 1) % HASH_WIDTH;
                        continue;
                    }
                    return self.split_value(index, hash, shift, value);
                },
                Some(_) => {
                    return self.insert_below(index, hash, shift, value);
                },
            }
        }
        if self.linear_probing && self.data.len() >= HASH_WIDTH / 2 {
            proof {
                crate::node::lemma_probe_absent(n0, shift as nat, hash, k, index as int);
            }
            self.linear_probing = false;
            let mut old_data = Chunk::new();
            std::mem::swap(&mut self.data, &mut old_data);
            proof {
                crate::node_proofs::lemma_empty_node(*self, shift as nat);
            }
            self.insert_all(shift, old_data);
            proof {
                crate::model::lemma_agree_subset(node_items(*self), node_items(n0), shift as nat);
                assert forall|i: int| 0 <= i < node_items(*self).len() implies agree_below(#[trigger] node_items(*self)[i].1, hash, shift as nat) by {
                    assert(contains_item(node_items(*self), node_items(*self)[i]));
                    let i1 = choose|i1: int| 0 <= i1 < node_items(n0).len() && node_items(n0)[i1] == node_items(*self)[i];
                }
            }
            let r = self.insert(hash, shift, value);
            proof {
                assert forall|y: (A, HashBits)| #[trigger] contains_item(node_items(*self), y) implies contains_item(node_items(n0), y) || y == (value, hash) by {
                }
            }
            return r;
        }
        proof {
            if n0.linear_probing {
                crate::node::lemma_probe_absent(n0, shift as nat, hash, k, index as int);
            } else {
                crate::node::lemma_branch_key(n0, shift as nat, hash, k);
            }
        }
        self.data.insert(index, Entry::Value(value, hash));
        proof {
            if n0.linear_probing {
                crate::node_proofs::lemma_probe_put(n0, *self, shift as nat, index as int, value, hash);
            } else {
                crate::node::lemma_value_items(value, hash);
                crate::model::lemma_map_single(value, hash);
                crate::model::lemma_map_empty::<A>();
                assert(items_map(entry_items(Entry::Value(value, hash))) =~= items_map(opt_items(s[index as int])).insert(k, x));
                assert forall|y: (A, HashBits)| #[trigger] contains_item(entry_items(Entry::Value(value, hash)), y) implies contains_item(opt_items(s[index as int]), y) || y == x by {
                    let i = choose|i: int| 0 <= i < entry_items(Entry::Value(value, hash)).len() && entry_items(Entry::Value(value, hash))[i] == y;
                }
                crate::node_proofs::lemma_branch_update(n0, *self, shift as nat, index as int, Entry::Value(value, hash), x);
            }
        }
        None
    }

    /// Puts `value` in place of the value in slot `index`, which has the same
    /// key, keeping the stored hash; gives back the value it replaced.
    fn replace_at(&mut self, index: usize, shift: usize, value: A) -> (r: A)
        requires
            node_wf(*old(self), shift as nat),
            index < HASH_WIDTH,
            old(self).data.slots@[index as int] matches Some(Entry::Value(cur, _)) && cur.key() == value.key(),
        ensures
            node_wf(*final(self), shift as nat),
            final(self).linear_probing == old(self).linear_probing,
            final(self).data.len == old(self).data.len,
            old(self)@.contains_key(value.key()),
            r == old(self)@[value.key()].0,
            final(self)@ == old(self)@.insert(value.key(), (value, old(self)@[value.key()].1)),
            forall|y: (A, HashBits)| #[trigger] contains_item(node_items(*final(self)), y) ==> contains_item(node_items(*old(self)), y) || y == (value, old(self)@[value.key()].1),
    {
        let ghost n0 = *self;
        let ghost s = self.data.slots@;
        proof {
            crate::node::lemma_slot_value(s, index as int);
        }
        let ch = match self.data.get(index) {
            Some(Entry::Value(_, h)) => *h,
            _ => {
                assert(false);
                0
            },
        };
        let prev = self.data.insert(index, Entry::Value(value, ch));
        proof {
            crate::node_proofs::lemma_value_replace(n0, *self, shift as nat, index as int, value);
        }
        match prev {
            Some(Entry::Value(p, _)) => p,
            _ => {
                assert(false);
                vstd::pervasive::unreached()
            },
        }
    }

    #[verifier::rlimit(40)]
    /// Takes out the value in slot `index`; with linear probing, then moves
    /// later values back so that each can still be found from its own slot.
    fn remove_value_at(&mut self, index: usize, shift: usize) -> (r: A)
        requires
            node_wf(*old(self), shift as nat),
            index < HASH_WIDTH,
            old(self).data.slots@[index as int] is Some,
            is_value(old(self).data.slots@[index as int]->0),
        ensures
            node_wf(*final(self), shift as nat),
            final(self).linear_probing == old(self).linear_probing,
            r == old(self).data.slots@[index as int]->0->Value_0,
            old(self)@.contains_key(r.key()),
            old(self)@[r.key()].0 == r,
            final(self)@ == old(self)@.remove(r.key()),
            forall|y: (A, HashBits)| #[trigger] contains_item(node_items(*final(self)), y) ==> contains_item(node_items(*old(self)), y),
    {
        let ghost n0 = *self;
        let ghost s = self.data.slots@;
        let ghost e = s[index as int]->0;
        let ghost k = e->Value_0.key();
        proof {
            crate::node::lemma_slot_value(s, index as int);
            crate::node::lemma_value_items(e->Value_0, e->Value_1);
            crate::model::lemma_map_single(e->Value_0, e->Value_1);
            crate::node::lemma_map_clear_slot(s, index as int);
            assert(items_map(opt_items(s[index as int])).dom() =~= set![k]);
            assert(n0@.remove_keys(set![k]) =~= n0@.remove(k));
            crate::model::lemma_agree_subset(slots_items(s.update(index as int, None), 0), node_items(n0), shift as nat);
            crate::chunk::lemma_count_update(s, index as int, None);
        }
        let removed = match self.data.remove(index) {
            Some(entry) => entry.unwrap_value(),
            None => {
                assert(false);
                vstd::pervasive::unreached()
            },
        };
        if self.linear_probing {
            let mut index = index;
            let mut next = (index + 1) % HASH_WIDTH;
            let ghost g = crate::chunk::lemma_count_has_none(s);
            proof {
                crate::chunk::lemma_count_bound(s);
                crate::node_proofs::lemma_shift_start(n0, shift as nat, index as int);
            }
            loop
                invariant
                    crate::node_proofs::shifting_ok(self.data.slots@, shift as nat, index as int, next as int),
                    self.data.wf(),
                    self.linear_probing,
                    valid_shift(shift as nat),
                    self.data.count() == n0.data.count() - 1,
                    n0.data.count() <= 16,
                    keys_unique(slots_items(self.data.slots@, 0)),
                    items_map(slots_items(self.data.slots@, 0)) == n0@.remove(k),
                    forall|y: (A, HashBits)| #[trigger] contains_item(slots_items(self.data.slots@, 0), y) ==> contains_item(node_items(n0), y),
                    hashes_agree(node_items(n0), shift as nat),
                    0 <= g < HASH_WIDTH,
                    g != index,
                    self.data.slots@[g] is None,
                ensures
                    self.data.wf(),
                    self.linear_probing,
                    self.data.count() == n0.data.count() - 1,
                    probing_ok(self.data.slots@, shift as nat),
                    keys_unique(slots_items(self.data.slots@, 0)),
                    items_map(slots_items(self.data.slots@, 0)) == n0@.remove(k),
                    forall|y: (A, HashBits)| #[trigger] contains_item(slots_items(self.data.slots@, 0), y) ==> contains_item(node_items(n0), y),
                    hashes_agree(slots_items(self.data.slots@, 0), shift as nat),
                decreases cyc_dist(next as int, g),
            {
                let ghost t = self.data.slots@;
                match self.data.get(next) {
                    Some(Entry::Value(_, value_hash)) => {
                        let ideal_index = mask(*value_hash, shift) as usize;
                        let next_dib = next.wrapping_sub(ideal_index) % HASH_WIDTH;
                        let index_dib = index.wrapping_sub(ideal_index) % HASH_WIDTH;
                        proof {
                            crate::node_proofs::lemma_wrap_dist(next, ideal_index);
                            crate::node_proofs::lemma_wrap_dist(index, ideal_index);
                            assert(next != g);
                            crate::node_proofs::lemma_cyc_succ(next as int, g);
                        }
                        if index_dib < next_dib {
                            proof {
                                crate::node_proofs::lemma_shift_move(t, shift as nat, index as int, next as int);
                                crate::node_proofs::lemma_move_value(t, next as int, index as int);
                            }
                            let entry = match self.data.remove(next) {
                                Some(entry) => entry,
                                None => {
                                    assert(false);
                                    vstd::pervasive::unreached()
                                },
                            };
                            self.data.insert(index, entry);
                            proof {
                                assert(self.data.slots@ =~= t.update(next as int, None).update(index as int, t[next as int]));
                            }
                            index = next;
                        } else {
                            proof {
                                crate::node_proofs::lemma_shift_skip(t, shift as nat, index as int, next as int);
                            }
                        }
                        next = (next + 1) % HASH_WIDTH;
                    },
                    _ => {
                        proof {
                            assert(t[next as int] is None);
                            crate::node_proofs::lemma_shift_done(t, shift as nat, index as int, next as int);
                            crate::model::lemma_agree_subset(slots_items(t, 0), node_items(n0), shift as nat);
                        }
                        break;
                    },
                }
            }
        } else {
            proof {
                crate::model::lemma_map_empty::<A>();
                assert(items_map(opt_items(None::<Entry<A>>)) =~= items_map(opt_items(s[index as int])).remove(k));
                crate::node_proofs::lemma_branch_lose(n0, *self, shift as nat, index as int, None, k);
            }
        }
        removed
    }

    /// Whether a node holds exactly one entry, and that entry is a value.
    fn holds_single_value(&self) -> (r: bool)
        requires
            self.data.wf(),
        ensures
            r <==> (self.data.count() == 1 && exists|f: int|
                0 <= f < HASH_WIDTH && #[trigger] self.data.slots@[f] is Some && is_value(self.data.slots@[f]->0)),
    {
        if self.len() != 1 {
            return false;
        }
        match self.data.first_index() {
            Some(f) => match self.data.get(f) {
                Some(e) => {
                    let r = e.is_value();
                    proof {
                        if !r {
                            assert forall|g: int| 0 <= g < HASH_WIDTH && #[trigger] self.data.slots@[g] is Some implies !is_value(self.data.slots@[g]->0) by {
                                if g != f {
                                    crate::node_proofs::lemma_single_slot(self.data.slots@, f as int);
                                }
                            }
                        }
                    }
                    r
                },
                None => false,
            },
            None => {
                proof {
                    crate::chunk::lemma_count_zero(self.data.slots@);
                }
                false
            },
        }
    }

    /// In a branching node, takes out the value with key `key` from under the
    /// child in slot `index`; a child left with a single value gives way to
    /// that value.
    fn remove_below(&mut self, index: usize, hash: HashBits, shift: usize, key: &A::Key) -> (r: Option<A>)
        requires
            node_wf(*old(self), shift as nat),
            !old(self).linear_probing,
            index == slot_of(hash, shift as nat),
            index < HASH_WIDTH,
            old(self).data.slots@[index as int] is Some,
            !is_value(old(self).data.slots@[index as int]->0),
            keys_compare_by_equality::<A>(),
            hash_fits(old(self)@, *key, hash),
        ensures
            node_wf(*final(self), shift as nat),
            !final(self).linear_probing,
            final(self)@ == old(self)@.remove(*key),
            match r {
                Some(v) => old(self)@.contains_key(*key) && v == old(self)@[*key].0,
                None => !old(self)@.contains_key(*key),
            },
            forall|y: (A, HashBits)| #[trigger] contains_item(node_items(*final(self)), y) ==> contains_item(node_items(*old(self)), y),
        decreases 32 - shift, 1int,
    {
        let ghost n0 = *self;
        let ghost s = self.data.slots@;
        let ghost k = *key;
        let ghost old_items = opt_items(s[index as int]);
        proof {
            crate::node::lemma_branch_key(n0, shift as nat, hash, k);
            assert(branch_slot_ok(s[index as int]->0, shift as nat, index as int));
            crate::node::lemma_branch_items(n0, shift as nat, index as int);
            if has_key(old_items, k) {
                crate::node::lemma_map_slot(s, index as int, k);
            }
        }
        match self.data.remove(index) {
            Some(Entry::Node(mut child_ref)) => {
                let ghost c0 = crate::node::node_of(s[index as int]->0);
                let child = make_mut(&mut child_ref);
                proof {
                    crate::node_proofs::lemma_same_node(c0, *child, (shift + HASH_SHIFT) as nat);
                    if child@.contains_key(k) {
                        crate::node_proofs::lemma_slot_submap(n0, shift as nat, index as int, k);
                    }
                }
                let removed = child.remove(hash, shift + HASH_SHIFT, key);
                if removed.is_some() && child.holds_single_value() {
                    let ghost c1 = *child;
                    let ghost f = choose|f: int| 0 <= f < HASH_WIDTH && #[trigger] c1.data.slots@[f] is Some && is_value(c1.data.slots@[f]->0);
                    proof {
                        crate::node_proofs::lemma_single_slot(c1.data.slots@, f);
                    }
                    let entry = child.pop();
                    proof {
                        assert(entry == c1.data.slots@[f]->0);
                        crate::node::lemma_value_items(entry->Value_0, entry->Value_1);
                        assert(contains_item(node_items(c1), (entry->Value_0, entry->Value_1))) by {
                            assert(node_items(c1)[0] == (entry->Value_0, entry->Value_1));
                        }
                        assert(items_map(opt_items(Some(entry))) == items_map(node_items(c1)));
                        assert(contains_item(node_items(c0), (entry->Value_0, entry->Value_1)));
                        assert(branch_slot_ok(entry, shift as nat, index as int)) by {
                            assert(old_items == node_items(c0));
                            let t = choose|t: int| 0 <= t < node_items(c0).len() && node_items(c0)[t] == (entry->Value_0, entry->Value_1);
                            assert(slot_of(old_items[t].1, shift as nat) == index);
                        }
                        assert forall|y: (A, HashBits)| #[trigger] contains_item(opt_items(Some(entry)), y) implies contains_item(old_items, y) by {
                        }
                    }
                    self.data.insert(index, entry);
                    proof {
                        assert(self.data.slots@ =~= s.update(index as int, Some(entry)));
                        crate::node_proofs::lemma_branch_lose(n0, *self, shift as nat, index as int, Some(entry), k);
                    }
                    removed
                } else {
                    let ghost e_new = Entry::Node(child_ref);
                    proof {
                        let c2 = crate::shared::pointee(child_ref);
                        assert forall|i: int| 0 <= i < node_items(c2).len() implies slot_of(#[trigger] node_items(c2)[i].1, shift as nat) == index by {
                            assert(contains_item(node_items(c2), node_items(c2)[i]));
                            let t = choose|t: int| 0 <= t < node_items(c0).len() && node_items(c0)[t] == node_items(c2)[i];
                        }
                        if removed is None {
                            assert(c2@ =~= c0@.remove(k));
                        }
                        crate::node_proofs::lemma_lose_count(node_items(c0), node_items(c2), k);
                        if removed is Some && node_items(c2).len() == 1 {
                            crate::node_proofs::lemma_one_item(c2, (shift + HASH_SHIFT) as nat);
                        }
                        assert(node_items(c2).len() >= 2);
                    }
                    self.data.insert(index, Entry::Node(child_ref));
                    proof {
                        assert(self.data.slots@ =~= s.update(index as int, Some(e_new)));
                        crate::node_proofs::lemma_branch_lose(n0, *self, shift as nat, index as int, Some(e_new), k);
                    }
                    removed
                }
            },
            Some(Entry::SmallNode(mut small_ref)) => {
                let ghost c0 = crate::node::small_of(s[index as int]->0);
                let small = make_mut(&mut small_ref);
                proof {
                    if small@.contains_key(k) {
                        crate::node_proofs::lemma_slot_submap(n0, shift as nat, index as int, k);
                    }
                }
                let removed = small.remove(hash, shift + HASH_SHIFT, key);
                if removed.is_some() && small.len() == 1 {
                    let ghost c1 = *small;
                    proof {
                        assert(crate::chunk::count_some(c1.data.slots@) == 1);
                        crate::chunk::lemma_count_zero(c1.data.slots@);
                    }
                    let entry = small.pop();
                    proof {
                        let f = choose|f: int| 0 <= f < SMALL_NODE_WIDTH && c1.data.slots@[f] == Some(entry) && (forall|j: int|
                            0 <= j < f ==> c1.data.slots@[j] is None) && small.data.slots@ == c1.data.slots@.update(f, None);
                        crate::node_proofs::lemma_single_slot(c1.data.slots@, f);
                        assert(is_value(c1.data.slots@[f]->0));
                        crate::node::lemma_value_items(entry->Value_0, entry->Value_1);
                        assert(small_items(c1)[0] == (entry->Value_0, entry->Value_1));
                        assert(contains_item(small_items(c1), (entry->Value_0, entry->Value_1)));
                        assert(items_map(opt_items(Some(entry))) == items_map(small_items(c1)));
                        assert(branch_slot_ok(entry, shift as nat, index as int)) by {
                            assert(old_items == small_items(c0));
                            let t = choose|t: int| 0 <= t < small_items(c0).len() && small_items(c0)[t] == (entry->Value_0, entry->Value_1);
                            assert(slot_of(old_items[t].1, shift as nat) == index);
                        }
                        assert forall|y: (A, HashBits)| #[trigger] contains_item(opt_items(Some(entry)), y) implies contains_item(old_items, y) by {
                        }
                    }
                    self.data.insert(index, entry);
                    proof {
                        assert(self.data.slots@ =~= s.update(index as int, Some(entry)));
                        crate::node_proofs::lemma_branch_lose(n0, *self, shift as nat, index as int, Some(entry), k);
                    }
                    removed
                } else {
                    let ghost e_new = Entry::SmallNode(small_ref);
                    proof {
                        let c2 = crate::shared::pointee(small_ref);
                        assert forall|i: int| 0 <= i < small_items(c2).len() implies slot_of(#[trigger] small_items(c2)[i].1, shift as nat) == index by {
                            assert(contains_item(small_items(c2), small_items(c2)[i]));
                            let t = choose|t: int| 0 <= t < small_items(c0).len() && small_items(c0)[t] == small_items(c2)[i];
                        }
                        if removed is None {
                            assert(c2@ =~= c0@.remove(k));
                        }
                        crate::node_proofs::lemma_lose_count(small_items(c0), small_items(c2), k);
                        crate::node_proofs::lemma_small_count(c2, (shift + HASH_SHIFT) as nat);
                        assert(small_items(c2).len() >= 2);
                    }
                    self.data.insert(index, Entry::SmallNode(small_ref));
                    proof {
                        assert(self.data.slots@ =~= s.update(index as int, Some(e_new)));
                        crate::node_proofs::lemma_branch_lose(n0, *self, shift as nat, index as int, Some(e_new), k);
                    }
                    removed
                }
            },
            Some(Entry::Collision(mut coll_ref)) => {
                let ghost c0 = crate::node::coll_of(s[index as int]->0);
                proof {
                    crate::node::lemma_coll_lookup(c0, k);
                }
                let coll = make_mut(&mut coll_ref);
                let removed = coll.remove(key);
                let ghost c1 = *coll;
                proof {
                    match removed {
                        Some(ref v) => {
                            let i = choose|i: int| crate::collision::last_with_key(c0.data@, k, i) && *v == c0.data@[i]
                                && c1.data@ == c0.data@.remove(i);
                            crate::node_proofs::lemma_coll_remove(c0, c1, i);
                        },
                        None => {
                            assert(crate::node::coll_items(c1) == crate::node::coll_items(c0));
                            assert(items_map(crate::node::coll_items(c0)) =~= items_map(crate::node::coll_items(c0)).remove(k));
                        },
                    }
                }
                if coll.len() == 1 {
                    let entry = coll.pop();
                    proof {
                        let ci = crate::node::coll_items(c1);
                        crate::node::lemma_value_items(entry->Value_0, entry->Value_1);
                        assert(ci =~= seq![(entry->Value_0, entry->Value_1)]);
                        assert(contains_item(ci, (entry->Value_0, entry->Value_1))) by {
                            assert(ci[0] == (entry->Value_0, entry->Value_1));
                        }
                        assert forall|y: (A, HashBits)| #[trigger] contains_item(opt_items(Some(entry)), y) implies contains_item(old_items, y) by {
                        }
                        assert(slot_of(c0.hash, shift as nat) == index);
                    }
                    self.data.insert(index, entry);
                    proof {
                        assert(self.data.slots@ =~= s.update(index as int, Some(entry)));
                        crate::node_proofs::lemma_branch_lose(n0, *self, shift as nat, index as int, Some(entry), k);
                    }
                    removed
                } else {
                    let ghost e_new = Entry::Collision(coll_ref);
                    self.data.insert(index, Entry::Collision(coll_ref));
                    proof {
                        assert(self.data.slots@ =~= s.update(index as int, Some(e_new)));
                        crate::node_proofs::lemma_branch_lose(n0, *self, shift as nat, index as int, Some(e_new), k);
                    }
                    removed
                }
            },
            _ => {
                assert(false);
                None
            },
        }
    }

    /// Takes out the value with key `key`, given the key's hash.
    pub fn remove(&mut self, hash: HashBits, shift: usize, key: &A::Key) -> (r: Option<A>)
        requires
            node_wf(*old(self), shift as nat),
            keys_compare_by_equality::<A>(),
            hash_fits(old(self)@, *key, hash),
        ensures
            final(self).linear_probing == old(self).linear_probing,
            node_wf(*final(self), shift as nat),
            final(self)@ == old(self)@.remove(*key),
            match r {
                Some(v) => old(self)@.contains_key(*key) && v == old(self)@[*key].0,
                None => !old(self)@.contains_key(*key),
            },
            forall|y: (A, HashBits)| #[trigger] contains_item(node_items(*final(self)), y) ==> contains_item(node_items(*old(self)), y),
        decreases 32 - shift, 2int,
    {
        let ghost n0 = *self;
        let ghost s = self.data.slots@;
        let ghost k = *key;
        let ideal = mask(hash, shift) as usize;
        let mut index = ideal;
        let ghost g: int = if self.linear_probing {
            crate::chunk::lemma_count_bound(s);
            crate::chunk::lemma_count_has_none(s)
        } else {
            0
        };
        loop
            invariant
                *self == n0,
                n0 == *old(self),
                node_wf(n0, shift as nat),
                keys_compare_by_equality::<A>(),
                hash_fits(n0@, k, hash),
                k == *key,
                s == n0.data.slots@,
                ideal == slot_of(hash, shift as nat),
                ideal < HASH_WIDTH,
                index < HASH_WIDTH,
                !n0.linear_probing ==> index == ideal,
                n0.linear_probing ==> 0 <= g < HASH_WIDTH && s[g] is None && cyc_dist(ideal as int, index as int)
                    <= cyc_dist(ideal as int, g),
                n0.linear_probing ==> forall|q: int|
                    0 <= q < HASH_WIDTH && cyc_dist(ideal as int, q) < cyc_dist(ideal as int, index as int)
                        ==> #[trigger] s[q] is Some && s[q]->0->Value_0.key() != k,
            ensures
                *self == n0,
                index < HASH_WIDTH,
                s[index as int] is Some,
                !n0.linear_probing ==> index == ideal,
                is_value(s[index as int]->0) ==> s[index as int]->0->Value_0.key() == k,
            decreases (if n0.linear_probing {
                cyc_dist(ideal as int, g) - cyc_dist(ideal as int, index as int)
            } else {
                0
            }),
        {
            match self.data.get(index) {
                None => {
                    proof {
                        if n0.linear_probing {
                            crate::node::lemma_probe_absent(n0, shift as nat, hash, k, index as int);
                        } else {
                            crate::node::lemma_branch_key(n0, shift as nat, hash, k);
                        }
                        assert(n0@.remove(k) =~= n0@);
                    }
                    return None;
                },
                Some(Entry::Value(value, value_hash)) => {
                    if hash_may_eq::<A>(hash, *value_hash) && key_matches(key, value) {
                        break;
                    } else if !self.linear_probing {
                        proof {
                            crate::node::lemma_branch_key(n0, shift as nat, hash, k);
                            crate::node::lemma_value_items(*value, *value_hash);
                            assert(n0@.remove(k) =~= n0@);
                        }
                        return None;
                    }
                    proof {
                        crate::node::lemma_slot_value(s, index as int);
                        crate::node::lemma_probe_step(s, ideal as int, index as int, g, k);
                    }
                    index = (index + 1) % HASH_WIDTH;
                },
                Some(_) => {
                    break;
                },
            }
        }
        let found_value = match self.data.get(index) {
            Some(entry) => entry.is_value(),
            None => false,
        };
        if found_value {
            let removed = self.remove_value_at(index, shift);
            Some(removed)
        } else {
            proof {
                if n0.linear_probing {
                    assert(is_value(s[index as int]->0));
                }
            }
            self.remove_below(index, hash, shift, key)
        }
    }

    /// In a branching node, splits the value in slot `index`, whose key is
    /// not that of `value`, into a child that holds both.
    fn split_value(&mut self, index: usize, hash: HashBits, shift: usize, value: A) -> (r: Option<A>)
        requires
            node_wf(*old(self), shift as nat),
            !old(self).linear_probing,
            index == slot_of(hash, shift as nat),
            index < HASH_WIDTH,
            old(self).data.slots@[index as int] matches Some(Entry::Value(cur, ch)) && !(ch == hash && cur.key() == value.key()),
            hash_fits(old(self)@, value.key(), hash),
            agree_with(node_items(*old(self)), hash, shift as nat),
        ensures
            r is None,
            node_wf(*final(self), shift as nat),
            !final(self).linear_probing,
            final(self)@ == old(self)@.insert(value.key(), (value, hash)),
            !old(self)@.contains_key(value.key()),
            forall|y: (A, HashBits)| #[trigger] contains_item(node_items(*final(self)), y) ==> contains_item(node_items(*old(self)), y) || y == (value, hash),
    {
        let ghost n0 = *self;
        let ghost s = self.data.slots@;
        let ghost k = value.key();
        let ghost x = (value, hash);
        proof {
            crate::node::lemma_slot_value(s, index as int);
            crate::node::lemma_branch_key(n0, shift as nat, hash, k);
            crate::node::lemma_value_items(s[index as int]->0->Value_0, s[index as int]->0->Value_1);
            assert(branch_slot_ok(s[index as int]->0, shift as nat, index as int));
            crate::node::lemma_slot_item_in(s, index as int, 0);
        }
        match self.data.remove(index) {
            Some(Entry::Value(old_value, old_hash)) => {
                let ghost xo = (old_value, old_hash);
                proof {
                    assert(agree_below(old_hash, hash, shift as nat)) by {
                        let i = choose|i: int| 0 <= i < node_items(n0).len() && node_items(n0)[i] == opt_items(s[index as int])[0];
                        assert(agree_below(node_items(n0)[i].1, hash, shift as nat));
                    }
                    crate::model::lemma_map_single(old_value, old_hash);
                }
                let new_entry = if shift + HASH_SHIFT >= HASH_WIDTH {
                    proof {
                        crate::bits::lemma_agree_last(old_hash, hash);
                    }
                    let coll = CollisionNode::new(hash, old_value, value);
                    proof {
                        let c = coll;
                        let ci = crate::node::coll_items(c);
                        assert(ci =~= seq![xo, x]);
                        assert(keys_unique(ci));
                        assert(items_map(ci) =~= items_map(opt_items(s[index as int])).insert(k, x)) by {
                            assert(ci[0].0.key() == old_value.key());
                            assert(ci[1].0.key() == k);
                            crate::model::lemma_items_map_at(ci, 0);
                            crate::model::lemma_items_map_at(ci, 1);
                        }
                        assert forall|y: (A, HashBits)| #[trigger] contains_item(ci, y) implies contains_item(opt_items(s[index as int]), y) || y == x by {
                            assert(opt_items(s[index as int])[0] == xo);
                        }
                    }
                    Entry::Collision(Arc::new(coll))
                } else {
                    proof {
                        crate::bits::lemma_agree_step(old_hash, hash, shift as nat);
                    }
                    let e = Node::merge_values(old_value, old_hash, value, hash, shift + HASH_SHIFT);
                    proof {
                        assert(items_map(entry_items(e)) =~= items_map(opt_items(s[index as int])).insert(k, x));
                        assert forall|y: (A, HashBits)| #[trigger] contains_item(entry_items(e), y) implies contains_item(opt_items(s[index as int]), y) || y == x by {
                            assert(opt_items(s[index as int])[0] == xo);
                        }
                        assert forall|i: int| 0 <= i < entry_items(e).len() implies slot_of(#[trigger] entry_items(e)[i].1, shift as nat) == index by {
                            assert(contains_item(entry_items(e), entry_items(e)[i]));
                        }
                    }
                    e
                };
                self.data.insert(index, new_entry);
                proof {
                    assert(self.data.slots@ =~= s.update(index as int, Some(new_entry)));
                    crate::node_proofs::lemma_branch_update(n0, *self, shift as nat, index as int, new_entry, x);
                }
                None
            },
            _ => {
                assert(false);
                None
            },
        }
    }

    /// In a branching node, inserts `value` under the child in slot `index`,
    /// turning a small child that has no room into a node.
    fn insert_below(&mut self, index: usize, hash: HashBits, shift: usize, value: A) -> (r: Option<A>)
        requires
            node_wf(*old(self), shift as nat),
            !old(self).linear_probing,
            index == slot_of(hash, shift as nat),
            index < HASH_WIDTH,
            old(self).data.slots@[index as int] is Some,
            !is_value(old(self).data.slots@[index as int]->0),
            keys_compare_by_equality::<A>(),
            hash_fits(old(self)@, value.key(), hash),
            agree_with(node_items(*old(self)), hash, shift as nat),
        ensures
            node_wf(*final(self), shift as nat),
            final(self)@ == old(self)@.insert(value.key(), (value, hash)),
            match r {
                Some(p) => old(self)@.contains_key(value.key()) && p == old(self)@[value.key()].0,
                None => !old(self)@.contains_key(value.key()),
            },
            forall|y: (A, HashBits)| #[trigger] contains_item(node_items(*final(self)), y) ==> contains_item(node_items(*old(self)), y) || y == (value, hash),
            !final(self).linear_probing,
        decreases 32 - shift, 1int,
    {
        let ghost n0 = *self;
        let ghost s = self.data.slots@;
        let ghost k = value.key();
        let ghost x = (value, hash);
        let ghost old_items = opt_items(s[index as int]);
        proof {
            crate::node::lemma_branch_key(n0, shift as nat, hash, k);
            assert(branch_slot_ok(s[index as int]->0, shift as nat, index as int));
            crate::node::lemma_branch_items(n0, shift as nat, index as int);
        }
        match self.data.remove(index) {
            Some(Entry::Collision(mut coll_ref)) => {
                let ghost c0 = crate::node::coll_of(s[index as int]->0);
                proof {
                    crate::node::lemma_coll_lookup(c0, k);
                    crate::node::lemma_slot_item_in(s, index as int, 0);
                    assert(old_items == crate::node::coll_items(c0));
                    assert(old_items[0].1 == c0.hash);
                    let i = choose|i: int| 0 <= i < node_items(n0).len() && node_items(n0)[i] == old_items[0];
                    assert(agree_below(node_items(n0)[i].1, hash, shift as nat));
                    assert(agree_below(c0.hash, hash, shift as nat));
                    assert(slot_of(old_items[0].1, shift as nat) == index);
                    crate::bits::lemma_agree_last(c0.hash, hash);
                }
                let coll = make_mut(&mut coll_ref);
                let r = coll.insert(value);
                proof {
                    let c2 = *coll;
                    match r {
                        Some(ref p) => {
                            let i = choose|i: int| crate::collision::first_with_key(c0.data@, k, i) && *p == c0.data@[i]
                                && c2.data@ == c0.data@.update(i, value);
                            crate::node_proofs::lemma_coll_update(c0, c2, i, value);
                        },
                        None => {
                            crate::node_proofs::lemma_coll_push(c0, c2, value);
                        },
                    }
                }
                let ghost e_new = Entry::Collision(coll_ref);
                self.data.insert(index, Entry::Collision(coll_ref));
                proof {
                    assert(self.data.slots@ =~= s.update(index as int, Some(e_new)));
                    crate::node_proofs::lemma_branch_update(n0, *self, shift as nat, index as int, e_new, x);
                }
                r
            },
            Some(Entry::Node(mut child_ref)) => {
                let ghost c0 = crate::node::node_of(s[index as int]->0);
                let child = make_mut(&mut child_ref);
                proof {
                    crate::node_proofs::lemma_same_node(c0, *child, (shift + HASH_SHIFT) as nat);
                    crate::node_proofs::lemma_child_agree(n0, shift as nat, index as int, hash);
                    if child@.contains_key(k) {
                        crate::node_proofs::lemma_slot_submap(n0, shift as nat, index as int, k);
                    }
                }
                let r = child.insert(hash, shift + HASH_SHIFT, value);
                let ghost e_new = Entry::Node(child_ref);
                proof {
                    let c2 = crate::shared::pointee(child_ref);
                    assert forall|i: int| 0 <= i < node_items(c2).len() implies slot_of(#[trigger] node_items(c2)[i].1, shift as nat) == index by {
                        assert(contains_item(node_items(c2), node_items(c2)[i]));
                        if contains_item(node_items(c0), node_items(c2)[i]) {
                            let t = choose|t: int| 0 <= t < node_items(c0).len() && node_items(c0)[t] == node_items(c2)[i];
                        }
                    }
                }
                self.data.insert(index, Entry::Node(child_ref));
                proof {
                    assert(self.data.slots@ =~= s.update(index as int, Some(e_new)));
                    crate::node_proofs::lemma_gain_keeps_two(n0, shift as nat, index as int, e_new, x);
                    crate::node_proofs::lemma_branch_update(n0, *self, shift as nat, index as int, e_new, x);
                }
                r
            },
            Some(Entry::SmallNode(mut small_ref)) => {
                let ghost c0 = crate::node::small_of(s[index as int]->0);
                let small = make_mut(&mut small_ref);
                proof {
                    crate::node_proofs::lemma_child_agree(n0, shift as nat, index as int, hash);
                    if small@.contains_key(k) {
                        crate::node_proofs::lemma_slot_submap(n0, shift as nat, index as int, k);
                    }
                }
                match small.insert(hash, shift + HASH_SHIFT, value) {
                    Ok(result) => {
                        let ghost e_new = Entry::SmallNode(small_ref);
                        proof {
                            let c2 = crate::shared::pointee(small_ref);
                            assert forall|i: int| 0 <= i < small_items(c2).len() implies slot_of(#[trigger] small_items(c2)[i].1, shift as nat) == index by {
                                assert(contains_item(small_items(c2), small_items(c2)[i]));
                                if contains_item(small_items(c0), small_items(c2)[i]) {
                                    let t = choose|t: int| 0 <= t < small_items(c0).len() && small_items(c0)[t] == small_items(c2)[i];
                                }
                            }
                        }
                        self.data.insert(index, Entry::SmallNode(small_ref));
                        proof {
                            assert(self.data.slots@ =~= s.update(index as int, Some(e_new)));
                            crate::node_proofs::lemma_gain_keeps_two(n0, shift as nat, index as int, e_new, x);
                            crate::node_proofs::lemma_branch_update(n0, *self, shift as nat, index as int, e_new, x);
                        }
                        result
                    },
                    Err(value) => {
                        let mut node = Node::new();
                        let mut data = Chunk::new();
                        std::mem::swap(&mut small.data, &mut data);
                        proof {
                            crate::node_proofs::lemma_empty_node(node, (shift + HASH_SHIFT) as nat);
                        }
                        node.insert_all(shift + HASH_SHIFT, data);
                        proof {
                            assert forall|i: int| 0 <= i < node_items(node).len() implies agree_below(#[trigger] node_items(node)[i].1, hash, (shift + HASH_SHIFT) as nat) by {
                                assert(contains_item(node_items(node), node_items(node)[i]));
                                let t = choose|t: int| 0 <= t < small_items(c0).len() && small_items(c0)[t] == node_items(node)[i];
                            }
                        }
                        node.insert(hash, shift + HASH_SHIFT, value);
                        let ghost e_new = Entry::Node(Arc::new(node));
                        proof {
                            assert forall|i: int| 0 <= i < node_items(node).len() implies slot_of(#[trigger] node_items(node)[i].1, shift as nat) == index by {
                                assert(contains_item(node_items(node), node_items(node)[i]));
                                if node_items(node)[i] != x {
                                    let t = choose|t: int| 0 <= t < small_items(c0).len() && small_items(c0)[t] == node_items(node)[i];
                                }
                            }
                            assert forall|y: (A, HashBits)| #[trigger] contains_item(entry_items(e_new), y) implies contains_item(old_items, y) || y == x by {
                            }
                        }
                        self.data.insert(index, Entry::Node(Arc::new(node)));
                        proof {
                            assert(self.data.slots@ =~= s.update(index as int, Some(e_new)));
                            crate::node_proofs::lemma_gain_keeps_two(n0, shift as nat, index as int, e_new, x);
                            crate::node_proofs::lemma_branch_update(n0, *self, shift as nat, index as int, e_new, x);
                        }
                        None
                    },
                }
            },
            _ => {
                assert(false);
                None
            },
        }
    }
}

} // verus!
