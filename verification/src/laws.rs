//! What holds of the trie across its operations: a read gives back what a
//! write wrote, a removal takes out exactly one key, a walk meets every key
//! once, and draining gives back every item once.

use vstd::prelude::*;
use crate::bits::{HashBits, HASH_WIDTH, SMALL_NODE_WIDTH};
use crate::drain::{drain_entry_items, drain_slots_items, entry_chunks_ok, slots_chunks_ok, small_values};
use crate::iter_mut::slots_refill;
use crate::model::{has_key, items_map, keys_unique, lemma_map_len};
use crate::refill::items_match;
use crate::node::{branch_slot_ok, entry_items, node_items, node_wf, slots_items, small_items, small_wf, Entry, Node, SmallNode};
use crate::value::HashValue;

verus! {

/// After a value is inserted under its key (the map that `insert` leaves),
/// looking the key up (what `get` reads) gives that value and the hash it
/// was inserted with.
pub proof fn law_get_after_insert<A: HashValue>(before: Node<A>, after: Node<A>, value: A, hash: HashBits)
    requires
        after@ == before@.insert(value.key(), (value, hash)),
    ensures
        after@.contains_key(value.key()),
        after@[value.key()] == (value, hash),
{
}

/// Inserting a value leaves every other key as it was.
pub proof fn law_insert_keeps_other_keys<A: HashValue>(before: Node<A>, after: Node<A>, value: A, hash: HashBits, k: A::Key)
    requires
        after@ == before@.insert(value.key(), (value, hash)),
        k != value.key(),
    ensures
        after@.contains_key(k) == before@.contains_key(k),
        before@.contains_key(k) ==> after@[k] == before@[k],
{
}

/// Inserting under a key twice leaves only the second value.
pub proof fn law_insert_twice<A: HashValue>(
    first: Node<A>,
    second: Node<A>,
    third: Node<A>,
    v1: A,
    v2: A,
    hash: HashBits,
)
    requires
        v1.key() == v2.key(),
        second@ == first@.insert(v1.key(), (v1, hash)),
        third@ == second@.insert(v2.key(), (v2, hash)),
    ensures
        third@ == first@.insert(v2.key(), (v2, hash)),
{
    assert(third@ =~= first@.insert(v2.key(), (v2, hash)));
}

/// After a key is removed (the map that `remove` leaves), looking it up finds
/// nothing, and every other key is as it was.
pub proof fn law_get_after_remove<A: HashValue>(before: Node<A>, after: Node<A>, key: A::Key, k: A::Key)
    requires
        after@ == before@.remove(key),
    ensures
        !after@.contains_key(key),
        k != key ==> after@.contains_key(k) == before@.contains_key(k),
        k != key && before@.contains_key(k) ==> after@[k] == before@[k],
{
}

/// Removing a key that an insertion added gives back the map from before the
/// insertion.
pub proof fn law_remove_undoes_insert<A: HashValue>(
    first: Node<A>,
    second: Node<A>,
    third: Node<A>,
    value: A,
    hash: HashBits,
)
    requires
        !first@.contains_key(value.key()),
        second@ == first@.insert(value.key(), (value, hash)),
        third@ == second@.remove(value.key()),
    ensures
        second@.contains_key(value.key()),
        second@[value.key()].0 == value,
        third@ == first@,
        !third@.contains_key(value.key()),
{
    assert(third@ =~= first@);
}

/// Removing a key a second time finds nothing and changes nothing.
pub proof fn law_remove_twice<A: HashValue>(first: Node<A>, second: Node<A>, third: Node<A>, key: A::Key)
    requires
        second@ == first@.remove(key),
        third@ == second@.remove(key),
    ensures
        !second@.contains_key(key),
        third@ == second@,
{
    assert(third@ =~= second@);
}

/// In a well-formed node (which every operation leaves), every child node,
/// small node and collision node holds two or more items, every other
/// occupied slot holds a single value, and a node with linear probing holds
/// only values.
pub proof fn law_children_hold_two<A: HashValue>(n: Node<A>, shift: nat)
    requires
        node_wf(n, shift),
    ensures
        forall|j: int|
            0 <= j < HASH_WIDTH && #[trigger] n.data.slots@[j] is Some && !crate::node::is_value(n.data.slots@[j]->0)
                ==> crate::node::opt_items(n.data.slots@[j]).len() >= 2,
        n.linear_probing ==> forall|j: int|
            0 <= j < HASH_WIDTH && #[trigger] n.data.slots@[j] is Some ==> crate::node::is_value(n.data.slots@[j]->0),
        n.linear_probing ==> n.data.count() <= HASH_WIDTH / 2,
{
    crate::node_proofs::lemma_node_holds_enough(n, shift);
}

/// A walk over a well-formed node (what `Iter` and `IterMut` give) meets
/// every key of the node's map exactly once, and meets nothing else: its
/// items have unique keys, read as a map they are the node's map, and there
/// are as many of them as the map has keys.
pub proof fn law_walk_meets_each_key_once<A: HashValue>(n: Node<A>, shift: nat)
    requires
        node_wf(n, shift),
    ensures
        keys_unique(node_items(n)),
        items_map(node_items(n)) == n@,
        n@.dom().finite(),
        node_items(n).len() == n@.dom().len(),
{
    lemma_map_len(node_items(n));
}

/// Draining the slots of a well-formed small node from `j` on gives all its
/// values from `j` on, in order, and its slots hold no node.
proof fn lemma_small_drains_all<A: HashValue>(n: SmallNode<A>, shift: nat, j: nat)
    requires
        small_wf(n, shift),
        j <= SMALL_NODE_WIDTH,
    ensures
        small_values(n.data.slots@, j) == slots_items(n.data.slots@, j),
        slots_chunks_ok(n.data.slots@, j),
    decreases SMALL_NODE_WIDTH - j,
{
    let s = n.data.slots@;
    assert(s.len() == SMALL_NODE_WIDTH);
    if j < SMALL_NODE_WIDTH {
        lemma_small_drains_all(n, shift, j + 1);
        if s[j as int] is Some {
            assert(crate::node::is_value(s[j as int]->0));
            let e = s[j as int]->0;
            assert(entry_items(e) == seq![(e->Value_0, e->Value_1)]);
            assert(small_values(s, j) == seq![(e->Value_0, e->Value_1)] + small_values(s, j + 1));
            assert(entry_chunks_ok(e));
        }
        assert(slots_chunks_ok(s, j) == ((match s[j as int] {
            None => true,
            Some(e) => entry_chunks_ok(e),
        }) && slots_chunks_ok(s, j + 1)));
    }
}

/// Draining a well-formed node gives its items, each once, and every array
/// of slots under it is well formed.
proof fn lemma_node_drains_all<A: HashValue>(n: Node<A>, shift: nat)
    requires
        node_wf(n, shift),
    ensures
        drain_slots_items(n.data.slots@, 0).to_multiset() == node_items(n).to_multiset(),
        slots_chunks_ok(n.data.slots@, 0),
    decreases 32 - shift, 1nat, 0nat,
{
    lemma_slots_drain_all(n, shift, 0);
}

/// Draining slots `j..` of a well-formed node gives their items, each once.
proof fn lemma_slots_drain_all<A: HashValue>(n: Node<A>, shift: nat, j: nat)
    requires
        node_wf(n, shift),
        j <= HASH_WIDTH,
    ensures
        drain_slots_items(n.data.slots@, j).to_multiset() == slots_items(n.data.slots@, j).to_multiset(),
        slots_chunks_ok(n.data.slots@, j),
    decreases 32 - shift, 0nat, HASH_WIDTH - j,
{
    let s = n.data.slots@;
    assert(s.len() == HASH_WIDTH);
    if j < HASH_WIDTH {
        lemma_slots_drain_all(n, shift, j + 1);
        if s[j as int] is Some {
            let e = s[j as int]->0;
            if !n.linear_probing {
                assert(branch_slot_ok(e, shift, j as int));
            } else {
                assert(crate::node::is_value(e));
            }
            match e {
                Entry::Value(_, _) => {},
                Entry::Collision(c) => {
                    crate::node::coll_items(crate::shared::pointee(c)).lemma_reverse_to_multiset();
                },
                Entry::Node(c) => {
                    lemma_node_drains_all(crate::shared::pointee(c), shift + 5);
                },
                Entry::SmallNode(c) => {
                    lemma_small_drains_all(crate::shared::pointee(c), shift + 5, 0);
                },
            }
            assert(drain_entry_items(e).to_multiset() == entry_items(e).to_multiset());
            assert(entry_chunks_ok(e));
            vstd::seq_lib::lemma_multiset_commutative(drain_entry_items(e), drain_slots_items(s, j + 1));
            vstd::seq_lib::lemma_multiset_commutative(entry_items(e), slots_items(s, j + 1));
        }
    }
}

/// Draining a well-formed node (what `Drain` gives) gives back each of its
/// items exactly once, though not in the order of a walk; and the node is
/// one that `Drain` can take.
pub proof fn law_drain_gives_each_item_once<A: HashValue>(n: Node<A>, shift: nat)
    requires
        node_wf(n, shift),
    ensures
        drain_slots_items(n.data.slots@, 0).to_multiset() == node_items(n).to_multiset(),
        drain_slots_items(n.data.slots@, 0).len() == n@.dom().len(),
        n.data.wf(),
        slots_chunks_ok(n.data.slots@, 0),
{
    lemma_node_drains_all(n, shift);
    lemma_map_len(node_items(n));
    vstd::seq_lib::to_multiset_len(drain_slots_items(n.data.slots@, 0));
    vstd::seq_lib::to_multiset_len(node_items(n));
}


/// In a well-formed branching node, a slot is occupied exactly when some
/// item's hash takes that slot: so the node has as many occupied slots (what
/// `len` counts) as its items take distinct slots.
pub proof fn law_branching_slots_are_item_slots<A: HashValue>(n: Node<A>, shift: nat, j: int)
    requires
        node_wf(n, shift),
        !n.linear_probing,
        0 <= j < HASH_WIDTH,
    ensures
        n.data.slots@[j] is Some <==> exists|i: int|
            0 <= i < node_items(n).len() && crate::bits::slot_of(#[trigger] node_items(n)[i].1, shift) == j,
{
    let s = n.data.slots@;
    crate::node_proofs::lemma_node_holds_enough(n, shift);
    if s[j] is Some {
        assert(crate::node::opt_items(s[j]).len() >= 1);
        crate::node::lemma_slot_item_in(s, j, 0);
        crate::node::lemma_branch_items(n, shift, j);
        let i = choose|i: int| 0 <= i < slots_items(s, 0).len() && slots_items(s, 0)[i] == crate::node::opt_items(s[j])[0];
        assert(crate::bits::slot_of(node_items(n)[i].1, shift) == j);
    }
    if exists|i: int| 0 <= i < node_items(n).len() && crate::bits::slot_of(#[trigger] node_items(n)[i].1, shift) == j {
        let i = choose|i: int| 0 <= i < node_items(n).len() && crate::bits::slot_of(#[trigger] node_items(n)[i].1, shift) == j;
        crate::node::lemma_slots_index(s, 0, i);
        let (m, t) = choose|m: int, t: int|
            0 <= m < s.len() && 0 <= t < crate::node::opt_items(s[m]).len() && #[trigger] crate::node::opt_items(s[m])[t]
                == slots_items(s, 0)[i];
        crate::node::lemma_branch_items(n, shift, m);
        assert(crate::bits::slot_of(crate::node::opt_items(s[m])[t].1, shift) == m);
        assert(s[m] is Some);
    }
}


/// A whole walk of a well-formed node: started where `new` starts it, with
/// the node's items left, the call that finds `k` items already given gives
/// item `k` and leaves the items after it; so the calls give the items in
/// order, each exactly once, and then nothing.
pub proof fn law_walk_run<A: HashValue>(n: Node<A>, shift: nat, k: nat)
    requires
        node_wf(n, shift),
    ensures
        k < node_items(n).len() ==> node_items(n).skip(k as int).len() > 0 && node_items(n).skip(k as int)[0]
            == node_items(n)[k as int] && node_items(n).skip(k as int).drop_first() == node_items(n).skip(k + 1 as int),
        k >= node_items(n).len() ==> node_items(n).skip(node_items(n).len() as int).len() == 0,
        forall|i: int, j: int|
            0 <= i < j < node_items(n).len() ==> #[trigger] node_items(n)[i] != #[trigger] node_items(n)[j],
        node_items(n).len() == n@.dom().len(),
{
    let s = node_items(n);
    if k < s.len() {
        assert(s.skip(k as int).drop_first() =~= s.skip(k + 1 as int));
    }
    assert(s.skip(s.len() as int) =~= Seq::<(A, HashBits)>::empty());
    assert forall|i: int, j: int| 0 <= i < j < s.len() implies #[trigger] s[i] != #[trigger] s[j] by {
        assert(s[i].0.key() != s[j].0.key());
    }
    lemma_map_len(s);
}

/// A copy of a node, which is what a shared child becomes before it
/// changes, maps every key as the node does, holds the same items, and is
/// well formed where the node is: copying before a change changes nothing.
pub proof fn law_copy_keeps_the_node<A: HashValue>(a: Node<A>, b: Node<A>, shift: nat)
    requires
        cloned::<Node<A>>(a, b),
    ensures
        b@ == a@,
        node_items(b) == node_items(a),
        node_wf(b, shift) == node_wf(a, shift),
{
    if a != b {
        assert(call_ensures(Node::<A>::clone, (&a,), b));
    }
    crate::node_proofs::lemma_same_node(a, b, shift);
}

/// A walk by mutable reference changes only values: a node whose slots hold
/// those of a well-formed node with at most values changed, under the same
/// flag and count (what `IterMut::new` and `IterMut::next` give of the node
/// left once the walk is over), and whose values each keep the key of the
/// value they replaced, is well formed, holds the items of the node in the
/// same order with the same hashes, has the same keys, and maps each key to
/// its new value.
pub proof fn law_walk_keeps_the_node<A: HashValue>(a: Node<A>, b: Node<A>, shift: nat)
    requires
        node_wf(a, shift),
        b.linear_probing == a.linear_probing,
        b.data.len == a.data.len,
        slots_refill(a.data.slots@, b.data.slots@, 0),
        forall|i: int| 0 <= i < node_items(a).len() ==> (#[trigger] node_items(b)[i]).0.key() == node_items(a)[i].0.key(),
    ensures
        node_wf(b, shift),
        node_items(b).len() == node_items(a).len(),
        forall|i: int| 0 <= i < node_items(a).len() ==> (#[trigger] node_items(b)[i]).1 == node_items(a)[i].1,
        b@.dom() == a@.dom(),
        forall|i: int| 0 <= i < node_items(b).len() ==> b@[(#[trigger] node_items(b)[i]).0.key()] == node_items(b)[i],
{
    let x = node_items(a);
    let y = node_items(b);
    crate::refill::lemma_refill_slots_items(a.data.slots@, b.data.slots@, 0);
    assert(items_match(x, y));
    crate::refill::lemma_refill_node(a, b, shift);
    law_walk_meets_each_key_once(a, shift);
    law_walk_meets_each_key_once(b, shift);
    assert forall|i: int| 0 <= i < y.len() implies b@[(#[trigger] y[i]).0.key()] == y[i] by {
        crate::model::lemma_items_map_at(y, i);
    }
    assert forall|k: A::Key| b@.dom().contains(k) <==> a@.dom().contains(k) by {
        crate::model::lemma_map_dom(x, k);
        crate::model::lemma_map_dom(y, k);
        if has_key(y, k) {
            let i = choose|i: int| 0 <= i < y.len() && #[trigger] y[i].0.key() == k;
            assert(x[i].0.key() == k);
        }
        if has_key(x, k) {
            let i = choose|i: int| 0 <= i < x.len() && #[trigger] x[i].0.key() == k;
            assert(y[i].0.key() == k);
        }
    }
    assert(b@.dom() =~= a@.dom());
}

/// The entries listed for the occupied slots of a node (what
/// `analyze_structure` gives) are, place by place, the entries of the
/// occupied slots in increasing slot order: there are as many as occupied
/// slots, and the entry of each occupied slot `i` stands at the place
/// counted by the occupied slots before `i`. Those places differ from slot
/// to slot and number as many as the list, so each place holds exactly one
/// slot's entry.
pub proof fn law_occupied_slots_in_order<T>(s: Seq<Option<T>>)
    ensures
        crate::node_impl::occupied(s, 0).len() == crate::chunk::count_some(s),
        forall|i: int|
            0 <= i < s.len() && #[trigger] s[i] is Some ==> {
                &&& crate::chunk::count_some(s.subrange(0, i)) < crate::node_impl::occupied(s, 0).len()
                &&& crate::node_impl::occupied(s, 0)[crate::chunk::count_some(s.subrange(0, i)) as int] == s[i]->0
            },
{
    crate::node_impl::lemma_occupied_count(s, 0);
    assert(s.subrange(0, s.len() as int) =~= s);
    assert forall|i: int| 0 <= i < s.len() && #[trigger] s[i] is Some implies {
        &&& crate::chunk::count_some(s.subrange(0, i)) < crate::node_impl::occupied(s, 0).len()
        &&& crate::node_impl::occupied(s, 0)[crate::chunk::count_some(s.subrange(0, i)) as int] == s[i]->0
    } by {
        crate::node_impl::lemma_occupied_at(s, 0, i);
    }
}

} // verus!
