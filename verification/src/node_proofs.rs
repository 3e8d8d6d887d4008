//! How the changes that insertion and removal make to one slot of a node
//! keep it well formed and change its map.

use vstd::prelude::*;
use crate::bits::{agree_below, cyc_dist, slot_of, valid_shift, HashBits, HASH_WIDTH};
use crate::model::{agree_with, contains_item, has_key, hashes_agree, items_map, keys_disjoint, keys_unique};
use crate::node::{
    branch_slot_ok, entry_items, is_value, lemma_map_replace, lemma_map_slot, lemma_map_split,
    lemma_members_replace, lemma_slot_value, lemma_value_items, node_items, node_wf, opt_items, child_wf,
    probing_ok, slots_items, slots_prefix, small_items, small_wf, value_hash, Entry, Node, SmallNode,
};
use crate::small::hash_fits;
use crate::value::HashValue;

verus! {

/// Replacing slot `j` with an entry whose items are the old ones and `x`, and
/// whose keys are those of the old slot and `x`'s key: the keys of the node
/// stay unique, its map gains `x`, and its items gain at most `x`.
pub proof fn lemma_slot_gain<A: HashValue>(s: Seq<Option<Entry<A>>>, j: int, e_new: Entry<A>, x: (A, HashBits))
    requires
        0 <= j < s.len(),
        keys_unique(slots_items(s, 0)),
        keys_unique(entry_items(e_new)),
        forall|y: (A, HashBits)| #[trigger] contains_item(entry_items(e_new), y) ==> contains_item(opt_items(s[j]), y) || y == x,
        items_map(entry_items(e_new)) == items_map(opt_items(s[j])).insert(x.0.key(), x),
        items_map(slots_items(s, 0)).contains_key(x.0.key()) ==> has_key(opt_items(s[j]), x.0.key()),
    ensures
        keys_unique(slots_items(s.update(j, Some(e_new)), 0)),
        items_map(slots_items(s.update(j, Some(e_new)), 0)) == items_map(slots_items(s, 0)).insert(x.0.key(), x),
        forall|y: (A, HashBits)| #[trigger] contains_item(slots_items(s.update(j, Some(e_new)), 0), y)
            ==> contains_item(slots_items(s, 0), y) || y == x,
{
    let p = slots_prefix(s, j as nat);
    let q = slots_items(s, (j + 1) as nat);
    let xs = entry_items(e_new);
    let old_j = opt_items(s[j]);
    let k = x.0.key();
    lemma_map_split(s, j);
    crate::model::lemma_map_dom(xs, k);
    assert forall|a: int, b: int| 0 <= a < xs.len() && 0 <= b < (p + q).len() implies #[trigger] xs[a].0.key()
        != #[trigger] (p + q)[b].0.key() by {
        let y = xs[a];
        assert(contains_item(xs, y));
        if y == x {
            if has_key(p + q, k) {
                crate::model::lemma_has_key_concat(p + q, old_j, k);
                crate::model::lemma_has_key_concat(p, q, k);
                crate::node::lemma_slot_replace(s, j, s[j]);
                crate::model::lemma_has_key_concat(p + old_j, q, k);
                crate::model::lemma_has_key_concat(p, old_j, k);
                assert(has_key(slots_items(s, 0), k));
                crate::model::lemma_disjoint_has_key(old_j, p + q, k);
            }
            if xs[a].0.key() == (p + q)[b].0.key() {
                assert((p + q)[b].0.key() == k);
                assert(has_key(p + q, k));
            }
        } else {
            let i = choose|i: int| 0 <= i < old_j.len() && old_j[i] == y;
            assert(old_j[i].0.key() != (p + q)[b].0.key());
        }
    }
    lemma_map_replace(s, j, Some(e_new));
    assert(!items_map(p + q).contains_key(k)) by {
        if has_key(p + q, k) {
            crate::model::lemma_has_key_concat(p + q, old_j, k);
            crate::node::lemma_slot_replace(s, j, s[j]);
            crate::model::lemma_has_key_concat(p + old_j, q, k);
            crate::model::lemma_has_key_concat(p, old_j, k);
            crate::model::lemma_has_key_concat(p, q, k);
            assert(has_key(slots_items(s, 0), k));
            crate::model::lemma_disjoint_has_key(old_j, p + q, k);
        }
    }
    assert(items_map(slots_items(s.update(j, Some(e_new)), 0)) =~= items_map(slots_items(s, 0)).insert(k, x));
    assert forall|y: (A, HashBits)| #[trigger] contains_item(slots_items(s.update(j, Some(e_new)), 0), y)
        implies contains_item(slots_items(s, 0), y) || y == x by {
        lemma_members_replace(s, j, Some(e_new), y);
    }
}

/// In a branching node, replacing what slot `j` holds by an entry that may
/// stand there and holds the old items of the slot and `x`: the node stays
/// well formed and its map gains `x`.
pub proof fn lemma_branch_update<A: HashValue>(n: Node<A>, n2: Node<A>, shift: nat, j: int, e_new: Entry<A>, x: (A, HashBits))
    requires
        node_wf(n, shift),
        !n.linear_probing,
        0 <= j < HASH_WIDTH,
        !n2.linear_probing,
        n2.data.wf(),
        n2.data.slots@ == n.data.slots@.update(j, Some(e_new)),
        branch_slot_ok(e_new, shift, j),
        keys_unique(entry_items(e_new)),
        forall|y: (A, HashBits)| #[trigger] contains_item(entry_items(e_new), y) ==> contains_item(opt_items(n.data.slots@[j]), y) || y == x,
        items_map(entry_items(e_new)) == items_map(opt_items(n.data.slots@[j])).insert(x.0.key(), x),
        agree_with(node_items(n), x.1, shift),
        n@.contains_key(x.0.key()) ==> has_key(opt_items(n.data.slots@[j]), x.0.key()),
    ensures
        node_wf(n2, shift),
        n2@ == n@.insert(x.0.key(), x),
        forall|y: (A, HashBits)| #[trigger] contains_item(node_items(n2), y) ==> contains_item(node_items(n), y) || y == x,
{
    let s = n.data.slots@;
    lemma_slot_gain(s, j, e_new, x);
    crate::model::lemma_agree_members(node_items(n2), node_items(n), x.1, shift);
    assert forall|i: int| #![trigger n2.data.slots@[i]] 0 <= i < HASH_WIDTH && n2.data.slots@[i] is Some implies branch_slot_ok(
        n2.data.slots@[i]->0,
        shift,
        i,
    ) by {
        if i != j {
            assert(n2.data.slots@[i] == s[i]);
        }
    }
}

/// In a node with linear probing and room for one more value, putting a value
/// with a new key in an empty slot that its probe reaches past occupied
/// slots: the node stays well formed and its map gains the value.
pub proof fn lemma_probe_put<A: HashValue>(n: Node<A>, n2: Node<A>, shift: nat, index: int, v: A, h: HashBits)
    requires
        node_wf(n, shift),
        n.linear_probing,
        n.data.len < 16,
        0 <= index < HASH_WIDTH,
        n.data.slots@[index] is None,
        forall|q: int|
            0 <= q < HASH_WIDTH && cyc_dist(slot_of(h, shift), q) < cyc_dist(slot_of(h, shift), index)
                ==> #[trigger] n.data.slots@[q] is Some,
        !n@.contains_key(v.key()),
        agree_with(node_items(n), h, shift),
        n2.linear_probing,
        n2.data.wf(),
        n2.data.slots@ == n.data.slots@.update(index, Some(Entry::Value(v, h))),
    ensures
        node_wf(n2, shift),
        n2@ == n@.insert(v.key(), (v, h)),
        forall|y: (A, HashBits)| #[trigger] contains_item(node_items(n2), y) ==> contains_item(node_items(n), y) || y == (v, h),
{
    let s = n.data.slots@;
    let t = n2.data.slots@;
    crate::node::lemma_put_value(s, index, v, h);
    crate::model::lemma_agree_members(node_items(n2), node_items(n), h, shift);
    crate::chunk::lemma_count_update(s, index, Some(Entry::Value(v, h)));
    assert forall|p: int| #![trigger t[p]] 0 <= p < t.len() && t[p] is Some implies {
        &&& is_value(t[p]->0)
        &&& forall|q: int|
            0 <= q < t.len() && cyc_dist(slot_of(value_hash(t[p]->0), shift), q) <= cyc_dist(
                slot_of(value_hash(t[p]->0), shift),
                p,
            ) ==> #[trigger] t[q] is Some
    } by {
        if p != index {
            assert(t[p] == s[p]);
            assert forall|q: int|
                0 <= q < t.len() && cyc_dist(slot_of(value_hash(t[p]->0), shift), q) <= cyc_dist(
                    slot_of(value_hash(t[p]->0), shift),
                    p,
                ) implies #[trigger] t[q] is Some by {
                assert(s[q] is Some);
            }
        } else {
            assert forall|q: int|
                0 <= q < t.len() && cyc_dist(slot_of(h, shift), q) <= cyc_dist(slot_of(h, shift), p)
                    implies #[trigger] t[q] is Some by {
                if q != index {
                    assert(s[q] is Some);
                }
            }
        }
    }
}

/// Replacing the value in slot `index` by one with the same key, keeping the
/// stored hash: the node stays well formed and maps the key to the new value.
pub proof fn lemma_value_replace<A: HashValue>(n: Node<A>, n2: Node<A>, shift: nat, index: int, v: A)
    requires
        node_wf(n, shift),
        0 <= index < HASH_WIDTH,
        n.data.slots@[index] is Some,
        n.data.slots@[index]->0 is Value,
        n.data.slots@[index]->0->Value_0.key() == v.key(),
        n2.linear_probing == n.linear_probing,
        n2.data.wf(),
        n2.data.slots@ == n.data.slots@.update(index, Some(Entry::Value(v, n.data.slots@[index]->0->Value_1))),
    ensures
        node_wf(n2, shift),
        n2@ == n@.insert(v.key(), (v, n.data.slots@[index]->0->Value_1)),
        forall|y: (A, HashBits)| #[trigger] contains_item(node_items(n2), y) ==> contains_item(node_items(n), y) || y == (v, n.data.slots@[index]->0->Value_1),
{
    let s = n.data.slots@;
    let t = n2.data.slots@;
    let e = s[index]->0;
    let h = e->Value_1;
    let x = (v, h);
    lemma_value_items(e->Value_0, h);
    lemma_value_items(v, h);
    crate::model::lemma_map_single(e->Value_0, h);
    crate::model::lemma_map_single(v, h);
    assert(items_map(entry_items(Entry::Value(v, h))) =~= items_map(opt_items(s[index])).insert(v.key(), x));
    lemma_slot_value(s, index);
    assert forall|y: (A, HashBits)| #[trigger] contains_item(entry_items(Entry::Value(v, h)), y) implies contains_item(opt_items(s[index]), y) || y == x by {
        let i = choose|i: int| 0 <= i < entry_items(Entry::Value(v, h)).len() && entry_items(Entry::Value(v, h))[i] == y;
    }
    assert(has_key(opt_items(s[index]), v.key())) by {
        assert(opt_items(s[index])[0].0.key() == v.key());
    }
    lemma_slot_gain(s, index, Entry::Value(v, h), x);
    assert(contains_item(node_items(n), (e->Value_0, h))) by {
        crate::node::lemma_slot_item_in(s, index, 0);
    }
    assert forall|i: int| 0 <= i < node_items(n).len() implies agree_below(#[trigger] node_items(n)[i].1, h, shift) by {
        let i0 = choose|i0: int| 0 <= i0 < node_items(n).len() && node_items(n)[i0] == (e->Value_0, h);
        assert(agree_below(node_items(n)[i].1, node_items(n)[i0].1, shift));
    }
    crate::model::lemma_agree_members(node_items(n2), node_items(n), h, shift);
    if n.linear_probing {
        assert forall|p: int| #![trigger t[p]] 0 <= p < t.len() && t[p] is Some implies {
            &&& is_value(t[p]->0)
            &&& forall|q: int|
                0 <= q < t.len() && cyc_dist(slot_of(value_hash(t[p]->0), shift), q) <= cyc_dist(
                    slot_of(value_hash(t[p]->0), shift),
                    p,
                ) ==> #[trigger] t[q] is Some
        } by {
            assert(s[p] is Some);
            assert(value_hash(t[p]->0) == value_hash(s[p]->0));
            assert forall|q: int|
                0 <= q < t.len() && cyc_dist(slot_of(value_hash(t[p]->0), shift), q) <= cyc_dist(
                    slot_of(value_hash(t[p]->0), shift),
                    p,
                ) implies #[trigger] t[q] is Some by {
                assert(s[q] is Some);
            }
        }
        crate::chunk::lemma_count_update(s, index, Some(Entry::Value(v, h)));
    } else {
        assert forall|i: int| #![trigger t[i]] 0 <= i < HASH_WIDTH && t[i] is Some implies branch_slot_ok(t[i]->0, shift, i) by {
            if i != index {
                assert(t[i] == s[i]);
            } else {
                assert(branch_slot_ok(s[i]->0, shift, i));
            }
        }
    }
}

/// A collision node whose value at `i` is replaced by one with the same
/// key: keys stay unique and the map sends the key to the new value.
pub proof fn lemma_coll_update<A: HashValue>(c: crate::node::CollisionNode<A>, c2: crate::node::CollisionNode<A>, i: int, v: A)
    requires
        crate::node::coll_wf(c),
        0 <= i < c.data@.len(),
        c.data@[i].key() == v.key(),
        c2.hash == c.hash,
        c2.data@ == c.data@.update(i, v),
    ensures
        crate::node::coll_wf(c2),
        items_map(crate::node::coll_items(c2)) == items_map(crate::node::coll_items(c)).insert(v.key(), (v, c.hash)),
        forall|y: (A, HashBits)| #[trigger] contains_item(crate::node::coll_items(c2), y) ==> contains_item(crate::node::coll_items(c), y) || y == (v, c.hash),
{
    let a = crate::node::coll_items(c);
    let b = crate::node::coll_items(c2);
    assert(b =~= a.update(i, (v, c.hash)));
    assert forall|p: int, q: int| 0 <= p < b.len() && 0 <= q < b.len() && p != q implies #[trigger] b[p].0.key() != #[trigger] b[q].0.key() by {
        assert(a[p].0.key() == b[p].0.key() && a[q].0.key() == b[q].0.key());
    }
    assert forall|k: A::Key| #[trigger] has_key(b, k) <==> has_key(a, k) by {
        if has_key(b, k) {
            let p = choose|p: int| 0 <= p < b.len() && #[trigger] b[p].0.key() == k;
            assert(a[p].0.key() == k);
        }
        if has_key(a, k) {
            let p = choose|p: int| 0 <= p < a.len() && #[trigger] a[p].0.key() == k;
            assert(b[p].0.key() == k);
        }
    }
    assert forall|k: A::Key| has_key(b, k) implies #[trigger] items_map(b)[k] == items_map(a).insert(v.key(), (v, c.hash))[k] by {
        let p = choose|p: int| 0 <= p < b.len() && #[trigger] b[p].0.key() == k;
        crate::model::lemma_items_map_at(b, p);
        crate::model::lemma_items_map_at(a, p);
        if k == v.key() {
            crate::model::lemma_items_map_at(b, i);
        }
    }
    crate::model::lemma_items_map_at(a, i);
    assert(items_map(b) =~= items_map(a).insert(v.key(), (v, c.hash)));
    assert forall|y: (A, HashBits)| #[trigger] contains_item(b, y) implies contains_item(a, y) || y == (v, c.hash) by {
        let p = choose|p: int| 0 <= p < b.len() && b[p] == y;
        if p != i {
            assert(a[p] == y);
        }
    }
}

/// A collision node that gains a value with a new key at its end.
pub proof fn lemma_coll_push<A: HashValue>(c: crate::node::CollisionNode<A>, c2: crate::node::CollisionNode<A>, v: A)
    requires
        crate::node::coll_wf(c),
        crate::collision::no_key(c.data@, v.key()),
        c2.hash == c.hash,
        c2.data@ == c.data@.push(v),
    ensures
        crate::node::coll_wf(c2),
        items_map(crate::node::coll_items(c2)) == items_map(crate::node::coll_items(c)).insert(v.key(), (v, c.hash)),
        forall|y: (A, HashBits)| #[trigger] contains_item(crate::node::coll_items(c2), y) ==> contains_item(crate::node::coll_items(c), y) || y == (v, c.hash),
{
    let a = crate::node::coll_items(c);
    let b = crate::node::coll_items(c2);
    assert(b =~= a.push((v, c.hash)));
    assert forall|p: int, q: int| 0 <= p < b.len() && 0 <= q < b.len() && p != q implies #[trigger] b[p].0.key() != #[trigger] b[q].0.key() by {
        if p < a.len() && q < a.len() {
            assert(a[p] == b[p] && a[q] == b[q]);
        } else if p < a.len() {
            assert(c.data@[p].key() != v.key());
        } else if q < a.len() {
            assert(c.data@[q].key() != v.key());
        }
    }
    assert forall|k: A::Key| #[trigger] has_key(b, k) <==> (has_key(a, k) || k == v.key()) by {
        if has_key(b, k) {
            let p = choose|p: int| 0 <= p < b.len() && #[trigger] b[p].0.key() == k;
            if p < a.len() {
                assert(a[p] == b[p]);
            }
        }
        if has_key(a, k) {
            let p = choose|p: int| 0 <= p < a.len() && #[trigger] a[p].0.key() == k;
            assert(b[p] == a[p]);
        }
        if k == v.key() {
            assert(b[a.len() as int].0.key() == k);
        }
    }
    assert forall|k: A::Key| has_key(b, k) implies #[trigger] items_map(b)[k] == items_map(a).insert(v.key(), (v, c.hash))[k] by {
        let p = choose|p: int| 0 <= p < b.len() && #[trigger] b[p].0.key() == k;
        crate::model::lemma_items_map_at(b, p);
        if p < a.len() {
            assert(a[p] == b[p]);
            crate::model::lemma_items_map_at(a, p);
            assert(c.data@[p].key() != v.key());
        }
    }
    assert(items_map(b) =~= items_map(a).insert(v.key(), (v, c.hash)));
    assert forall|y: (A, HashBits)| #[trigger] contains_item(b, y) implies contains_item(a, y) || y == (v, c.hash) by {
        let p = choose|p: int| 0 <= p < b.len() && b[p] == y;
        if p < a.len() {
            assert(a[p] == y);
        }
    }
}

/// A node whose slots are all empty is well formed at any valid level, and
/// holds nothing.
pub proof fn lemma_empty_node<A: HashValue>(n: Node<A>, shift: nat)
    requires
        valid_shift(shift),
        n.data.wf(),
        n.data.slots@ == crate::chunk::empty_slots::<Entry<A>>(HASH_WIDTH as nat),
    ensures
        node_wf(n, shift),
        node_items(n) == Seq::<(A, HashBits)>::empty(),
        n@ == Map::<A::Key, (A, HashBits)>::empty(),
{
    crate::node::lemma_empty_slots_items::<A>(HASH_WIDTH as nat);
    crate::model::lemma_map_empty::<A>();
    crate::chunk::lemma_count_empty::<Entry<A>>(HASH_WIDTH as nat);
}

/// With unique keys, the items before slot `j + 1` map as those before `j`
/// together with those of slot `j`, which share no key with them.
pub proof fn lemma_prefix_step<A: HashValue>(s: Seq<Option<Entry<A>>>, j: int)
    requires
        0 <= j < s.len(),
        keys_unique(slots_items(s, 0)),
    ensures
        keys_unique(slots_prefix(s, (j + 1) as nat)),
        keys_unique(slots_prefix(s, j as nat)),
        keys_disjoint(slots_prefix(s, j as nat), opt_items(s[j])),
        items_map(slots_prefix(s, (j + 1) as nat)) == items_map(slots_prefix(s, j as nat)).union_prefer_right(items_map(opt_items(s[j]))),
{
    crate::node::lemma_slots_split(s, (j + 1) as nat);
    crate::model::lemma_unique_concat(slots_prefix(s, (j + 1) as nat), slots_items(s, (j + 1) as nat));
    crate::model::lemma_unique_concat(slots_prefix(s, j as nat), opt_items(s[j]));
    crate::model::lemma_map_concat(slots_prefix(s, j as nat), opt_items(s[j]));
}

/// In a branching node, the items under slot `j` have hashes that agree,
/// below the next level, with a hash that takes slot `j` and agrees with all
/// the node's items below this level.
pub proof fn lemma_child_agree<A: HashValue>(n: Node<A>, shift: nat, j: int, hash: HashBits)
    requires
        node_wf(n, shift),
        !n.linear_probing,
        shift + 5 <= 30,
        0 <= j < HASH_WIDTH,
        slot_of(hash, shift) == j,
        agree_with(node_items(n), hash, shift),
    ensures
        agree_with(opt_items(n.data.slots@[j]), hash, shift + 5),
{
    let s = n.data.slots@;
    crate::node::lemma_branch_items(n, shift, j);
    assert forall|t: int| 0 <= t < opt_items(s[j]).len() implies agree_below(#[trigger] opt_items(s[j])[t].1, hash, shift + 5) by {
        crate::node::lemma_slot_item_in(s, j, t);
        let i = choose|i: int| 0 <= i < node_items(n).len() && node_items(n)[i] == opt_items(s[j])[t];
        assert(agree_below(node_items(n)[i].1, hash, shift));
        crate::bits::lemma_agree_step(opt_items(s[j])[t].1, hash, shift);
    }
}

/// The map of what slot `j` holds agrees with the node's map.
pub proof fn lemma_slot_submap<A: HashValue>(n: Node<A>, shift: nat, j: int, k: A::Key)
    requires
        node_wf(n, shift),
        0 <= j < HASH_WIDTH,
        items_map(opt_items(n.data.slots@[j])).contains_key(k),
    ensures
        n@.contains_key(k),
        n@[k] == items_map(opt_items(n.data.slots@[j]))[k],
{
    crate::node::lemma_map_slot(n.data.slots@, j, k);
}

/// Two nodes with the same mode, slots and count are alike in every way the
/// specifications see.
pub proof fn lemma_same_node<A: HashValue>(a: Node<A>, b: Node<A>, shift: nat)
    requires
        a.linear_probing == b.linear_probing,
        a.data.slots@ == b.data.slots@,
        a.data.len == b.data.len,
    ensures
        node_wf(a, shift) == node_wf(b, shift),
        node_items(a) == node_items(b),
        a@ == b@,
{
}

/// Replacing what slot `j` holds by something whose items are among the old
/// ones and whose map is the old one without `k`: the keys stay unique, the
/// map loses `k`, and no item is added.
pub proof fn lemma_slot_lose<A: HashValue>(s: Seq<Option<Entry<A>>>, j: int, x: Option<Entry<A>>, k: A::Key)
    requires
        0 <= j < s.len(),
        keys_unique(slots_items(s, 0)),
        keys_unique(opt_items(x)),
        forall|y: (A, HashBits)| #[trigger] contains_item(opt_items(x), y) ==> contains_item(opt_items(s[j]), y),
        items_map(opt_items(x)) == items_map(opt_items(s[j])).remove(k),
        items_map(slots_items(s, 0)).contains_key(k) ==> items_map(opt_items(s[j])).contains_key(k),
    ensures
        keys_unique(slots_items(s.update(j, x), 0)),
        items_map(slots_items(s.update(j, x), 0)) == items_map(slots_items(s, 0)).remove(k),
        forall|y: (A, HashBits)| #[trigger] contains_item(slots_items(s.update(j, x), 0), y) ==> contains_item(slots_items(s, 0), y),
{
    let p = slots_prefix(s, j as nat);
    let q = slots_items(s, (j + 1) as nat);
    let xs = opt_items(x);
    let old_j = opt_items(s[j]);
    lemma_map_split(s, j);
    assert forall|a: int, b: int| 0 <= a < xs.len() && 0 <= b < (p + q).len() implies #[trigger] xs[a].0.key()
        != #[trigger] (p + q)[b].0.key() by {
        assert(contains_item(xs, xs[a]));
        let i = choose|i: int| 0 <= i < old_j.len() && old_j[i] == xs[a];
        assert(old_j[i].0.key() != (p + q)[b].0.key());
    }
    lemma_map_replace(s, j, x);
    assert forall|kk: A::Key| #[trigger] items_map(old_j).contains_key(kk) implies !items_map(p + q).contains_key(kk) by {
        crate::model::lemma_disjoint_has_key(old_j, p + q, kk);
    }
    assert(items_map(slots_items(s.update(j, x), 0)) =~= items_map(slots_items(s, 0)).remove(k));
    assert forall|y: (A, HashBits)| #[trigger] contains_item(slots_items(s.update(j, x), 0), y) implies contains_item(slots_items(s, 0), y) by {
        lemma_members_replace(s, j, x, y);
    }
}

/// In a branching node, replacing what slot `j` holds by something that may
/// stand there, whose items are among the old ones and whose map is the old
/// one without `k`: the node stays well formed and its map loses `k`.
pub proof fn lemma_branch_lose<A: HashValue>(n: Node<A>, n2: Node<A>, shift: nat, j: int, x: Option<Entry<A>>, k: A::Key)
    requires
        node_wf(n, shift),
        !n.linear_probing,
        0 <= j < HASH_WIDTH,
        !n2.linear_probing,
        n2.data.wf(),
        n2.data.slots@ == n.data.slots@.update(j, x),
        x is Some ==> branch_slot_ok(x->0, shift, j),
        keys_unique(opt_items(x)),
        forall|y: (A, HashBits)| #[trigger] contains_item(opt_items(x), y) ==> contains_item(opt_items(n.data.slots@[j]), y),
        items_map(opt_items(x)) == items_map(opt_items(n.data.slots@[j])).remove(k),
        n@.contains_key(k) ==> items_map(opt_items(n.data.slots@[j])).contains_key(k),
    ensures
        node_wf(n2, shift),
        n2@ == n@.remove(k),
        forall|y: (A, HashBits)| #[trigger] contains_item(node_items(n2), y) ==> contains_item(node_items(n), y),
{
    let s = n.data.slots@;
    lemma_slot_lose(s, j, x, k);
    crate::model::lemma_agree_subset(node_items(n2), node_items(n), shift);
    assert forall|i: int| #![trigger n2.data.slots@[i]] 0 <= i < HASH_WIDTH && n2.data.slots@[i] is Some implies branch_slot_ok(
        n2.data.slots@[i]->0,
        shift,
        i,
    ) by {
        if i != j {
            assert(n2.data.slots@[i] == s[i]);
        }
    }
}

/// Slots of which only slot `i` is occupied hold just its items.
pub proof fn lemma_single_slot<A>(s: Seq<Option<Entry<A>>>, i: int)
    requires
        0 <= i < s.len(),
        s[i] is Some,
        crate::chunk::count_some(s) == 1,
    ensures
        slots_items(s, 0) == opt_items(s[i]),
        forall|m: int| 0 <= m < s.len() && m != i ==> #[trigger] s[m] is None,
{
    let t = s.update(i, None);
    crate::chunk::lemma_count_update(s, i, None);
    crate::chunk::lemma_count_zero(t);
    assert forall|m: int| 0 <= m < s.len() && m != i implies #[trigger] s[m] is None by {
        assert(t[m] == s[m]);
    }
    crate::node::lemma_slot_replace(s, i, None);
    assert(t =~= crate::chunk::empty_slots::<Entry<A>>(s.len()));
    crate::node::lemma_empty_slots_items::<A>(s.len());
    crate::node::lemma_slot_replace(s, i, None);
    assert(slots_prefix(s, i as nat) + opt_items(None::<Entry<A>>) + slots_items(s, (i + 1) as nat) == Seq::<(A, HashBits)>::empty());
    assert(slots_prefix(s, i as nat).len() == 0);
    assert(slots_items(s, (i + 1) as nat).len() == 0);
    assert(slots_items(s, 0) =~= opt_items(s[i]));
}

/// Going round the slots from `i`: if `h` comes no later than `p`, and `p`
/// comes before `h` going round from `n`, where `n` is not `h`, then `n`
/// comes no later than `p`.
pub proof fn lemma_cyc_between(i: int, h: int, p: int, n: int)
    requires
        0 <= i < 32,
        0 <= h < 32,
        0 <= p < 32,
        0 <= n < 32,
        n != h,
        cyc_dist(i, h) <= cyc_dist(i, p),
        cyc_dist(n, p) < cyc_dist(n, h),
    ensures
        cyc_dist(i, n) <= cyc_dist(i, p),
{
    lemma_cyc_def(i, h);
    lemma_cyc_def(i, p);
    lemma_cyc_def(i, n);
    lemma_cyc_def(n, p);
    lemma_cyc_def(n, h);
}

/// The distance going round, without the remainder.
pub proof fn lemma_cyc_def(a: int, b: int)
    requires
        0 <= a < 32,
        0 <= b < 32,
    ensures
        cyc_dist(a, b) == if b >= a {
            b - a
        } else {
            b - a + 32
        },
{
}

/// While values are shifted back into the hole left by a removal from a node
/// with linear probing: `hole` is empty; every value's stretch, from its own
/// slot to where it sits, is occupied but for the hole; and a value whose
/// stretch holds the hole has not been looked at yet (it lies from `next`
/// on, before the hole).
pub open spec fn shifting_ok<A>(t: Seq<Option<Entry<A>>>, shift: nat, hole: int, next: int) -> bool {
    &&& t.len() == HASH_WIDTH
    &&& 0 <= hole < HASH_WIDTH
    &&& 0 <= next < HASH_WIDTH
    &&& t[hole] is None
    &&& forall|p: int|
        #![trigger t[p]]
        0 <= p < HASH_WIDTH && t[p] is Some ==> {
            &&& is_value(t[p]->0)
            &&& forall|q: int|
                0 <= q < HASH_WIDTH && cyc_dist(slot_of(value_hash(t[p]->0), shift), q) <= cyc_dist(
                    slot_of(value_hash(t[p]->0), shift),
                    p,
                ) ==> #[trigger] t[q] is Some || q == hole
            &&& cyc_dist(slot_of(value_hash(t[p]->0), shift), hole) <= cyc_dist(
                slot_of(value_hash(t[p]->0), shift),
                p,
            ) ==> cyc_dist(next, p) < cyc_dist(next, hole)
        }
}

/// Taking a value out of a node with linear probing leaves a hole from which
/// shifting can start at the next slot.
pub proof fn lemma_shift_start<A: HashValue>(n: Node<A>, shift: nat, hole: int)
    requires
        node_wf(n, shift),
        n.linear_probing,
        0 <= hole < HASH_WIDTH,
        n.data.slots@[hole] is Some,
    ensures
        shifting_ok(n.data.slots@.update(hole, None), shift, hole, (hole + 1) % 32),
{
    let s = n.data.slots@;
    let t = s.update(hole, None);
    assert forall|p: int| #![trigger t[p]] 0 <= p < HASH_WIDTH && t[p] is Some implies {
        &&& is_value(t[p]->0)
        &&& forall|q: int|
            0 <= q < HASH_WIDTH && cyc_dist(slot_of(value_hash(t[p]->0), shift), q) <= cyc_dist(
                slot_of(value_hash(t[p]->0), shift),
                p,
            ) ==> #[trigger] t[q] is Some || q == hole
        &&& cyc_dist(slot_of(value_hash(t[p]->0), shift), hole) <= cyc_dist(
            slot_of(value_hash(t[p]->0), shift),
            p,
        ) ==> cyc_dist((hole + 1) % 32, p) < cyc_dist((hole + 1) % 32, hole)
    } by {
        assert(s[p] == t[p]);
        assert forall|q: int|
            0 <= q < HASH_WIDTH && cyc_dist(slot_of(value_hash(t[p]->0), shift), q) <= cyc_dist(
                slot_of(value_hash(t[p]->0), shift),
                p,
            ) implies #[trigger] t[q] is Some || q == hole by {
            assert(s[q] is Some);
        }
    }
}

/// Stepping to the next slot brings every other slot one step nearer.
pub proof fn lemma_cyc_succ(n: int, p: int)
    requires
        0 <= n < 32,
        0 <= p < 32,
        p != n,
    ensures
        cyc_dist((n + 1) % 32, p) == cyc_dist(n, p) - 1,
{
    lemma_cyc_def(n, p);
    lemma_cyc_def((n + 1) % 32, p);
}

/// Passing over a value whose stretch does not hold the hole.
pub proof fn lemma_shift_skip<A>(t: Seq<Option<Entry<A>>>, shift: nat, hole: int, next: int)
    requires
        shifting_ok(t, shift, hole, next),
        t[next] is Some,
        !(cyc_dist(slot_of(value_hash(t[next]->0), shift), hole) < cyc_dist(slot_of(value_hash(t[next]->0), shift), next)),
    ensures
        shifting_ok(t, shift, hole, (next + 1) % 32),
{
    assert(hole != next);
    lemma_cyc_succ(next, hole);
    assert forall|p: int| #![trigger t[p]]
        0 <= p < HASH_WIDTH && t[p] is Some && cyc_dist(slot_of(value_hash(t[p]->0), shift), hole) <= cyc_dist(
            slot_of(value_hash(t[p]->0), shift),
            p,
        ) implies cyc_dist((next + 1) % 32, p) < cyc_dist((next + 1) % 32, hole) by {
        if p != next {
            lemma_cyc_succ(next, p);
        }
    }
}

/// Moving a value whose stretch holds the hole back into it: the hole moves
/// to where the value was.
#[verifier::spinoff_prover]
#[verifier::rlimit(50)]
pub proof fn lemma_shift_move<A>(t: Seq<Option<Entry<A>>>, shift: nat, hole: int, next: int)
    requires
        shifting_ok(t, shift, hole, next),
        t[next] is Some,
        cyc_dist(slot_of(value_hash(t[next]->0), shift), hole) < cyc_dist(slot_of(value_hash(t[next]->0), shift), next),
    ensures
        shifting_ok(t.update(next, None).update(hole, t[next]), shift, next, (next + 1) % 32),
{
    let u = t.update(next, None).update(hole, t[next]);
    let i0 = slot_of(value_hash(t[next]->0), shift);
    assert(hole != next);
    assert forall|p: int| #![trigger u[p]] 0 <= p < HASH_WIDTH && u[p] is Some implies {
        &&& is_value(u[p]->0)
        &&& forall|q: int|
            0 <= q < HASH_WIDTH && cyc_dist(slot_of(value_hash(u[p]->0), shift), q) <= cyc_dist(
                slot_of(value_hash(u[p]->0), shift),
                p,
            ) ==> #[trigger] u[q] is Some || q == next
        &&& cyc_dist(slot_of(value_hash(u[p]->0), shift), next) <= cyc_dist(
            slot_of(value_hash(u[p]->0), shift),
            p,
        ) ==> cyc_dist((next + 1) % 32, p) < cyc_dist((next + 1) % 32, next)
    } by {
        if p == hole {
            assert(u[p] == t[next]);
            assert forall|q: int|
                0 <= q < HASH_WIDTH && cyc_dist(i0, q) <= cyc_dist(i0, p) implies #[trigger] u[q] is Some || q == next by {
                assert(cyc_dist(i0, q) <= cyc_dist(i0, next));
                assert(t[q] is Some || q == hole);
            }
        } else {
            assert(u[p] == t[p]);
            assert forall|q: int|
                0 <= q < HASH_WIDTH && cyc_dist(slot_of(value_hash(u[p]->0), shift), q) <= cyc_dist(
                    slot_of(value_hash(u[p]->0), shift),
                    p,
                ) implies #[trigger] u[q] is Some || q == next by {
                assert(t[q] is Some || q == hole);
            }
        }
    }
}

/// Shifting stops at an empty slot, and then the node's slots are again
/// laid out for linear probing.
pub proof fn lemma_shift_done<A>(t: Seq<Option<Entry<A>>>, shift: nat, hole: int, next: int)
    requires
        shifting_ok(t, shift, hole, next),
        t[next] is None,
    ensures
        probing_ok(t, shift),
{
    assert forall|p: int| #![trigger t[p]] 0 <= p < t.len() && t[p] is Some implies {
        &&& is_value(t[p]->0)
        &&& forall|q: int|
            0 <= q < t.len() && cyc_dist(slot_of(value_hash(t[p]->0), shift), q) <= cyc_dist(
                slot_of(value_hash(t[p]->0), shift),
                p,
            ) ==> #[trigger] t[q] is Some
    } by {
        let i0 = slot_of(value_hash(t[p]->0), shift);
        crate::bits::lemma_slot_bound(value_hash(t[p]->0), shift as u32);
        assert forall|q: int|
            0 <= q < t.len() && cyc_dist(i0, q) <= cyc_dist(i0, p) implies #[trigger] t[q] is Some by {
            if q == hole {
                if next != hole {
                    lemma_cyc_between(i0, hole, p, next);
                    assert(t[next] is Some || next == hole);
                }
            }
        }
    }
}

/// The distance the slot arithmetic computes with a wrapping subtraction.
pub proof fn lemma_wrap_dist(a: usize, b: usize)
    requires
        a < 32,
        b < 32,
    ensures
        (vstd::wrapping::usize_specs::wrapping_sub(a, b) % 32) as int == cyc_dist(b as int, a as int),
{
    if a < b {
        assert(usize::MAX == 0xffff_ffff || usize::MAX == 0xffff_ffff_ffff_ffff);
        let w = vstd::wrapping::usize_specs::wrapping_sub(a, b);
        assert(w as int == a - b + usize::MAX + 1);
        if usize::MAX == 0xffff_ffff {
            assert((a - b + 0x1_0000_0000int) % 32 == (a - b) % 32);
        } else {
            assert((a - b + 0x1_0000_0000_0000_0000int) % 32 == (a - b) % 32);
        }
    }
}

/// Moving the value in slot `from` to the empty slot `to` keeps the keys
/// unique, the map, the items and the count.
pub proof fn lemma_move_value<A: HashValue>(t: Seq<Option<Entry<A>>>, from: int, to: int)
    requires
        0 <= from < t.len(),
        0 <= to < t.len(),
        t[from] is Some,
        is_value(t[from]->0),
        t[to] is None,
        keys_unique(slots_items(t, 0)),
    ensures
        keys_unique(slots_items(t.update(from, None).update(to, t[from]), 0)),
        items_map(slots_items(t.update(from, None).update(to, t[from]), 0)) == items_map(slots_items(t, 0)),
        forall|y: (A, HashBits)| #[trigger] contains_item(slots_items(t.update(from, None).update(to, t[from]), 0), y) ==> contains_item(slots_items(t, 0), y),
        crate::chunk::count_some(t.update(from, None).update(to, t[from])) == crate::chunk::count_some(t),
{
    let e = t[from]->0;
    let (v, h) = (e->Value_0, e->Value_1);
    let u = t.update(from, None);
    assert(from != to);
    crate::node::lemma_map_clear_slot(t, from);
    lemma_value_items(v, h);
    crate::model::lemma_map_single(v, h);
    assert(items_map(opt_items(t[from])).dom() =~= set![v.key()]);
    assert(!items_map(slots_items(u, 0)).contains_key(v.key()));
    crate::node::lemma_put_value(u, to, v, h);
    lemma_slot_value(t, from);
    assert(items_map(slots_items(u.update(to, t[from]), 0)) =~= items_map(slots_items(t, 0)));
    assert forall|y: (A, HashBits)| #[trigger] contains_item(slots_items(u.update(to, t[from]), 0), y) implies contains_item(slots_items(t, 0), y) by {
        if y == (v, h) {
            crate::node::lemma_slot_item_in(t, from, 0);
        }
    }
    crate::chunk::lemma_count_update(t, from, None);
    crate::chunk::lemma_count_update(u, to, t[from]);
}

/// A collision node that loses the value at `i`: keys stay unique, the map
/// loses that value's key, and no item is added.
pub proof fn lemma_coll_remove<A: HashValue>(c: crate::node::CollisionNode<A>, c2: crate::node::CollisionNode<A>, i: int)
    requires
        keys_unique(crate::node::coll_items(c)),
        0 <= i < c.data@.len(),
        c2.hash == c.hash,
        c2.data@ == c.data@.remove(i),
    ensures
        keys_unique(crate::node::coll_items(c2)),
        items_map(crate::node::coll_items(c2)) == items_map(crate::node::coll_items(c)).remove(c.data@[i].key()),
        forall|y: (A, HashBits)| #[trigger] contains_item(crate::node::coll_items(c2), y) ==> contains_item(crate::node::coll_items(c), y),
{
    let a = crate::node::coll_items(c);
    let b = crate::node::coll_items(c2);
    let k = c.data@[i].key();
    assert(b =~= a.remove(i));
    assert forall|p: int, q: int| 0 <= p < b.len() && 0 <= q < b.len() && p != q implies #[trigger] b[p].0.key() != #[trigger] b[q].0.key() by {
        let pp = if p < i { p } else { p + 1 };
        let qq = if q < i { q } else { q + 1 };
        assert(b[p] == a[pp] && b[q] == a[qq]);
    }
    assert forall|kk: A::Key| #[trigger] has_key(b, kk) <==> (has_key(a, kk) && kk != k) by {
        if has_key(b, kk) {
            let p = choose|p: int| 0 <= p < b.len() && #[trigger] b[p].0.key() == kk;
            let pp = if p < i { p } else { p + 1 };
            assert(b[p] == a[pp]);
            assert(a[pp].0.key() != a[i].0.key());
        }
        if has_key(a, kk) && kk != k {
            let p = choose|p: int| 0 <= p < a.len() && #[trigger] a[p].0.key() == kk;
            if p < i {
                assert(b[p] == a[p]);
            } else {
                assert(p != i);
                assert(b[p - 1] == a[p]);
            }
        }
    }
    assert forall|kk: A::Key| has_key(b, kk) implies #[trigger] items_map(b)[kk] == items_map(a)[kk] by {
        let p = choose|p: int| 0 <= p < b.len() && #[trigger] b[p].0.key() == kk;
        let pp = if p < i { p } else { p + 1 };
        assert(b[p] == a[pp]);
        crate::model::lemma_items_map_at(b, p);
        crate::model::lemma_items_map_at(a, pp);
    }
    assert(items_map(b) =~= items_map(a).remove(k));
    assert forall|y: (A, HashBits)| #[trigger] contains_item(b, y) implies contains_item(a, y) by {
        let p = choose|p: int| 0 <= p < b.len() && b[p] == y;
        let pp = if p < i { p } else { p + 1 };
        assert(b[p] == a[pp]);
    }
}

/// In a branching node that maps the key of `x` to an item with the hash of
/// `x`, putting in slot `j` an entry whose map is the old slot's with that key
/// given `x`: the node stays well formed and its map gives the key `x`.
pub proof fn lemma_slot_refresh<A: HashValue>(n: Node<A>, n2: Node<A>, shift: nat, j: int, x: (A, HashBits))
    requires
        node_wf(n, shift),
        !n.linear_probing,
        0 <= j < HASH_WIDTH,
        n.data.slots@[j] is Some,
        !n2.linear_probing,
        n2.data.len == n.data.len,
        n2.data.slots@ == n.data.slots@.update(j, n2.data.slots@[j]),
        n2.data.slots@[j] is Some,
        branch_slot_ok(n2.data.slots@[j]->0, shift, j) || (shift + 5 <= 30 && child_wf(n2.data.slots@[j]->0, shift + 5)),
        keys_unique(opt_items(n2.data.slots@[j])),
        items_map(opt_items(n2.data.slots@[j])) == items_map(opt_items(n.data.slots@[j])).insert(x.0.key(), x),
        n@.contains_key(x.0.key()),
        n@[x.0.key()].1 == x.1,
        slot_of(x.1, shift) == j,
        !is_value(n.data.slots@[j]->0),
    ensures
        node_wf(n2, shift),
        n2@ == n@.insert(x.0.key(), x),
{
    let s = n.data.slots@;
    let e_new = n2.data.slots@[j]->0;
    let k = x.0.key();
    crate::chunk::lemma_count_update(s, j, Some(e_new));
    crate::node::lemma_slot_unique(s, j);
    crate::model::lemma_insert_members(opt_items(s[j]), entry_items(e_new), x);
    crate::node::lemma_branch_items(n, shift, j);
    lemma_node_holds_enough(n, shift);
    lemma_count_by_map(opt_items(s[j]), entry_items(e_new));
    assert(entry_items(e_new).len() >= 2);
    if !branch_slot_ok(e_new, shift, j) {
        let ei = entry_items(e_new);
        assert forall|t: int| 0 <= t < ei.len() implies slot_of(#[trigger] ei[t].1, shift) == j by {
            assert(contains_item(ei, ei[t]));
            if ei[t] != x {
                let u = choose|u: int| 0 <= u < opt_items(s[j]).len() && opt_items(s[j])[u] == ei[t];
            }
        }
    }
    let items = node_items(n);
    let t = choose|t: int| 0 <= t < items.len() && #[trigger] items[t].0.key() == k;
    crate::model::lemma_items_map_at(items, t);
    assert forall|i: int| 0 <= i < items.len() implies agree_below(#[trigger] items[i].1, x.1, shift) by {
        assert(agree_below(items[i].1, items[t].1, shift));
    }
    crate::node::lemma_branch_key(n, shift, x.1, k);
    lemma_branch_update(n, n2, shift, j, e_new, x);
}

/// `n2` is `n` with only slot `j` changed, to something, in the same mode and
/// with the same count.
pub open spec fn slot_changed<A>(n: Node<A>, n2: Node<A>, j: int) -> bool {
    &&& n2.linear_probing == n.linear_probing
    &&& n2.data.len == n.data.len
    &&& n2.data.slots@ == n.data.slots@.update(j, n2.data.slots@[j])
    &&& n2.data.slots@[j] is Some
}

/// In a branching node, putting in slot `j` an entry that fits the slot and
/// has the same items: the node stays well formed with the same items.
pub proof fn lemma_slot_same<A: HashValue>(n: Node<A>, n2: Node<A>, shift: nat, j: int)
    requires
        node_wf(n, shift),
        !n.linear_probing,
        0 <= j < HASH_WIDTH,
        n.data.slots@[j] is Some,
        slot_changed(n, n2, j),
        branch_slot_ok(n2.data.slots@[j]->0, shift, j) || (shift + 5 <= 30 && child_wf(n2.data.slots@[j]->0, shift + 5)),
        opt_items(n2.data.slots@[j]) == opt_items(n.data.slots@[j]),
        !is_value(n.data.slots@[j]->0),
    ensures
        node_wf(n2, shift),
        node_items(n2) == node_items(n),
{
    let s = n.data.slots@;
    let t = n2.data.slots@;
    lemma_node_holds_enough(n, shift);
    assert(opt_items(t[j]).len() >= 2);
    crate::chunk::lemma_count_update(s, j, t[j]);
    crate::node::lemma_slot_replace(s, j, t[j]);
    crate::node::lemma_branch_items(n, shift, j);
    assert forall|i: int| #![trigger t[i]] 0 <= i < HASH_WIDTH && t[i] is Some implies branch_slot_ok(t[i]->0, shift, i) by {
        if i != j {
            assert(t[i] == s[i]);
        }
    }
}

/// In a branching node, what changing the node in slot `j` in place does: a
/// child with the same items leaves the node as it was, and a child whose map
/// gives `k` a new item with hash `hash` makes the node's map do the same.
pub proof fn lemma_node_child_change<A: HashValue>(n0: Node<A>, shift: nat, below: nat, j: int, k: A::Key, hash: HashBits)
    requires
        below == shift + 5,
        node_wf(n0, shift),
        !n0.linear_probing,
        0 <= j < HASH_WIDTH,
        n0.data.slots@[j] is Some,
        n0.data.slots@[j]->0 is Node,
        slot_of(hash, shift) == j,
        hash_fits(n0@, k, hash),
    ensures
        forall|n2: Node<A>| #![trigger node_wf(n2, shift)] #![trigger n2@] #![trigger node_items(n2)]
            slot_changed(n0, n2, j) && n2.data.slots@[j]->0 is Node
                && node_wf(crate::node::node_of(n2.data.slots@[j]->0), below) ==> {
                let c0 = crate::node::node_of(n0.data.slots@[j]->0);
                let c2 = crate::node::node_of(n2.data.slots@[j]->0);
                &&& node_items(c2) == node_items(c0) ==> node_wf(n2, shift) && node_items(n2) == node_items(n0)
                &&& (c0@.contains_key(k) && c2@.contains_key(k) && c2@[k].0.key() == k && c2@[k].1 == hash
                    && c2@ == c0@.insert(k, c2@[k])) ==> node_wf(n2, shift) && n2@ == n0@.insert(k, c2@[k])
            },
{
    let s = n0.data.slots@;
    let c0 = crate::node::node_of(s[j]->0);
    assert(branch_slot_ok(s[j]->0, shift, j));
    assert forall|n2: Node<A>| #![trigger node_wf(n2, shift)] #![trigger n2@] #![trigger node_items(n2)]
        slot_changed(n0, n2, j) && n2.data.slots@[j]->0 is Node
            && node_wf(crate::node::node_of(n2.data.slots@[j]->0), below) implies {
            let c2 = crate::node::node_of(n2.data.slots@[j]->0);
            &&& node_items(c2) == node_items(c0) ==> node_wf(n2, shift) && node_items(n2) == node_items(n0)
            &&& (c0@.contains_key(k) && c2@.contains_key(k) && c2@[k].0.key() == k && c2@[k].1 == hash
                && c2@ == c0@.insert(k, c2@[k])) ==> node_wf(n2, shift) && n2@ == n0@.insert(k, c2@[k])
        } by {
        let c2 = crate::node::node_of(n2.data.slots@[j]->0);
        assert(opt_items(n2.data.slots@[j]) == node_items(c2));
        assert(opt_items(s[j]) == node_items(c0));
        if node_items(c2) == node_items(c0) {
            lemma_slot_same(n0, n2, shift, j);
        }
        if c0@.contains_key(k) && c2@.contains_key(k) && c2@[k].0.key() == k && c2@[k].1 == hash
            && c2@ == c0@.insert(k, c2@[k]) {
            lemma_slot_submap(n0, shift, j, k);
            lemma_slot_refresh(n0, n2, shift, j, c2@[k]);
        }
    }
}

/// In a branching node, what changing the small node in slot `j` in place
/// does: as for a node.
pub proof fn lemma_small_child_change<A: HashValue>(n0: Node<A>, shift: nat, below: nat, j: int, k: A::Key, hash: HashBits)
    requires
        below == shift + 5,
        node_wf(n0, shift),
        !n0.linear_probing,
        0 <= j < HASH_WIDTH,
        n0.data.slots@[j] is Some,
        n0.data.slots@[j]->0 is SmallNode,
        slot_of(hash, shift) == j,
        hash_fits(n0@, k, hash),
    ensures
        forall|n2: Node<A>| #![trigger node_wf(n2, shift)] #![trigger n2@] #![trigger node_items(n2)]
            slot_changed(n0, n2, j) && n2.data.slots@[j]->0 is SmallNode
                && small_wf(crate::node::small_of(n2.data.slots@[j]->0), below) ==> {
                let c0 = crate::node::small_of(n0.data.slots@[j]->0);
                let c2 = crate::node::small_of(n2.data.slots@[j]->0);
                &&& small_items(c2) == small_items(c0) ==> node_wf(n2, shift) && node_items(n2) == node_items(n0)
                &&& (c0@.contains_key(k) && c2@.contains_key(k) && c2@[k].0.key() == k && c2@[k].1 == hash
                    && c2@ == c0@.insert(k, c2@[k])) ==> node_wf(n2, shift) && n2@ == n0@.insert(k, c2@[k])
            },
{
    let s = n0.data.slots@;
    let c0 = crate::node::small_of(s[j]->0);
    assert(branch_slot_ok(s[j]->0, shift, j));
    assert forall|n2: Node<A>| #![trigger node_wf(n2, shift)] #![trigger n2@] #![trigger node_items(n2)]
        slot_changed(n0, n2, j) && n2.data.slots@[j]->0 is SmallNode
            && small_wf(crate::node::small_of(n2.data.slots@[j]->0), below) implies {
            let c2 = crate::node::small_of(n2.data.slots@[j]->0);
            &&& small_items(c2) == small_items(c0) ==> node_wf(n2, shift) && node_items(n2) == node_items(n0)
            &&& (c0@.contains_key(k) && c2@.contains_key(k) && c2@[k].0.key() == k && c2@[k].1 == hash
                && c2@ == c0@.insert(k, c2@[k])) ==> node_wf(n2, shift) && n2@ == n0@.insert(k, c2@[k])
        } by {
        let c2 = crate::node::small_of(n2.data.slots@[j]->0);
        assert(opt_items(n2.data.slots@[j]) == small_items(c2));
        assert(opt_items(s[j]) == small_items(c0));
        if small_items(c2) == small_items(c0) {
            lemma_slot_same(n0, n2, shift, j);
        }
        if c0@.contains_key(k) && c2@.contains_key(k) && c2@[k].0.key() == k && c2@[k].1 == hash
            && c2@ == c0@.insert(k, c2@[k]) {
            lemma_slot_submap(n0, shift, j, k);
            lemma_slot_refresh(n0, n2, shift, j, c2@[k]);
        }
    }
}

/// In a branching node, what changing the collision node in slot `j` in
/// place does: with the same values it leaves the node as it was, and with
/// the first value with key `k` replaced by one with the same key it makes
/// the node's map give `k` that value.
pub proof fn lemma_coll_child_change<A: HashValue>(n0: Node<A>, shift: nat, j: int, k: A::Key, hash: HashBits)
    requires
        node_wf(n0, shift),
        !n0.linear_probing,
        0 <= j < HASH_WIDTH,
        n0.data.slots@[j] is Some,
        n0.data.slots@[j]->0 is Collision,
        slot_of(hash, shift) == j,
        hash_fits(n0@, k, hash),
    ensures
        forall|n2: Node<A>| #![trigger node_wf(n2, shift)] #![trigger n2@] #![trigger node_items(n2)]
            slot_changed(n0, n2, j) && n2.data.slots@[j]->0 is Collision
                && crate::node::coll_of(n2.data.slots@[j]->0).hash == crate::node::coll_of(n0.data.slots@[j]->0).hash
                && crate::node::coll_of(n2.data.slots@[j]->0).data@ == crate::node::coll_of(n0.data.slots@[j]->0).data@
                ==> node_wf(n2, shift) && node_items(n2) == node_items(n0),
        forall|n2: Node<A>, i: int| #![trigger node_wf(n2, shift), crate::collision::first_with_key(crate::node::coll_of(n0.data.slots@[j]->0).data@, k, i)] #![trigger n2@, crate::collision::first_with_key(crate::node::coll_of(n0.data.slots@[j]->0).data@, k, i)]
            slot_changed(n0, n2, j) && n2.data.slots@[j]->0 is Collision
                && crate::node::coll_of(n2.data.slots@[j]->0).hash == crate::node::coll_of(n0.data.slots@[j]->0).hash
                && crate::collision::first_with_key(crate::node::coll_of(n0.data.slots@[j]->0).data@, k, i)
                && crate::node::coll_of(n2.data.slots@[j]->0).data@
                    == crate::node::coll_of(n0.data.slots@[j]->0).data@.update(i, crate::node::coll_of(n2.data.slots@[j]->0).data@[i])
                && crate::node::coll_of(n2.data.slots@[j]->0).data@[i].key() == k
                ==> node_wf(n2, shift) && n2@ == n0@.insert(k, (crate::node::coll_of(n2.data.slots@[j]->0).data@[i], hash)),
{
    let s = n0.data.slots@;
    let c0 = crate::node::coll_of(s[j]->0);
    assert(branch_slot_ok(s[j]->0, shift, j));
    crate::node::lemma_coll_lookup(c0, k);
    assert forall|n2: Node<A>| #![trigger node_wf(n2, shift)] #![trigger n2@] #![trigger node_items(n2)]
        slot_changed(n0, n2, j) && n2.data.slots@[j]->0 is Collision
            && crate::node::coll_of(n2.data.slots@[j]->0).hash == c0.hash
            && crate::node::coll_of(n2.data.slots@[j]->0).data@ == c0.data@
        implies node_wf(n2, shift) && node_items(n2) == node_items(n0) by {
        let c2 = crate::node::coll_of(n2.data.slots@[j]->0);
        assert(crate::node::coll_items(c2) =~= crate::node::coll_items(c0));
        lemma_slot_same(n0, n2, shift, j);
    }
    assert forall|n2: Node<A>, i: int| #![trigger node_wf(n2, shift), crate::collision::first_with_key(c0.data@, k, i)] #![trigger n2@, crate::collision::first_with_key(c0.data@, k, i)]
        slot_changed(n0, n2, j) && n2.data.slots@[j]->0 is Collision
            && crate::node::coll_of(n2.data.slots@[j]->0).hash == c0.hash
            && crate::collision::first_with_key(c0.data@, k, i)
            && crate::node::coll_of(n2.data.slots@[j]->0).data@
                == c0.data@.update(i, crate::node::coll_of(n2.data.slots@[j]->0).data@[i])
            && crate::node::coll_of(n2.data.slots@[j]->0).data@[i].key() == k
        implies node_wf(n2, shift) && n2@ == n0@.insert(k, (crate::node::coll_of(n2.data.slots@[j]->0).data@[i], hash)) by {
        let c2 = crate::node::coll_of(n2.data.slots@[j]->0);
        let v = c2.data@[i];
        assert(has_key(crate::node::coll_items(c0), k));
        lemma_slot_submap(n0, shift, j, k);
        lemma_coll_update(c0, c2, i, v);
        lemma_slot_refresh(n0, n2, shift, j, (v, c0.hash));
    }
}


/// Every occupied slot of `s` from `j` on holds at least one item, and one
/// that holds no single value holds at least two.
pub open spec fn slots_hold_enough<A>(s: Seq<Option<Entry<A>>>, j: nat) -> bool {
    forall|m: int|
        j <= m < s.len() && #[trigger] s[m] is Some ==> opt_items(s[m]).len() >= 1 && (!is_value(s[m]->0)
            ==> opt_items(s[m]).len() >= 2)
}

/// Where every occupied slot holds enough, slots `j..` hold at least as many
/// items as occupied slots, one more if one of them holds no single value,
/// and exactly as many if all of them hold single values.
pub proof fn lemma_slots_count_items<A: HashValue>(s: Seq<Option<Entry<A>>>, j: nat)
    requires
        j <= s.len(),
        slots_hold_enough(s, j),
    ensures
        slots_items(s, j).len() >= crate::node_impl::occupied(s, j).len(),
        (exists|m: int| j <= m < s.len() && #[trigger] s[m] is Some && !is_value(s[m]->0)) ==> slots_items(s, j).len()
            >= crate::node_impl::occupied(s, j).len() + 1,
        (forall|m: int| j <= m < s.len() && #[trigger] s[m] is Some ==> is_value(s[m]->0)) ==> slots_items(s, j).len()
            == crate::node_impl::occupied(s, j).len(),
    decreases s.len() - j,
{
    if j < s.len() {
        lemma_slots_count_items(s, j + 1);
        crate::node::lemma_slots_step(s, j);
        if s[j as int] is Some {
            let e = s[j as int]->0;
            if is_value(e) {
                lemma_value_items(e->Value_0, e->Value_1);
            }
        }
        if exists|m: int| j <= m < s.len() && #[trigger] s[m] is Some && !is_value(s[m]->0) {
            let m = choose|m: int| j <= m < s.len() && #[trigger] s[m] is Some && !is_value(s[m]->0);
            if m != j {
                assert(j + 1 <= m < s.len() && s[m] is Some && !is_value(s[m]->0));
            }
        }
    }
}

/// In a well-formed node every occupied slot holds enough.
pub proof fn lemma_node_holds_enough<A: HashValue>(n: Node<A>, shift: nat)
    requires
        node_wf(n, shift),
    ensures
        slots_hold_enough(n.data.slots@, 0),
        n.linear_probing ==> forall|m: int| 0 <= m < n.data.slots@.len() && #[trigger] n.data.slots@[m] is Some ==> is_value(n.data.slots@[m]->0),
{
    let s = n.data.slots@;
    assert forall|m: int| 0 <= m < s.len() && #[trigger] s[m] is Some implies opt_items(s[m]).len() >= 1 && (!is_value(s[m]->0)
        ==> opt_items(s[m]).len() >= 2) by {
        let e = s[m]->0;
        if !n.linear_probing {
            assert(branch_slot_ok(e, shift, m));
        }
        if is_value(e) {
            lemma_value_items(e->Value_0, e->Value_1);
        }
    }
}

/// A well-formed node with a single item holds it as a value in its only
/// occupied slot.
pub proof fn lemma_one_item<A: HashValue>(n: Node<A>, shift: nat)
    requires
        node_wf(n, shift),
        node_items(n).len() == 1,
    ensures
        n.data.count() == 1,
        exists|f: int| 0 <= f < HASH_WIDTH && #[trigger] n.data.slots@[f] is Some && is_value(n.data.slots@[f]->0),
{
    let s = n.data.slots@;
    lemma_node_holds_enough(n, shift);
    lemma_slots_count_items(s, 0);
    crate::node_impl::lemma_occupied_count(s, 0);
    assert(s.subrange(0, s.len() as int) =~= s);
    crate::chunk::lemma_count_zero(s);
    if n.data.count() == 0 {
        assert(s =~= crate::chunk::empty_slots::<Entry<A>>(s.len()));
        crate::node::lemma_empty_slots_items::<A>(s.len());
    }
    let f = choose|f: int| 0 <= f < s.len() && !(s[f] is None);
    assert(s[f] is Some);
}

/// A well-formed small node has as many items as occupied slots.
pub proof fn lemma_small_count<A: HashValue>(n: SmallNode<A>, shift: nat)
    requires
        small_wf(n, shift),
    ensures
        small_items(n).len() == n.data.count(),
{
    let s = n.data.slots@;
    assert forall|m: int| 0 <= m < s.len() && #[trigger] s[m] is Some implies opt_items(s[m]).len() >= 1 && (!is_value(s[m]->0)
        ==> opt_items(s[m]).len() >= 2) by {
        let e = s[m]->0;
        lemma_value_items(e->Value_0, e->Value_1);
    }
    lemma_slots_count_items(s, 0);
    crate::node_impl::lemma_occupied_count(s, 0);
    assert(s.subrange(0, s.len() as int) =~= s);
}

/// Items with unique keys whose map keeps every key of another such
/// sequence's map have at least as many items.
pub proof fn lemma_count_by_map<A: HashValue>(a: Seq<(A, HashBits)>, b: Seq<(A, HashBits)>)
    requires
        keys_unique(a),
        keys_unique(b),
        items_map(a).dom().subset_of(items_map(b).dom()),
    ensures
        a.len() <= b.len(),
{
    crate::model::lemma_map_len(a);
    crate::model::lemma_map_len(b);
    vstd::set_lib::lemma_len_subset(items_map(a).dom(), items_map(b).dom());
}


/// In a branching node, something that takes the place of a child and whose
/// map is the child's with one more item still holds two or more items.
pub proof fn lemma_gain_keeps_two<A: HashValue>(n: Node<A>, shift: nat, j: int, e_new: Entry<A>, x: (A, HashBits))
    requires
        node_wf(n, shift),
        !n.linear_probing,
        0 <= j < HASH_WIDTH,
        n.data.slots@[j] is Some,
        !is_value(n.data.slots@[j]->0),
        keys_unique(entry_items(e_new)),
        items_map(entry_items(e_new)) == items_map(opt_items(n.data.slots@[j])).insert(x.0.key(), x),
    ensures
        entry_items(e_new).len() >= 2,
{
    lemma_node_holds_enough(n, shift);
    crate::node::lemma_slot_unique(n.data.slots@, j);
    lemma_count_by_map(opt_items(n.data.slots@[j]), entry_items(e_new));
}


/// Items with unique keys whose map is another such sequence's map without
/// key `k` have at most one item fewer, and as many when `k` was not there.
pub proof fn lemma_lose_count<A: HashValue>(a: Seq<(A, HashBits)>, b: Seq<(A, HashBits)>, k: A::Key)
    requires
        keys_unique(a),
        keys_unique(b),
        items_map(b) == items_map(a).remove(k),
    ensures
        b.len() + 1 >= a.len(),
        !items_map(a).contains_key(k) ==> b.len() == a.len(),
{
    crate::model::lemma_map_len(a);
    crate::model::lemma_map_len(b);
    assert(items_map(b).dom() =~= items_map(a).dom().remove(k));
    if !items_map(a).contains_key(k) {
        assert(items_map(b).dom() =~= items_map(a).dom());
    }
}

} // verus!
