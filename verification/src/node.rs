//! The nodes of the trie, what each holds, and when a node is well formed.
//!
//! A `Node` has 32 slots; at level `shift` a value goes to the slot picked by
//! bits `shift..shift + 5` of its hash. A node starts out with linear
//! probing: it holds only values, each at its slot or, if that is taken, at
//! the next free slot after it. Once it would hold more than 16 values it
//! turns into a branching node, in which each slot holds one value, a child
//! for the values that share that slot, or (at the last level) a collision
//! node for values with equal hashes.

use vstd::prelude::*;
use std::sync::Arc;
use crate::bits::{agree_below, cyc_dist, slot_of, small_slot_of, valid_shift, HashBits, HASH_WIDTH, SMALL_NODE_WIDTH};
use crate::chunk::Chunk;
use crate::model::{all_in_slot, contains_item, has_key, hashes_agree, items_map, keys_disjoint, keys_unique, lemma_map_concat, lemma_unique_concat};
use crate::value::HashValue;

verus! {

/// A node of the trie.
pub struct Node<A> {
    /// Whether this node is using linear probing for collision resolution.
    /// When true all child nodes are `Value`s.
    pub linear_probing: bool,
    /// The slots.
    pub data: Chunk<Entry<A>, HASH_WIDTH>,
}

/// A node of 16 slots that holds only values, each at the slot picked by
/// bits `shift..shift + 4` of its hash.
pub struct SmallNode<A> {
    /// The slots.
    pub data: Chunk<Entry<A>, SMALL_NODE_WIDTH>,
}

/// Values whose hashes are all equal.
pub struct CollisionNode<A> {
    /// The hash that all the values share.
    pub hash: HashBits,
    /// The values.
    pub data: Vec<A>,
}

/// What a slot of a node holds.
pub enum Entry<A> {
    /// A value and its hash.
    Value(A, HashBits),
    /// Values with equal hashes.
    Collision(Arc<CollisionNode<A>>),
    /// A child node.
    Node(Arc<Node<A>>),
    /// A small child node.
    SmallNode(Arc<SmallNode<A>>),
}

/// The items of a collision node, each with the shared hash.
pub open spec fn coll_items<A>(c: CollisionNode<A>) -> Seq<(A, HashBits)> {
    Seq::new(c.data@.len(), |i: int| (c.data@[i], c.hash))
}

/// The items under an entry, in the order a traversal meets them.
pub open spec fn entry_items<A>(e: Entry<A>) -> Seq<(A, HashBits)>
    decreases e, 0nat, 0nat,
{
    match e {
        Entry::Value(v, h) => seq![(v, h)],
        Entry::Collision(c) => coll_items(*c),
        Entry::Node(n) => {
            proof {
                assert(decreases_to!(n => n.data));
                assert(decreases_to!(n.data => n.data.slots));
                assert(decreases_to!(n.data.slots => n.data.slots@));
            }
            slots_items(n.data.slots@, 0)
        },
        Entry::SmallNode(n) => {
            proof {
                assert(decreases_to!(n => n.data));
                assert(decreases_to!(n.data => n.data.slots));
                assert(decreases_to!(n.data.slots => n.data.slots@));
            }
            slots_items(n.data.slots@, 0)
        },
    }
}

/// The items under slots `j..` of `s`.
pub open spec fn slots_items<A>(s: Seq<Option<Entry<A>>>, j: nat) -> Seq<(A, HashBits)>
    decreases s, 1nat, s.len() - j,
{
    if j >= s.len() {
        Seq::empty()
    } else {
        match s[j as int] {
            None => slots_items(s, j + 1),
            Some(e) => {
                proof {
                    assert(decreases_to!(s => s[j as int]));
                }
                entry_items(e) + slots_items(s, j + 1)
            },
        }
    }
}

/// The items under one slot.
pub open spec fn opt_items<A>(o: Option<Entry<A>>) -> Seq<(A, HashBits)> {
    match o {
        None => Seq::empty(),
        Some(e) => entry_items(e),
    }
}

/// The items under slots `..j` of `s`.
pub open spec fn slots_prefix<A>(s: Seq<Option<Entry<A>>>, j: nat) -> Seq<(A, HashBits)>
    decreases j,
{
    if j == 0 {
        Seq::empty()
    } else {
        slots_prefix(s, (j - 1) as nat) + opt_items(s[j - 1])
    }
}

/// The items of a node.
pub open spec fn node_items<A>(n: Node<A>) -> Seq<(A, HashBits)> {
    slots_items(n.data.slots@, 0)
}

/// The items of a small node.
pub open spec fn small_items<A>(n: SmallNode<A>) -> Seq<(A, HashBits)> {
    slots_items(n.data.slots@, 0)
}

/// The entry holds a single value.
pub open spec fn is_value<A>(e: Entry<A>) -> bool {
    e is Value
}

/// The hash stored with a single value.
pub open spec fn value_hash<A>(e: Entry<A>) -> HashBits {
    match e {
        Entry::Value(_, h) => h,
        _ => 0,
    }
}

/// Linear probing: every slot holds a single value, and every slot from a
/// value's own slot up to where it sits is occupied.
pub open spec fn probing_ok<A>(s: Seq<Option<Entry<A>>>, shift: nat) -> bool {
    forall|p: int|
        #![trigger s[p]]
        0 <= p < s.len() && s[p] is Some ==> {
            &&& is_value(s[p]->0)
            &&& forall|q: int|
                0 <= q < s.len() && cyc_dist(slot_of(value_hash(s[p]->0), shift), q) <= cyc_dist(
                    slot_of(value_hash(s[p]->0), shift),
                    p,
                ) ==> #[trigger] s[q] is Some
        }
}

/// A collision node holds at least two values, with distinct keys.
pub open spec fn coll_wf<A: HashValue>(c: CollisionNode<A>) -> bool {
    &&& c.data@.len() >= 2
    &&& keys_unique(coll_items(c))
}

/// A small node at level `shift`: only values, each at its slot.
pub open spec fn small_wf<A: HashValue>(n: SmallNode<A>, shift: nat) -> bool {
    &&& valid_shift(shift)
    &&& n.data.wf()
    &&& forall|j: int|
        #![trigger n.data.slots@[j]]
        0 <= j < SMALL_NODE_WIDTH && n.data.slots@[j] is Some ==> {
            &&& is_value(n.data.slots@[j]->0)
            &&& small_slot_of(value_hash(n.data.slots@[j]->0), shift) == j
        }
    &&& keys_unique(small_items(n))
    &&& hashes_agree(small_items(n), shift)
}

/// What slot `j` of a branching node at level `shift` may hold: a value of
/// that slot, or a child or collision node of that slot with two or more
/// items.
pub open spec fn branch_slot_ok<A: HashValue>(e: Entry<A>, shift: nat, j: int) -> bool
    decreases 32 - shift, 0nat,
{
    match e {
        Entry::Value(_, h) => slot_of(h, shift) == j,
        Entry::Collision(c) => shift == 30 && coll_wf(*c) && slot_of(c.hash, shift) == j,
        Entry::Node(c) => shift + 5 <= 30 && node_wf(*c, shift + 5) && all_in_slot(
            node_items(*c),
            shift,
            j,
        ) && node_items(*c).len() >= 2,
        Entry::SmallNode(c) => shift + 5 <= 30 && small_wf(*c, shift + 5) && all_in_slot(
            small_items(*c),
            shift,
            j,
        ) && small_items(*c).len() >= 2,
    }
}

/// A node at level `shift` is well formed.
pub open spec fn node_wf<A: HashValue>(n: Node<A>, shift: nat) -> bool
    decreases 32 - shift, 1nat,
{
    &&& valid_shift(shift)
    &&& n.data.wf()
    &&& if n.linear_probing {
        n.data.len <= 16 && probing_ok(n.data.slots@, shift)
    } else {
        forall|j: int|
            #![trigger n.data.slots@[j]]
            0 <= j < HASH_WIDTH && n.data.slots@[j] is Some ==> branch_slot_ok(
                n.data.slots@[j]->0,
                shift,
                j,
            )
    }
    &&& keys_unique(node_items(n))
    &&& hashes_agree(node_items(n), shift)
}

/// One step of the traversal of slots: slot `j`, then the rest.
pub proof fn lemma_slots_step<A>(s: Seq<Option<Entry<A>>>, j: nat)
    requires
        j < s.len(),
    ensures
        slots_items(s, j) == opt_items(s[j as int]) + slots_items(s, j + 1),
{
    if s[j as int] is None {
        assert(opt_items(s[j as int]) + slots_items(s, j + 1) =~= slots_items(s, j + 1));
    }
}

/// The items of all slots are those of the slots before `j`, then those from
/// `j` on.
pub proof fn lemma_slots_split<A>(s: Seq<Option<Entry<A>>>, j: nat)
    requires
        j <= s.len(),
    ensures
        slots_items(s, 0) == slots_prefix(s, j) + slots_items(s, j),
    decreases j,
{
    if j == 0 {
        assert(slots_prefix(s, 0) + slots_items(s, 0) =~= slots_items(s, 0));
    } else {
        lemma_slots_split(s, (j - 1) as nat);
        lemma_slots_step(s, (j - 1) as nat);
        assert(slots_prefix(s, (j - 1) as nat) + (opt_items(s[j - 1]) + slots_items(s, j))
            =~= slots_prefix(s, j) + slots_items(s, j));
    }
}

/// The slots before `j` decide the items before `j`.
pub proof fn lemma_prefix_same<A>(s1: Seq<Option<Entry<A>>>, s2: Seq<Option<Entry<A>>>, j: nat)
    requires
        j <= s1.len(),
        j <= s2.len(),
        forall|k: int| 0 <= k < j ==> s1[k] == s2[k],
    ensures
        slots_prefix(s1, j) == slots_prefix(s2, j),
    decreases j,
{
    if j > 0 {
        lemma_prefix_same(s1, s2, (j - 1) as nat);
    }
}

/// The slots from `j` on decide the items from `j` on.
pub proof fn lemma_suffix_same<A>(s1: Seq<Option<Entry<A>>>, s2: Seq<Option<Entry<A>>>, j: nat)
    requires
        s1.len() == s2.len(),
        forall|k: int| j <= k < s1.len() ==> s1[k] == s2[k],
    ensures
        slots_items(s1, j) == slots_items(s2, j),
    decreases s1.len() - j,
{
    if j < s1.len() {
        lemma_suffix_same(s1, s2, j + 1);
        lemma_slots_step(s1, j);
        lemma_slots_step(s2, j);
    }
}

/// Replacing what slot `j` holds replaces its items and nothing else.
pub proof fn lemma_slot_replace<A>(s: Seq<Option<Entry<A>>>, j: int, x: Option<Entry<A>>)
    requires
        0 <= j < s.len(),
    ensures
        slots_items(s, 0) == slots_prefix(s, j as nat) + opt_items(s[j]) + slots_items(s, (j + 1) as nat),
        slots_items(s.update(j, x), 0) == slots_prefix(s, j as nat) + opt_items(x) + slots_items(s, (j + 1) as nat),
{
    let t = s.update(j, x);
    lemma_slots_split(s, j as nat);
    lemma_slots_split(t, j as nat);
    lemma_slots_step(s, j as nat);
    lemma_slots_step(t, j as nat);
    lemma_prefix_same(s, t, j as nat);
    lemma_suffix_same(s, t, (j + 1) as nat);
    assert(slots_prefix(s, j as nat) + (opt_items(s[j]) + slots_items(s, (j + 1) as nat))
        =~= slots_prefix(s, j as nat) + opt_items(s[j]) + slots_items(s, (j + 1) as nat));
    assert(slots_prefix(s, j as nat) + (opt_items(x) + slots_items(s, (j + 1) as nat))
        =~= slots_prefix(s, j as nat) + opt_items(x) + slots_items(s, (j + 1) as nat));
}

/// Every item under the slots from `j` on is an item of one of those slots.
pub proof fn lemma_slots_index<A>(s: Seq<Option<Entry<A>>>, j: nat, i: int)
    requires
        0 <= i < slots_items(s, j).len(),
    ensures
        exists|m: int, t: int|
            j <= m < s.len() && 0 <= t < opt_items(s[m]).len() && #[trigger] opt_items(s[m])[t]
                == slots_items(s, j)[i],
    decreases s.len() - j,
{
    if j >= s.len() {
    } else {
        lemma_slots_step(s, j);
        let o = opt_items(s[j as int]);
        if i < o.len() {
            assert(o[i] == slots_items(s, j)[i]);
        } else {
            lemma_slots_index(s, j + 1, i - o.len());
        }
    }
}

/// Every item of slot `m` is an item of all the slots.
pub proof fn lemma_slot_item_in<A>(s: Seq<Option<Entry<A>>>, m: int, t: int)
    requires
        0 <= m < s.len(),
        0 <= t < opt_items(s[m]).len(),
    ensures
        exists|i: int| 0 <= i < slots_items(s, 0).len() && slots_items(s, 0)[i] == opt_items(s[m])[t],
{
    lemma_slot_replace(s, m, s[m]);
    let p = slots_prefix(s, m as nat);
    assert(slots_items(s, 0)[p.len() + t] == opt_items(s[m])[t]);
}

/// Keys are unique in all the slots exactly when they are in each slot's
/// part, before it and after it, and the three share none.
pub proof fn lemma_slot_unique<A: HashValue>(s: Seq<Option<Entry<A>>>, j: int)
    requires
        0 <= j < s.len(),
    ensures
        keys_unique(slots_items(s, 0)) <==> {
            &&& keys_unique(slots_prefix(s, j as nat) + slots_items(s, (j + 1) as nat))
            &&& keys_unique(opt_items(s[j]))
            &&& keys_disjoint(opt_items(s[j]), slots_prefix(s, j as nat) + slots_items(s, (j + 1) as nat))
        },
{
    let p = slots_prefix(s, j as nat);
    let x = opt_items(s[j]);
    let q = slots_items(s, (j + 1) as nat);
    lemma_slot_replace(s, j, s[j]);
    lemma_unique_concat(p + x, q);
    lemma_unique_concat(p, x);
    lemma_unique_concat(p, q);
    lemma_unique_concat(x, p + q);
    if keys_unique(p + x + q) {
        assert forall|a: int, b: int| 0 <= a < p.len() && 0 <= b < q.len() implies #[trigger] p[a].0.key()
            != #[trigger] q[b].0.key() by {
            assert((p + x)[a] == p[a]);
            assert((p + x)[a].0.key() != q[b].0.key());
        }
        assert(keys_unique(p + q));
        assert forall|a: int, b: int| 0 <= a < x.len() && 0 <= b < (p + q).len() implies #[trigger] x[a].0.key()
            != #[trigger] (p + q)[b].0.key() by {
            if b < p.len() {
                assert((p + q)[b] == p[b]);
                assert((p + x)[p.len() + a] == x[a]);
                assert((p + x)[b] == p[b]);
            } else {
                assert((p + q)[b] == q[b - p.len()]);
                assert((p + x)[p.len() + a] == x[a]);
            }
        }
    }
    if keys_unique(p + q) && keys_unique(x) && keys_disjoint(x, p + q) {
        assert forall|a: int, b: int| 0 <= a < p.len() && 0 <= b < x.len() implies #[trigger] p[a].0.key()
            != #[trigger] x[b].0.key() by {
            assert((p + q)[a] == p[a]);
            assert(x[b].0.key() != (p + q)[a].0.key());
        }
        assert forall|a: int, b: int| 0 <= a < (p + x).len() && 0 <= b < q.len() implies #[trigger] (p
            + x)[a].0.key() != #[trigger] q[b].0.key() by {
            assert((p + q)[p.len() + b] == q[b]);
            if a < p.len() {
                assert((p + x)[a] == p[a]);
                assert((p + q)[a] == p[a]);
                assert((p + q)[a].0.key() != (p + q)[p.len() + b].0.key());
            } else {
                assert((p + x)[a] == x[a - p.len()]);
                assert(x[a - p.len()].0.key() != (p + q)[p.len() + b].0.key());
            }
        }
        assert(keys_unique(p));
        assert(keys_unique(q));
        assert(keys_disjoint(p, x));
        assert(keys_unique(p + x));
        assert(keys_disjoint(p + x, q));
        assert(keys_unique(p + x + q));
    }
}

/// With unique keys, the items of all slots map a key of slot `j` to what
/// slot `j` maps it to.
pub proof fn lemma_map_slot<A: HashValue>(s: Seq<Option<Entry<A>>>, j: int, k: A::Key)
    requires
        0 <= j < s.len(),
        keys_unique(slots_items(s, 0)),
        has_key(opt_items(s[j]), k),
    ensures
        items_map(slots_items(s, 0)).contains_key(k),
        items_map(slots_items(s, 0))[k] == items_map(opt_items(s[j]))[k],
        keys_unique(opt_items(s[j])),
{
    lemma_slot_unique(s, j);
    let x = opt_items(s[j]);
    let t = choose|t: int| 0 <= t < x.len() && #[trigger] x[t].0.key() == k;
    lemma_slot_item_in(s, j, t);
    let i = choose|i: int| 0 <= i < slots_items(s, 0).len() && slots_items(s, 0)[i] == x[t];
    crate::model::lemma_items_map_at(slots_items(s, 0), i);
    crate::model::lemma_items_map_at(x, t);
}

/// A key of all the slots is a key of some slot.
pub proof fn lemma_key_in_slot<A: HashValue>(s: Seq<Option<Entry<A>>>, k: A::Key) -> (j: int)
    requires
        has_key(slots_items(s, 0), k),
    ensures
        0 <= j < s.len(),
        has_key(opt_items(s[j]), k),
        s[j] is Some,
{
    let all = slots_items(s, 0);
    let i = choose|i: int| 0 <= i < all.len() && #[trigger] all[i].0.key() == k;
    lemma_slots_index(s, 0, i);
    let (m, t) = choose|m: int, t: int|
        0 <= m < s.len() && 0 <= t < opt_items(s[m]).len() && #[trigger] opt_items(s[m])[t] == all[i];
    assert(opt_items(s[m])[t].0.key() == k);
    m
}

/// The items of a single value.
pub proof fn lemma_value_items<A: HashValue>(v: A, h: HashBits)
    ensures
        entry_items(Entry::Value(v, h)) == seq![(v, h)],
        has_key(seq![(v, h)], v.key()),
        items_map(seq![(v, h)])[v.key()] == (v, h),
        forall|k: A::Key| has_key(seq![(v, h)], k) <==> k == v.key(),
{
    crate::model::lemma_map_single(v, h);
    assert(seq![(v, h)][0].0.key() == v.key());
}

/// The map of the slots, split into what slot `j` holds and the rest.
pub proof fn lemma_map_split<A: HashValue>(s: Seq<Option<Entry<A>>>, j: int)
    requires
        0 <= j < s.len(),
        keys_unique(slots_items(s, 0)),
    ensures
        items_map(slots_items(s, 0)) == items_map(slots_prefix(s, j as nat) + slots_items(
            s,
            (j + 1) as nat,
        )).union_prefer_right(items_map(opt_items(s[j]))),
        keys_unique(slots_prefix(s, j as nat) + slots_items(s, (j + 1) as nat)),
        keys_unique(opt_items(s[j])),
        keys_disjoint(opt_items(s[j]), slots_prefix(s, j as nat) + slots_items(s, (j + 1) as nat)),
{
    let p = slots_prefix(s, j as nat);
    let x = opt_items(s[j]);
    let q = slots_items(s, (j + 1) as nat);
    lemma_slot_replace(s, j, s[j]);
    lemma_slot_unique(s, j);
    crate::model::lemma_disjoint_symmetric(x, p + q);
    lemma_unique_concat(p + q, x);
    assert forall|y: (A, HashBits)| crate::model::contains_item(p + x + q, y)
        <==> crate::model::contains_item(p + q + x, y) by {
        crate::model::lemma_contains_concat(p + x, q, y);
        crate::model::lemma_contains_concat(p, x, y);
        crate::model::lemma_contains_concat(p + q, x, y);
        crate::model::lemma_contains_concat(p, q, y);
    }
    crate::model::lemma_map_same_items(p + x + q, p + q + x);
    lemma_map_concat(p + q, x);
}

/// Replacing what slot `j` holds, when the keys stay unique, replaces the
/// slot's part of the map.
pub proof fn lemma_map_replace<A: HashValue>(s: Seq<Option<Entry<A>>>, j: int, x: Option<Entry<A>>)
    requires
        0 <= j < s.len(),
        keys_unique(slots_items(s, 0)),
        keys_unique(opt_items(x)),
        keys_disjoint(opt_items(x), slots_prefix(s, j as nat) + slots_items(s, (j + 1) as nat)),
    ensures
        keys_unique(slots_items(s.update(j, x), 0)),
        items_map(slots_items(s.update(j, x), 0)) == items_map(slots_prefix(s, j as nat) + slots_items(
            s,
            (j + 1) as nat,
        )).union_prefer_right(items_map(opt_items(x))),
{
    let t = s.update(j, x);
    lemma_map_split(s, j);
    lemma_slot_replace(s, j, x);
    lemma_prefix_same(s, t, j as nat);
    lemma_suffix_same(s, t, (j + 1) as nat);
    assert(t[j] == x);
    lemma_slot_unique(t, j);
    lemma_map_split(t, j);
}

/// The items of the slots after slot `j` is replaced are those of the other
/// slots and those of the replacement.
pub proof fn lemma_members_replace<A>(s: Seq<Option<Entry<A>>>, j: int, x: Option<Entry<A>>, y: (A, HashBits))
    requires
        0 <= j < s.len(),
    ensures
        contains_item(slots_items(s, 0), y) <==> (contains_item(slots_prefix(s, j as nat) + slots_items(s, (j + 1) as nat), y)
            || contains_item(opt_items(s[j]), y)),
        contains_item(slots_items(s.update(j, x), 0), y) <==> (contains_item(slots_prefix(s, j as nat) + slots_items(s, (j + 1) as nat), y)
            || contains_item(opt_items(x), y)),
{
    let p = slots_prefix(s, j as nat);
    let q = slots_items(s, (j + 1) as nat);
    lemma_slot_replace(s, j, x);
    crate::model::lemma_contains_concat(p + opt_items(s[j]), q, y);
    crate::model::lemma_contains_concat(p, opt_items(s[j]), y);
    crate::model::lemma_contains_concat(p + opt_items(x), q, y);
    crate::model::lemma_contains_concat(p, opt_items(x), y);
    crate::model::lemma_contains_concat(p, q, y);
}

impl<A: HashValue> View for Node<A> {
    type V = Map<A::Key, (A, HashBits)>;

    /// The items of the node, by key.
    open spec fn view(&self) -> Map<A::Key, (A, HashBits)> {
        items_map(node_items(*self))
    }
}

impl<A: HashValue> View for SmallNode<A> {
    type V = Map<A::Key, (A, HashBits)>;

    /// The items of the node, by key.
    open spec fn view(&self) -> Map<A::Key, (A, HashBits)> {
        items_map(small_items(*self))
    }
}

/// Under slots that hold only values, a key of the map is the key of the
/// value in some slot, and the map gives that value and its hash.
pub proof fn lemma_value_slot<A: HashValue>(s: Seq<Option<Entry<A>>>, k: A::Key) -> (j: int)
    requires
        has_key(slots_items(s, 0), k),
        keys_unique(slots_items(s, 0)),
        forall|m: int| 0 <= m < s.len() && #[trigger] s[m] is Some ==> is_value(s[m]->0),
    ensures
        0 <= j < s.len(),
        s[j] is Some,
        s[j]->0 is Value,
        s[j]->0->Value_0.key() == k,
        items_map(slots_items(s, 0))[k] == (s[j]->0->Value_0, s[j]->0->Value_1),
{
    let j = lemma_key_in_slot(s, k);
    let e = s[j]->0;
    assert(is_value(e));
    let (v, h) = (e->Value_0, e->Value_1);
    lemma_value_items(v, h);
    lemma_map_slot(s, j, k);
    j
}

/// Under slots that hold only values, the map gives the key of the value in
/// slot `j` that value and its hash.
pub proof fn lemma_slot_value<A: HashValue>(s: Seq<Option<Entry<A>>>, j: int)
    requires
        0 <= j < s.len(),
        s[j] is Some,
        s[j]->0 is Value,
        keys_unique(slots_items(s, 0)),
    ensures
        items_map(slots_items(s, 0)).contains_key(s[j]->0->Value_0.key()),
        items_map(slots_items(s, 0))[s[j]->0->Value_0.key()] == (s[j]->0->Value_0, s[j]->0->Value_1),
{
    let e = s[j]->0;
    let (v, h) = (e->Value_0, e->Value_1);
    lemma_value_items(v, h);
    lemma_map_slot(s, j, v.key());
}

/// Emptying slot `j` takes the keys of that slot out of the map, and keeps
/// the keys unique.
pub proof fn lemma_map_clear_slot<A: HashValue>(s: Seq<Option<Entry<A>>>, j: int)
    requires
        0 <= j < s.len(),
        keys_unique(slots_items(s, 0)),
    ensures
        keys_unique(slots_items(s.update(j, None), 0)),
        items_map(slots_items(s.update(j, None), 0)) == items_map(slots_items(s, 0)).remove_keys(
            items_map(opt_items(s[j])).dom(),
        ),
        forall|y: (A, HashBits)| contains_item(slots_items(s.update(j, None), 0), y) ==> contains_item(slots_items(s, 0), y),
{
    let p = slots_prefix(s, j as nat);
    let q = slots_items(s, (j + 1) as nat);
    lemma_map_split(s, j);
    lemma_map_replace(s, j, None);
    crate::model::lemma_map_empty::<A>();
    assert forall|k: A::Key| #[trigger] items_map(opt_items(s[j])).contains_key(k) implies !items_map(p + q).contains_key(k) by {
        crate::model::lemma_disjoint_has_key(opt_items(s[j]), p + q, k);
    }
    assert(items_map(slots_items(s.update(j, None), 0)) =~= items_map(slots_items(s, 0)).remove_keys(
        items_map(opt_items(s[j])).dom(),
    ));
    assert forall|y: (A, HashBits)| contains_item(slots_items(s.update(j, None), 0), y) implies contains_item(slots_items(s, 0), y) by {
        lemma_members_replace(s, j, None, y);
    }
}

impl<A> Entry<A> {
    /// Whether the entry holds a single value.
    pub fn is_value(&self) -> (r: bool)
        ensures
            r == is_value(*self),
    {
        match self {
            Entry::Value(_, _) => true,
            _ => false,
        }
    }

    /// The value of a value entry.
    pub fn unwrap_value(self) -> (r: A)
        requires
            is_value(self),
        ensures
            r == self->Value_0,
    {
        match self {
            Entry::Value(a, _) => a,
            _ => {
                assert(false);
                vstd::pervasive::unreached()
            },
        }
    }
}

/// Empty slots hold no items.
pub proof fn lemma_empty_slots_items<A>(n: nat)
    ensures
        slots_items(crate::chunk::empty_slots::<Entry<A>>(n), 0) == Seq::<(A, HashBits)>::empty(),
{
    let s = crate::chunk::empty_slots::<Entry<A>>(n);
    if slots_items(s, 0).len() > 0 {
        lemma_slots_index(s, 0, 0);
    }
}

/// Putting a value with a new key into an empty slot keeps keys unique,
/// inserts the value into the map, and adds it to the items.
pub proof fn lemma_put_value<A: HashValue>(s: Seq<Option<Entry<A>>>, j: int, v: A, h: HashBits)
    requires
        0 <= j < s.len(),
        s[j] is None,
        keys_unique(slots_items(s, 0)),
        !has_key(slots_items(s, 0), v.key()),
    ensures
        keys_unique(slots_items(s.update(j, Some(Entry::Value(v, h))), 0)),
        items_map(slots_items(s.update(j, Some(Entry::Value(v, h))), 0)) == items_map(slots_items(s, 0)).insert(v.key(), (v, h)),
        forall|y: (A, HashBits)| contains_item(slots_items(s.update(j, Some(Entry::Value(v, h))), 0), y)
            <==> (contains_item(slots_items(s, 0), y) || y == (v, h)),
        contains_item(slots_items(s.update(j, Some(Entry::Value(v, h))), 0), (v, h)),
        forall|y: (A, HashBits)| #[trigger] contains_item(slots_items(s, 0), y) ==> contains_item(slots_items(s.update(j, Some(Entry::Value(v, h))), 0), y),
{
    let x = Some(Entry::Value(v, h));
    let p = slots_prefix(s, j as nat);
    let q = slots_items(s, (j + 1) as nat);
    lemma_map_split(s, j);
    lemma_value_items(v, h);
    assert(opt_items(s[j]) =~= Seq::<(A, HashBits)>::empty());
    assert forall|a: int, b: int| 0 <= a < opt_items(x).len() && 0 <= b < (p + q).len() implies #[trigger] opt_items(x)[a].0.key()
        != #[trigger] (p + q)[b].0.key() by {
        lemma_members_replace(s, j, x, (p + q)[b]);
        assert(contains_item(p + q, (p + q)[b]));
        let i = choose|i: int| 0 <= i < slots_items(s, 0).len() && slots_items(s, 0)[i] == (p + q)[b];
        assert(slots_items(s, 0)[i].0.key() == (p + q)[b].0.key());
    }
    lemma_map_replace(s, j, x);
    crate::model::lemma_map_single(v, h);
    crate::model::lemma_map_empty::<A>();
    assert(items_map(slots_items(s.update(j, x), 0)) =~= items_map(slots_items(s, 0)).insert(v.key(), (v, h)));
    assert forall|y: (A, HashBits)| contains_item(slots_items(s.update(j, x), 0), y)
        <==> (contains_item(slots_items(s, 0), y) || y == (v, h)) by {
        lemma_members_replace(s, j, x, y);
        if y == (v, h) {
            assert(opt_items(x)[0] == y);
        }
        if contains_item(opt_items(x), y) {
            let i = choose|i: int| 0 <= i < opt_items(x).len() && opt_items(x)[i] == y;
        }
        if contains_item(opt_items(s[j]), y) {
            let i = choose|i: int| 0 <= i < opt_items(s[j]).len() && opt_items(s[j])[i] == y;
        }
    }
}

/// A child entry that is a well-formed node or small node at level `shift`.
pub open spec fn child_wf<A: HashValue>(e: Entry<A>, shift: nat) -> bool {
    match e {
        Entry::Node(c) => node_wf(*c, shift),
        Entry::SmallNode(c) => small_wf(*c, shift),
        _ => false,
    }
}

/// Items that are all one of two items whose hashes agree have hashes that
/// agree.
pub proof fn lemma_agree_two<A>(s: Seq<(A, HashBits)>, x1: (A, HashBits), x2: (A, HashBits), shift: nat)
    requires
        shift <= 32,
        agree_below(x1.1, x2.1, shift),
        forall|y: (A, HashBits)| contains_item(s, y) ==> y == x1 || y == x2,
    ensures
        hashes_agree(s, shift),
{
    assert forall|i: int, j: int| 0 <= i < s.len() && 0 <= j < s.len() implies agree_below(
        #[trigger] s[i].1,
        #[trigger] s[j].1,
        shift,
    ) by {
        assert(contains_item(s, s[i]));
        assert(contains_item(s, s[j]));
        crate::bits::lemma_agree_equiv(x1.1, x2.1, x1.1, shift);
        crate::bits::lemma_agree_equiv(x2.1, x1.1, x2.1, shift);
    }
}

/// In a branching node every item under slot `j` has a hash that takes slot
/// `j`.
pub proof fn lemma_branch_items<A: HashValue>(n: Node<A>, shift: nat, j: int)
    requires
        node_wf(n, shift),
        !n.linear_probing,
        0 <= j < HASH_WIDTH,
    ensures
        all_in_slot(opt_items(n.data.slots@[j]), shift, j),
{
    let s = n.data.slots@;
    if s[j] is Some {
        assert(branch_slot_ok(s[j]->0, shift, j));
        match s[j]->0 {
            Entry::Value(v, h) => {
                lemma_value_items(v, h);
            },
            _ => {},
        }
    }
}

/// In a branching node, a key whose hash fits is in the map exactly when it
/// is under the slot of the hash, and the map gives it what that slot does.
pub proof fn lemma_branch_key<A: HashValue>(n: Node<A>, shift: nat, hash: HashBits, key: A::Key)
    requires
        node_wf(n, shift),
        !n.linear_probing,
        n@.contains_key(key) ==> n@[key].1 == hash,
    ensures
        0 <= slot_of(hash, shift) < HASH_WIDTH,
        n@.contains_key(key) <==> has_key(opt_items(n.data.slots@[slot_of(hash, shift)]), key),
        n@.contains_key(key) ==> n@[key] == items_map(opt_items(n.data.slots@[slot_of(hash, shift)]))[key],
{
    let s = n.data.slots@;
    let i = slot_of(hash, shift);
    crate::bits::lemma_slot_bound(hash, shift as u32);
    if has_key(opt_items(s[i]), key) {
        lemma_map_slot(s, i, key);
    }
    if n@.contains_key(key) {
        let j = lemma_key_in_slot(s, key);
        lemma_map_slot(s, j, key);
        let x = opt_items(s[j]);
        let t = choose|t: int| 0 <= t < x.len() && #[trigger] x[t].0.key() == key;
        crate::model::lemma_items_map_at(x, t);
        lemma_branch_items(n, shift, j);
        assert(slot_of(x[t].1, shift) == j);
    }
}

/// The items of a collision node with unique keys: a key is there exactly
/// when some value has it, and the map gives it that value with the shared
/// hash.
pub proof fn lemma_coll_lookup<A: HashValue>(c: CollisionNode<A>, key: A::Key)
    requires
        keys_unique(coll_items(c)),
    ensures
        has_key(coll_items(c), key) <==> !crate::collision::no_key(c.data@, key),
        forall|i: int| crate::collision::first_with_key(c.data@, key, i) ==> items_map(coll_items(c))[key] == (c.data@[i], c.hash),
        forall|i: int| crate::collision::last_with_key(c.data@, key, i) ==> items_map(coll_items(c))[key] == (c.data@[i], c.hash),
{
    let s = coll_items(c);
    if has_key(s, key) {
        let i = choose|i: int| 0 <= i < s.len() && #[trigger] s[i].0.key() == key;
        assert(c.data@[i].key() == key);
    }
    if !crate::collision::no_key(c.data@, key) {
        let i = choose|i: int| 0 <= i < c.data@.len() && (#[trigger] c.data@[i]).key() == key;
        assert(s[i].0.key() == key);
    }
    assert forall|i: int| crate::collision::first_with_key(c.data@, key, i) implies items_map(s)[key] == (c.data@[i], c.hash) by {
        crate::model::lemma_items_map_at(s, i);
    }
    assert forall|i: int| crate::collision::last_with_key(c.data@, key, i) implies items_map(s)[key] == (c.data@[i], c.hash) by {
        crate::model::lemma_items_map_at(s, i);
    }
}

/// In a node with linear probing, a key whose hash fits is absent when the
/// probe from its slot reached an empty slot past values with other keys.
pub proof fn lemma_probe_absent<A: HashValue>(n: Node<A>, shift: nat, hash: HashBits, key: A::Key, index: int)
    requires
        node_wf(n, shift),
        n.linear_probing,
        n@.contains_key(key) ==> n@[key].1 == hash,
        0 <= index < HASH_WIDTH,
        n.data.slots@[index] is None,
        forall|q: int|
            0 <= q < HASH_WIDTH && cyc_dist(slot_of(hash, shift), q) < cyc_dist(slot_of(hash, shift), index)
                ==> #[trigger] n.data.slots@[q] is Some && n.data.slots@[q]->0->Value_0.key() != key,
    ensures
        !n@.contains_key(key),
{
    let s = n.data.slots@;
    if n@.contains_key(key) {
        let j = lemma_value_slot(s, key);
        assert(s[j] is Some);
        let h = value_hash(s[j]->0);
        assert(h == hash);
        if cyc_dist(slot_of(hash, shift), index) <= cyc_dist(slot_of(hash, shift), j) {
            assert(s[index] is Some);
        }
        assert(s[j]->0->Value_0.key() != key);
    }
}

/// The collision node of a collision entry.
pub open spec fn coll_of<A>(e: Entry<A>) -> CollisionNode<A> {
    match e {
        Entry::Collision(c) => *c,
        _ => arbitrary(),
    }
}

/// The child node of a node entry.
pub open spec fn node_of<A>(e: Entry<A>) -> Node<A> {
    match e {
        Entry::Node(c) => *c,
        _ => arbitrary(),
    }
}

/// The child node of a small node entry.
pub open spec fn small_of<A>(e: Entry<A>) -> SmallNode<A> {
    match e {
        Entry::SmallNode(c) => *c,
        _ => arbitrary(),
    }
}

/// One step of a probe past a value with another key: the probed stretch
/// grows by one slot.
#[verifier::spinoff_prover]
pub proof fn lemma_probe_step<A: HashValue>(s: Seq<Option<Entry<A>>>, ideal: int, index: int, g: int, key: A::Key)
    requires
        s.len() == HASH_WIDTH,
        0 <= ideal < HASH_WIDTH,
        0 <= index < HASH_WIDTH,
        0 <= g < HASH_WIDTH,
        s[g] is None,
        s[index] is Some,
        s[index]->0->Value_0.key() != key,
        cyc_dist(ideal, index) <= cyc_dist(ideal, g),
        forall|q: int|
            0 <= q < HASH_WIDTH && cyc_dist(ideal, q) < cyc_dist(ideal, index) ==> #[trigger] s[q] is Some
                && s[q]->0->Value_0.key() != key,
    ensures
        cyc_dist(ideal, (index + 1) % 32) == cyc_dist(ideal, index) + 1,
        cyc_dist(ideal, (index + 1) % 32) <= cyc_dist(ideal, g),
        forall|q: int|
            0 <= q < HASH_WIDTH && cyc_dist(ideal, q) < cyc_dist(ideal, (index + 1) % 32) ==> #[trigger] s[q] is Some
                && s[q]->0->Value_0.key() != key,
{
    assert(index != g);
    assert forall|q: int|
        0 <= q < HASH_WIDTH && cyc_dist(ideal, q) < cyc_dist(ideal, (index + 1) % 32) implies #[trigger] s[q] is Some
            && s[q]->0->Value_0.key() != key by {
        if cyc_dist(ideal, q) == cyc_dist(ideal, index) {
            assert(q == index);
        }
    }
}

} // verus!
