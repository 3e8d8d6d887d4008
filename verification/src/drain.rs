//! Taking every item out of a node, by value. Each node is emptied from its
//! lowest slot up, a child met on the way is emptied before the slots after
//! it, and a collision node gives its values from the last one back.

use vstd::prelude::*;
use std::sync::Arc;
use crate::bits::{HashBits, HASH_SHIFT, HASH_WIDTH, ITER_STACK_CAPACITY};
use crate::node::{branch_slot_ok, coll_items, is_value, node_wf, CollisionNode, Entry, Node, SmallNode};
use crate::shared::{make_mut, pointee};
use crate::value::HashValue;

verus! {

/// The items that draining an entry gives, in order.
pub open spec fn drain_entry_items<A>(e: Entry<A>) -> Seq<(A, HashBits)>
    decreases e, 0nat, 0nat,
{
    match e {
        Entry::Value(v, h) => seq![(v, h)],
        Entry::Collision(c) => coll_items(*c).reverse(),
        Entry::Node(n) => {
            proof {
                assert(decreases_to!(n => n.data));
                assert(decreases_to!(n.data => n.data.slots));
                assert(decreases_to!(n.data.slots => n.data.slots@));
            }
            drain_slots_items(n.data.slots@, 0)
        },
        Entry::SmallNode(n) => small_values(n.data.slots@, 0),
    }
}

/// The items that draining slots `j..` of a node gives, in order.
pub open spec fn drain_slots_items<A>(s: Seq<Option<Entry<A>>>, j: nat) -> Seq<(A, HashBits)>
    decreases s, 1nat, s.len() - j,
{
    if j >= s.len() {
        Seq::empty()
    } else {
        match s[j as int] {
            None => drain_slots_items(s, j + 1),
            Some(e) => {
                proof {
                    assert(decreases_to!(s => s[j as int]));
                }
                drain_entry_items(e) + drain_slots_items(s, j + 1)
            },
        }
    }
}

/// The values that draining slots `j..` of a small node gives: those up to
/// the first slot that holds anything else.
pub open spec fn small_values<A>(s: Seq<Option<Entry<A>>>, j: nat) -> Seq<(A, HashBits)>
    decreases s.len() - j,
{
    if j >= s.len() {
        Seq::empty()
    } else {
        match s[j as int] {
            None => small_values(s, j + 1),
            Some(Entry::Value(v, h)) => seq![(v, h)] + small_values(s, j + 1),
            Some(_) => Seq::empty(),
        }
    }
}

/// Every node and small node under an entry has a well-formed array of
/// slots.
pub open spec fn entry_chunks_ok<A>(e: Entry<A>) -> bool
    decreases e, 0nat, 0nat,
{
    match e {
        Entry::Node(n) => {
            proof {
                assert(decreases_to!(n => n.data));
                assert(decreases_to!(n.data => n.data.slots));
                assert(decreases_to!(n.data.slots => n.data.slots@));
            }
            n.data.wf() && slots_chunks_ok(n.data.slots@, 0)
        },
        Entry::SmallNode(n) => {
            proof {
                assert(decreases_to!(n => n.data));
                assert(decreases_to!(n.data => n.data.slots));
                assert(decreases_to!(n.data.slots => n.data.slots@));
            }
            n.data.wf() && slots_chunks_ok(n.data.slots@, 0)
        },
        _ => true,
    }
}

/// Every node and small node under slots `j..` has a well-formed array of
/// slots.
pub open spec fn slots_chunks_ok<A>(s: Seq<Option<Entry<A>>>, j: nat) -> bool
    decreases s, 1nat, s.len() - j,
{
    if j >= s.len() {
        true
    } else {
        (match s[j as int] {
            None => true,
            Some(e) => {
                proof {
                    assert(decreases_to!(s => s[j as int]));
                }
                entry_chunks_ok(e)
            },
        }) && slots_chunks_ok(s, j + 1)
    }
}

/// How many stack entries draining an entry takes at most: one for each
/// node on the way down, and one for a small node or collision node at the
/// end.
pub open spec fn entry_depth<A>(e: Entry<A>) -> nat
    decreases e, 0nat, 0nat,
{
    match e {
        Entry::Value(_, _) => 0,
        Entry::Collision(_) => 1,
        Entry::Node(n) => {
            proof {
                assert(decreases_to!(n => n.data));
                assert(decreases_to!(n.data => n.data.slots));
                assert(decreases_to!(n.data.slots => n.data.slots@));
            }
            1 + slots_depth(n.data.slots@, 0)
        },
        Entry::SmallNode(_) => 1,
    }
}

/// The most stack entries that draining any of slots `j..` takes.
pub open spec fn slots_depth<A>(s: Seq<Option<Entry<A>>>, j: nat) -> nat
    decreases s, 1nat, s.len() - j,
{
    if j >= s.len() {
        0
    } else {
        let d = match s[j as int] {
            None => 0,
            Some(e) => {
                proof {
                    assert(decreases_to!(s => s[j as int]));
                }
                entry_depth(e)
            },
        };
        let rest = slots_depth(s, j + 1);
        if d > rest {
            d
        } else {
            rest
        }
    }
}

/// How much draining is left in an entry.
pub open spec fn entry_drain_weight<A>(e: Entry<A>) -> nat
    decreases e, 0nat, 0nat,
{
    match e {
        Entry::Value(_, _) => 0,
        Entry::Collision(c) => c.data@.len() + 1,
        Entry::Node(n) => {
            proof {
                assert(decreases_to!(n => n.data));
                assert(decreases_to!(n.data => n.data.slots));
                assert(decreases_to!(n.data.slots => n.data.slots@));
            }
            1 + slots_drain_weight(n.data.slots@, 0)
        },
        Entry::SmallNode(n) => {
            proof {
                assert(decreases_to!(n => n.data));
                assert(decreases_to!(n.data => n.data.slots));
                assert(decreases_to!(n.data.slots => n.data.slots@));
            }
            1 + slots_drain_weight(n.data.slots@, 0)
        },
    }
}

/// How much draining is left in slots `j..`: empty slots weigh nothing.
pub open spec fn slots_drain_weight<A>(s: Seq<Option<Entry<A>>>, j: nat) -> nat
    decreases s, 1nat, s.len() - j,
{
    if j >= s.len() {
        0
    } else {
        match s[j as int] {
            None => slots_drain_weight(s, j + 1),
            Some(e) => {
                proof {
                    assert(decreases_to!(s => s[j as int]));
                }
                1 + entry_drain_weight(e) + slots_drain_weight(s, j + 1)
            },
        }
    }
}

/// Empty slots before `j` add nothing to what draining gives or weighs.
pub proof fn lemma_drain_skip<A>(s: Seq<Option<Entry<A>>>, i: nat, j: nat)
    requires
        i <= j <= s.len(),
        forall|m: int| i <= m < j ==> s[m] is None,
    ensures
        drain_slots_items(s, i) == drain_slots_items(s, j),
        small_values(s, i) == small_values(s, j),
        slots_drain_weight(s, i) == slots_drain_weight(s, j),
        slots_chunks_ok(s, i) == slots_chunks_ok(s, j),
        slots_depth(s, i) == slots_depth(s, j),
    decreases j - i,
{
    if i < j {
        lemma_drain_skip(s, i + 1, j);
    }
}

/// Slots from `j` on that are the same drain the same.
pub proof fn lemma_drain_suffix<A>(s1: Seq<Option<Entry<A>>>, s2: Seq<Option<Entry<A>>>, j: nat)
    requires
        s1.len() == s2.len(),
        forall|m: int| j <= m < s1.len() ==> s1[m] == s2[m],
    ensures
        drain_slots_items(s1, j) == drain_slots_items(s2, j),
        small_values(s1, j) == small_values(s2, j),
        slots_drain_weight(s1, j) == slots_drain_weight(s2, j),
        slots_chunks_ok(s1, j) == slots_chunks_ok(s2, j),
        slots_depth(s1, j) == slots_depth(s2, j),
    decreases s1.len() - j,
{
    if j < s1.len() {
        lemma_drain_suffix(s1, s2, j + 1);
    }
}

/// A node, small node or collision node being drained.
pub enum DrainItem<A> {
    /// A node, emptied from its lowest slot up.
    Node(Arc<Node<A>>),
    /// A small node, emptied from its lowest slot up.
    SmallNode(Arc<SmallNode<A>>),
    /// A collision node, emptied from its last value back.
    Collision(Arc<CollisionNode<A>>),
}

/// The items that draining what a stack entry holds gives, in order.
pub open spec fn drain_item_items<A>(d: DrainItem<A>) -> Seq<(A, HashBits)> {
    match d {
        DrainItem::Node(n) => drain_slots_items(n.data.slots@, 0),
        DrainItem::SmallNode(n) => small_values(n.data.slots@, 0),
        DrainItem::Collision(c) => coll_items(*c).reverse(),
    }
}

/// The arrays of slots under a stack entry are well formed.
pub open spec fn drain_item_ok<A>(d: DrainItem<A>) -> bool {
    match d {
        DrainItem::Node(n) => n.data.wf() && slots_chunks_ok(n.data.slots@, 0),
        DrainItem::SmallNode(n) => n.data.wf() && slots_chunks_ok(n.data.slots@, 0),
        DrainItem::Collision(_) => true,
    }
}

/// How many stack entries draining a stack entry takes at most, itself
/// included.
pub open spec fn drain_item_depth<A>(d: DrainItem<A>) -> nat {
    match d {
        DrainItem::Node(n) => 1 + slots_depth(n.data.slots@, 0),
        DrainItem::SmallNode(_) => 1,
        DrainItem::Collision(_) => 1,
    }
}

/// A stack entry at place `i` of the stack is well formed, and draining it
/// keeps the stack within `ITER_STACK_CAPACITY` entries.
pub open spec fn drain_item_fits<A>(d: DrainItem<A>, i: int) -> bool {
    &&& drain_item_ok(d)
    &&& i + drain_item_depth(d) <= ITER_STACK_CAPACITY
}

/// How much draining is left in a stack entry, and one step for leaving it.
pub open spec fn drain_item_weight<A>(d: DrainItem<A>) -> nat {
    1 + match d {
        DrainItem::Node(n) => slots_drain_weight(n.data.slots@, 0),
        DrainItem::SmallNode(n) => slots_drain_weight(n.data.slots@, 0),
        DrainItem::Collision(c) => c.data@.len(),
    }
}

/// The items that draining a stack gives, from the top.
pub open spec fn drain_stack_items<A>(st: Seq<DrainItem<A>>) -> Seq<(A, HashBits)>
    decreases st.len(),
{
    if st.len() == 0 {
        Seq::empty()
    } else {
        drain_item_items(st.last()) + drain_stack_items(st.drop_last())
    }
}

/// How much draining is left in a stack.
pub open spec fn drain_stack_weight<A>(st: Seq<DrainItem<A>>) -> nat
    decreases st.len(),
{
    if st.len() == 0 {
        0
    } else {
        drain_item_weight(st.last()) + drain_stack_weight(st.drop_last())
    }
}

/// Pushing puts the items of the new top first.
pub proof fn lemma_drain_push<A>(st: Seq<DrainItem<A>>, d: DrainItem<A>)
    ensures
        drain_stack_items(st.push(d)) == drain_item_items(d) + drain_stack_items(st),
        drain_stack_weight(st.push(d)) == drain_item_weight(d) + drain_stack_weight(st),
{
    assert(st.push(d).drop_last() =~= st);
}

impl<A: HashValue> Node<A> {
    /// How many stack entries draining this node takes at most: one for each
    /// node on the longest way down, and one for a small node or collision
    /// node at the end. `Drain::new` takes a node for which this is at most
    /// `ITER_STACK_CAPACITY`.
    pub fn depth(&self, shift: usize) -> (r: usize)
        requires
            node_wf(*self, shift as nat),
        ensures
            r == 1 + slots_depth(self.data.slots@, 0),
            r <= (30 - shift) / 5 + 2,
        decreases 32 - shift,
    {
        let ghost s = self.data.slots@;
        let mut deepest: usize = 0;
        let mut i: usize = HASH_WIDTH;
        while i > 0
            invariant
                node_wf(*self, shift as nat),
                s == self.data.slots@,
                s.len() == HASH_WIDTH,
                i <= HASH_WIDTH,
                deepest == slots_depth(s, i as nat),
                deepest <= (30 - shift) / 5 + 1,
            decreases i,
        {
            i = i - 1;
            proof {
                if s[i as int] is Some && !self.linear_probing {
                    assert(branch_slot_ok(s[i as int]->0, shift as nat, i as int));
                }
                if s[i as int] is Some && self.linear_probing {
                    assert(is_value(s[i as int]->0));
                }
            }
            let d: usize = match self.data.get(i) {
                None => 0,
                Some(Entry::Value(_, _)) => 0,
                Some(Entry::Collision(_)) => 1,
                Some(Entry::SmallNode(_)) => 1,
                Some(Entry::Node(child)) => child.depth(shift + HASH_SHIFT),
            };
            proof {
                assert(d == match s[i as int] {
                    None => 0,
                    Some(e) => entry_depth(e),
                });
            }
            if d > deepest {
                deepest = d;
            }
        }
        deepest + 1
    }
}

/// An iterator that takes every item out of a node, each with its hash.
pub struct Drain<A> {
    /// The number of items left, as the iterator was told at the start.
    pub count: usize,
    /// What is being drained, the innermost last.
    pub stack: Vec<DrainItem<A>>,
}

impl<A: HashValue + Clone> Drain<A> {
    /// The items still to be given, in order.
    pub open spec fn remaining(&self) -> Seq<(A, HashBits)> {
        drain_stack_items(self.stack@)
    }

    /// The count covers what is left, the arrays of slots being drained are
    /// well formed, and the stack never needs more than
    /// `ITER_STACK_CAPACITY` entries.
    pub open spec fn wf(&self) -> bool {
        &&& self.remaining().len() <= self.count
        &&& forall|i: int| 0 <= i < self.stack@.len() ==> drain_item_fits(#[trigger] self.stack@[i], i)
    }

    /// An iterator that drains `root`, if any, told that it holds `size`
    /// items.
    pub fn new(root: Option<Arc<Node<A>>>, size: usize) -> (r: Self)
        requires
            root matches Some(n) ==> drain_slots_items(n.data.slots@, 0).len() <= size && n.data.wf()
                && slots_chunks_ok(n.data.slots@, 0) && 1 + slots_depth(n.data.slots@, 0) <= ITER_STACK_CAPACITY,
        ensures
            r.wf(),
            r.count == size,
            r.remaining() == match root {
                Some(n) => drain_slots_items(n.data.slots@, 0),
                None => Seq::empty(),
            },
    {
        let mut result = Drain { count: size, stack: Vec::with_capacity(ITER_STACK_CAPACITY) };
        proof {
            assert(result.stack@ =~= Seq::<DrainItem<A>>::empty());
        }
        if let Some(root) = root {
            let ghost d = DrainItem::Node(root);
            result.stack.push(DrainItem::Node(root));
            proof {
                lemma_drain_push(Seq::empty(), d);
                assert(result.stack@ =~= Seq::<DrainItem<A>>::empty().push(d));
            }
        }
        proof {
            assert(result.remaining() =~= match root {
                Some(n) => drain_slots_items(n.data.slots@, 0),
                None => Seq::empty(),
            });
        }
        result
    }

    /// The next item and its hash.
    pub fn next(&mut self) -> (r: Option<(A, HashBits)>)
        requires
            old(self).wf(),
        ensures
            final(self).wf(),
            old(self).remaining().len() == 0 ==> r is None && final(self).remaining() == old(self).remaining()
                && final(self).count == old(self).count,
            old(self).remaining().len() > 0 ==> r == Some(old(self).remaining()[0])
                && final(self).remaining() == old(self).remaining().drop_first() && final(self).count
                == old(self).count - 1,
    {
        let ghost rem0 = self.remaining();
        let ghost count0 = self.count;
        loop
            invariant
                self.wf(),
                self.remaining() == rem0,
                self.count == count0,
                rem0 == old(self).remaining(),
                count0 == old(self).count,
            decreases drain_stack_weight(self.stack@),
        {
            let ghost st = self.stack@;
            let top = self.stack.pop();
            proof {
                if st.len() > 0 {
                    assert(st.drop_last() =~= self.stack@);
                    assert(drain_item_fits(st[st.len() - 1], st.len() - 1));
                    assert(rem0 == drain_item_items(st.last()) + self.remaining());
                    assert(drain_stack_weight(st) == drain_item_weight(st.last()) + drain_stack_weight(self.stack@));
                }
            }
            let stepped = match top {
                None => {
                    proof {
                        assert(self.remaining() =~= Seq::empty());
                    }
                    return None;
                },
                Some(DrainItem::Node(node_ref)) => self.drain_node(node_ref),
                Some(DrainItem::SmallNode(small_ref)) => self.drain_small(small_ref),
                Some(DrainItem::Collision(coll_ref)) => self.drain_collision(coll_ref),
            };
            if stepped.is_some() {
                proof {
                    assert(rem0.drop_first() =~= self.remaining());
                }
                return stepped;
            }
        }
    }

    /// Takes the next step of draining the node `top`, just taken off the
    /// stack: the next item if that step takes one out, with the rest put
    /// back; or else nothing, with what is left of it put back, if anything.
    fn drain_node(&mut self, top: Arc<Node<A>>) -> (r: Option<(A, HashBits)>)
        requires
            old(self).wf(),
            drain_item_fits(DrainItem::Node(top), old(self).stack@.len() as int),
            drain_item_items(DrainItem::Node(top)).len() + old(self).remaining().len() <= old(self).count,
        ensures
            final(self).wf(),
            r is None ==> final(self).remaining() == drain_item_items(DrainItem::Node(top)) + old(self).remaining()
                && final(self).count == old(self).count && drain_stack_weight(final(self).stack@)
                < drain_item_weight(DrainItem::Node(top)) + drain_stack_weight(old(self).stack@),
            r is Some ==> drain_item_items(DrainItem::Node(top)).len() > 0 && r == Some(drain_item_items(DrainItem::Node(top))[0])
                && final(self).remaining() == drain_item_items(DrainItem::Node(top)).drop_first() + old(self).remaining()
                && final(self).count == old(self).count - 1,
    {
        let ghost d0 = DrainItem::Node(top);
        let ghost below = self.stack@;
        let ghost rem0 = drain_item_items(d0) + self.remaining();
        let ghost s = top.data.slots@;
        let mut node_ref = top;
        let node = make_mut(&mut node_ref);
        match node.data.pop() {
            Some(entry) => {
                let ghost s2 = node.data.slots@;
                let ghost i = choose|i: int|
                    0 <= i < s.len() && s[i] == Some(entry) && (forall|m: int| 0 <= m < i ==> s[m] is None) && s2
                        == s.update(i, None);
                proof {
                    lemma_drain_skip(s, 0, i as nat);
                    lemma_drain_skip(s2, 0, (i + 1) as nat);
                    lemma_drain_suffix(s, s2, (i + 1) as nat);
                    assert(drain_slots_items(s, i as nat) == drain_entry_items(entry) + drain_slots_items(s, (i + 1) as nat));
                    assert(slots_drain_weight(s, i as nat) == 1 + entry_drain_weight(entry) + slots_drain_weight(s, (i + 1) as nat));
                    assert(slots_chunks_ok(s, i as nat) == (entry_chunks_ok(entry) && slots_chunks_ok(s, (i + 1) as nat)));
                    assert(entry_depth(entry) <= slots_depth(s, i as nat));
                    assert(slots_depth(s, (i + 1) as nat) <= slots_depth(s, i as nat));
                }
                self.stack.push(DrainItem::Node(node_ref));
                let ghost d1 = DrainItem::Node(node_ref);
                let ghost st1 = self.stack@;
                proof {
                    assert(drain_item_items(d1) == drain_slots_items(s, (i + 1) as nat));
                    assert(drain_item_ok(d1));
                    assert(drain_item_depth(d1) == 1 + slots_depth(s, (i + 1) as nat));
                    lemma_drain_push(below, d1);
                    assert(st1 == below.push(d1));
                    assert forall|m: int| 0 <= m < st1.len() implies drain_item_fits(#[trigger] st1[m], m) by {
                        if m < below.len() {
                            assert(st1[m] == below[m]);
                        }
                    }
                    assert(rem0 =~= drain_entry_items(entry) + drain_stack_items(st1));
                }
                match entry {
                    Entry::Value(value, hash) => {
                        proof {
                            assert(drain_entry_items(Entry::Value(value, hash)) == seq![(value, hash)]);
                            assert(rem0.drop_first() =~= self.remaining());
                        }
                        self.count = self.count - 1;
                        Some((value, hash))
                    },
                    Entry::Node(child) => {
                        self.stack.push(DrainItem::Node(child));
                        proof {
                            let d2 = DrainItem::Node(child);
                            assert(entry_chunks_ok(Entry::Node(child)) == drain_item_ok(d2));
                            assert(entry_drain_weight(Entry::Node(child)) == 1 + slots_drain_weight(child.data.slots@, 0));
                            assert(entry_depth(Entry::Node(child)) == drain_item_depth(d2));
                            lemma_drain_push(st1, d2);
                            assert forall|m: int| 0 <= m < self.stack@.len() implies drain_item_fits(#[trigger] self.stack@[m], m) by {
                                if m < st1.len() {
                                    assert(self.stack@[m] == st1[m]);
                                }
                            }
                            assert(self.remaining() =~= rem0);
                        }
                        None
                    },
                    Entry::SmallNode(child) => {
                        self.stack.push(DrainItem::SmallNode(child));
                        proof {
                            let d2 = DrainItem::SmallNode(child);
                            assert(entry_chunks_ok(Entry::SmallNode(child)) == drain_item_ok(d2));
                            assert(entry_drain_weight(Entry::SmallNode(child)) == 1 + slots_drain_weight(child.data.slots@, 0));
                            lemma_drain_push(st1, d2);
                            assert forall|m: int| 0 <= m < self.stack@.len() implies drain_item_fits(#[trigger] self.stack@[m], m) by {
                                if m < st1.len() {
                                    assert(self.stack@[m] == st1[m]);
                                }
                            }
                            assert(self.remaining() =~= rem0);
                        }
                        None
                    },
                    Entry::Collision(coll) => {
                        self.stack.push(DrainItem::Collision(coll));
                        proof {
                            let d2 = DrainItem::Collision(coll);
                            lemma_drain_push(st1, d2);
                            assert forall|m: int| 0 <= m < self.stack@.len() implies drain_item_fits(#[trigger] self.stack@[m], m) by {
                                if m < st1.len() {
                                    assert(self.stack@[m] == st1[m]);
                                }
                            }
                            assert(self.remaining() =~= rem0);
                        }
                        None
                    },
                }
            },
            None => {
                proof {
                    lemma_drain_skip(s, 0, s.len());
                    assert(self.remaining() =~= rem0);
                }
                None
            },
        }
    }

    /// Takes the next step of draining the small node `top`, just taken off the
    /// stack: the next item if that step takes one out, with the rest put
    /// back; or else nothing, with what is left of it put back, if anything.
    fn drain_small(&mut self, top: Arc<SmallNode<A>>) -> (r: Option<(A, HashBits)>)
        requires
            old(self).wf(),
            drain_item_fits(DrainItem::SmallNode(top), old(self).stack@.len() as int),
            drain_item_items(DrainItem::SmallNode(top)).len() + old(self).remaining().len() <= old(self).count,
        ensures
            final(self).wf(),
            r is None ==> final(self).remaining() == drain_item_items(DrainItem::SmallNode(top)) + old(self).remaining()
                && final(self).count == old(self).count && drain_stack_weight(final(self).stack@)
                < drain_item_weight(DrainItem::SmallNode(top)) + drain_stack_weight(old(self).stack@),
            r is Some ==> drain_item_items(DrainItem::SmallNode(top)).len() > 0 && r == Some(drain_item_items(DrainItem::SmallNode(top))[0])
                && final(self).remaining() == drain_item_items(DrainItem::SmallNode(top)).drop_first() + old(self).remaining()
                && final(self).count == old(self).count - 1,
    {
        let ghost d0 = DrainItem::SmallNode(top);
        let ghost below = self.stack@;
        let ghost rem0 = drain_item_items(d0) + self.remaining();
        let ghost s = top.data.slots@;
        let mut small_ref = top;
        let small = make_mut(&mut small_ref);
        match small.data.pop() {
            Some(Entry::Value(value, hash)) => {
                let ghost s2 = small.data.slots@;
                let ghost i = choose|i: int|
                    0 <= i < s.len() && s[i] == Some(Entry::Value(value, hash)) && (forall|m: int|
                        0 <= m < i ==> s[m] is None) && s2 == s.update(i, None);
                proof {
                    lemma_drain_skip(s, 0, i as nat);
                    lemma_drain_skip(s2, 0, (i + 1) as nat);
                    lemma_drain_suffix(s, s2, (i + 1) as nat);
                    assert(small_values(s, i as nat) == seq![(value, hash)] + small_values(s, (i + 1) as nat));
                    assert(slots_drain_weight(s, i as nat) == 1 + entry_drain_weight(Entry::Value(value, hash)) + slots_drain_weight(s, (i + 1) as nat));
                    assert(slots_chunks_ok(s, i as nat) == slots_chunks_ok(s, (i + 1) as nat));
                }
                self.stack.push(DrainItem::SmallNode(small_ref));
                proof {
                    let d1 = DrainItem::SmallNode(small_ref);
                    assert(drain_item_ok(d1));
                    lemma_drain_push(below, d1);
                    assert forall|m: int| 0 <= m < self.stack@.len() implies drain_item_fits(#[trigger] self.stack@[m], m) by {
                        if m < below.len() {
                            assert(self.stack@[m] == below[m]);
                        }
                    }
                    assert(rem0.drop_first() =~= self.remaining());
                }
                self.count = self.count - 1;
                Some((value, hash))
            },
            Some(_) => {
                proof {
                    let i = choose|i: int| 0 <= i < s.len() && s[i] is Some && (forall|m: int| 0 <= m < i ==> s[m] is None);
                    lemma_drain_skip(s, 0, i as nat);
                    assert(self.remaining() =~= rem0);
                }
                None
            },
            None => {
                proof {
                    lemma_drain_skip(s, 0, s.len());
                    assert(self.remaining() =~= rem0);
                }
                None
            },
        }
    }

    /// Takes the next step of draining the collision node `top`, just taken off the
    /// stack: the next item if that step takes one out, with the rest put
    /// back; or else nothing, with what is left of it put back, if anything.
    fn drain_collision(&mut self, top: Arc<CollisionNode<A>>) -> (r: Option<(A, HashBits)>)
        requires
            old(self).wf(),
            drain_item_fits(DrainItem::Collision(top), old(self).stack@.len() as int),
            drain_item_items(DrainItem::Collision(top)).len() + old(self).remaining().len() <= old(self).count,
        ensures
            final(self).wf(),
            r is None ==> final(self).remaining() == drain_item_items(DrainItem::Collision(top)) + old(self).remaining()
                && final(self).count == old(self).count && drain_stack_weight(final(self).stack@)
                < drain_item_weight(DrainItem::Collision(top)) + drain_stack_weight(old(self).stack@),
            r is Some ==> drain_item_items(DrainItem::Collision(top)).len() > 0 && r == Some(drain_item_items(DrainItem::Collision(top))[0])
                && final(self).remaining() == drain_item_items(DrainItem::Collision(top)).drop_first() + old(self).remaining()
                && final(self).count == old(self).count - 1,
    {
        let ghost d0 = DrainItem::Collision(top);
        let ghost below = self.stack@;
        let ghost rem0 = drain_item_items(d0) + self.remaining();
        let ghost c0 = pointee(top);
        let mut coll_ref = top;
        let coll = make_mut(&mut coll_ref);
        match coll.data.pop() {
            Some(value) => {
                let hash = coll.hash;
                self.stack.push(DrainItem::Collision(coll_ref));
                proof {
                    let d1 = DrainItem::Collision(coll_ref);
                    lemma_drain_push(below, d1);
                    assert(coll_items(pointee(coll_ref)).reverse() =~= coll_items(c0).reverse().drop_first());
                    assert(coll_items(c0).reverse()[0] == (value, hash));
                    assert forall|m: int| 0 <= m < self.stack@.len() implies drain_item_fits(#[trigger] self.stack@[m], m) by {
                        if m < below.len() {
                            assert(self.stack@[m] == below[m]);
                        }
                    }
                    assert(rem0.drop_first() =~= self.remaining());
                }
                self.count = self.count - 1;
                Some((value, hash))
            },
            None => {
                proof {
                    assert(coll_items(c0).reverse() =~= Seq::empty());
                    assert(self.remaining() =~= rem0);
                }
                None
            },
        }
    }

    /// The number of items left, as both bounds.
    pub fn size_hint(&self) -> (r: (usize, Option<usize>))
        ensures
            r == (self.count, Some(self.count)),
    {
        (self.count, Some(self.count))
    }
}

} // verus!
