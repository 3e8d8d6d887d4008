//! Walking the items under a node by shared reference, in the order of its
//! slots: a value is met where it stands, and a child or a collision node is
//! walked through before the slots after it.

use vstd::prelude::*;
use crate::bits::{HashBits, ITER_STACK_CAPACITY};
use crate::node::{coll_items, node_items, opt_items, slots_items, Entry, Node};

verus! {

/// How much walking is left in what an entry holds: one step for each slot
/// of a child and each value of a collision node, and one for leaving it.
pub open spec fn entry_weight<A>(e: Entry<A>) -> nat
    decreases e, 0nat, 0nat,
{
    match e {
        Entry::Value(_, _) => 0,
        Entry::Collision(c) => c.data@.len() + 1,
        Entry::Node(n) => {
            proof {
                assert(decreases_to!(n => n.data));
                assert(decreases_to!(n.data => n.data.slots));
                assert(decreases_to!(n.data.slots => n.data.slots@));
            }
            1 + slots_weight(n.data.slots@, 0)
        },
        Entry::SmallNode(n) => {
            proof {
                assert(decreases_to!(n => n.data));
                assert(decreases_to!(n.data => n.data.slots));
                assert(decreases_to!(n.data.slots => n.data.slots@));
            }
            1 + slots_weight(n.data.slots@, 0)
        },
    }
}

/// How much walking is left in slots `j..` of `s`.
pub open spec fn slots_weight<A>(s: Seq<Option<Entry<A>>>, j: nat) -> nat
    decreases s, 1nat, s.len() - j,
{
    if j >= s.len() {
        0
    } else {
        match s[j as int] {
            None => 1 + slots_weight(s, j + 1),
            Some(e) => {
                proof {
                    assert(decreases_to!(s => s[j as int]));
                }
                1 + entry_weight(e) + slots_weight(s, j + 1)
            },
        }
    }
}

/// A place in the walk of a node: its slots and the next slot to look at.
pub type Frame<'a, A> = (&'a Vec<Option<Entry<A>>>, usize);

/// The items still to be met in a frame.
pub open spec fn frame_items<A>(f: Frame<A>) -> Seq<(A, HashBits)> {
    slots_items(f.0@, f.1 as nat)
}

/// The walking left in a frame, and one step for leaving it.
pub open spec fn frame_weight<A>(f: Frame<A>) -> nat {
    1 + slots_weight(f.0@, f.1 as nat)
}

/// The items still to be met in a stack of frames, the top one first.
pub open spec fn stack_items<A>(st: Seq<Frame<A>>) -> Seq<(A, HashBits)>
    decreases st.len(),
{
    if st.len() == 0 {
        Seq::empty()
    } else {
        frame_items(st.last()) + stack_items(st.drop_last())
    }
}

/// The walking left in a stack of frames.
pub open spec fn stack_weight<A>(st: Seq<Frame<A>>) -> nat
    decreases st.len(),
{
    if st.len() == 0 {
        0
    } else {
        frame_weight(st.last()) + stack_weight(st.drop_last())
    }
}

/// Pushing a frame puts its items first.
pub proof fn lemma_stack_push<A>(st: Seq<Frame<A>>, f: Frame<A>)
    ensures
        stack_items(st.push(f)) == frame_items(f) + stack_items(st),
        stack_weight(st.push(f)) == frame_weight(f) + stack_weight(st),
{
    assert(st.push(f).drop_last() =~= st);
}

/// An iterator over the items under a node, by reference, each with its
/// hash.
pub struct Iter<'a, A> {
    /// The number of items left, as the iterator was told at the start.
    pub count: usize,
    /// The nodes being walked, the innermost last.
    pub stack: Vec<Frame<'a, A>>,
    /// The collision node being walked, if any: its hash, its values and the
    /// next one to give.
    pub collision: Option<(HashBits, &'a Vec<A>, usize)>,
}

impl<'a, A> Iter<'a, A> {
    /// The items of the collision node still to be given.
    pub open spec fn collision_items(&self) -> Seq<(A, HashBits)> {
        match self.collision {
            None => Seq::empty(),
            Some((h, v, p)) => Seq::new((v@.len() - p) as nat, |i: int| (v@[p + i], h)),
        }
    }

    /// The items still to be given, in order.
    pub open spec fn remaining(&self) -> Seq<(A, HashBits)> {
        self.collision_items() + stack_items(self.stack@)
    }

    /// The walking left.
    pub open spec fn weight(&self) -> nat {
        (match self.collision {
            None => 0,
            Some((_, v, p)) => (v@.len() - p + 1) as nat,
        }) + stack_weight(self.stack@)
    }

    /// Every place is within its node, and the count covers what is left.
    pub open spec fn wf(&self) -> bool {
        &&& self.remaining().len() <= self.count
        &&& (self.collision matches Some((_, v, p)) ==> p <= v@.len())
        &&& forall|i: int| 0 <= i < self.stack@.len() ==> (#[trigger] self.stack@[i]).1 <= self.stack@[i].0@.len()
    }

    /// An iterator over the items under `root`, if any, told that there are
    /// `size` of them; `next` can be called on it (`wf`) when `size` covers
    /// the items.
    pub fn new(root: Option<&'a Node<A>>, size: usize) -> (r: Self)
        ensures
            r.wf() <==> (root matches Some(n) ==> node_items(*n).len() <= size),
            r.count == size,
            r.remaining() == match root {
                Some(n) => node_items(*n),
                None => Seq::empty(),
            },
    {
        let mut result = Iter { count: size, stack: Vec::with_capacity(ITER_STACK_CAPACITY), collision: None };
        proof {
            assert(result.collision_items() =~= Seq::empty());
        }
        if let Some(node) = root {
            result.stack.push((&node.data.slots, 0));
            proof {
                lemma_stack_push(Seq::empty(), (&node.data.slots, 0usize));
                assert(result.stack@ =~= Seq::<Frame<A>>::empty().push((&node.data.slots, 0usize)));
            }
        }
        proof {
            assert(result.remaining() =~= match root {
                Some(n) => node_items(*n),
                None => Seq::empty(),
            });
        }
        result
    }

    /// The next item and its hash.
    pub fn next(&mut self) -> (r: Option<(&'a A, HashBits)>)
        requires
            old(self).wf(),
        ensures
            final(self).wf(),
            old(self).remaining().len() == 0 ==> r is None && final(self).remaining() == old(self).remaining()
                && final(self).count == old(self).count,
            old(self).remaining().len() > 0 ==> (r matches Some((v, h)) && *v == old(self).remaining()[0].0 && h
                == old(self).remaining()[0].1 && final(self).remaining() == old(self).remaining().drop_first()
                && final(self).count == old(self).count - 1),
    {
        let ghost rem0 = self.remaining();
        let ghost count0 = self.count;
        loop
            invariant
                self.wf(),
                self.remaining() == rem0,
                self.count == count0,
                rem0 == old(self).remaining(),
                count0 == old(self).count,
            decreases self.weight(),
        {
            let ghost w0 = self.weight();
            if let Some((hash, values, pos)) = self.collision {
                if pos < values.len() {
                    let ghost left = self.collision_items();
                    self.collision = Some((hash, values, pos + 1));
                    self.count = self.count - 1;
                    proof {
                        assert(self.collision_items() =~= left.drop_first());
                        assert(left[0] == (values@[pos as int], hash));
                        assert(self.remaining() =~= rem0.drop_first());
                    }
                    return Some((&values[pos], hash));
                }
                self.collision = None;
                proof {
                    assert(self.remaining() =~= rem0);
                }
            }
            if self.stack.len() == 0 {
                proof {
                    assert(self.remaining() =~= Seq::empty());
                }
                return None;
            }
            let stepped = self.walk_step();
            if stepped.is_some() {
                return stepped;
            }
        }
    }

    /// One step of the walk of the node on top of the stack, when no
    /// collision node is being walked: the next item if that step meets one,
    /// or else nothing, with the same items left and less walking.
    fn walk_step(&mut self) -> (r: Option<(&'a A, HashBits)>)
        requires
            old(self).wf(),
            old(self).collision is None,
            old(self).stack@.len() > 0,
        ensures
            final(self).wf(),
            r is None ==> final(self).remaining() == old(self).remaining() && final(self).count == old(self).count
                && final(self).weight() < old(self).weight(),
            r is Some ==> old(self).remaining().len() > 0,
            r matches Some((v, h)) ==> *v == old(self).remaining()[0].0 && h == old(self).remaining()[0].1
                && final(self).remaining() == old(self).remaining().drop_first() && final(self).count == old(self).count - 1,
    {
        let ghost rem0 = self.remaining();
        let ghost w0 = self.weight();
        let ghost st = self.stack@;
        proof {
            assert(self.collision_items() =~= Seq::empty());
        }
        match self.stack.pop() {
            None => {
                assert(false);
            },
            Some((slots, pos)) => {
                let ghost s = slots@;
                proof {
                    assert(stack_weight(st) == frame_weight(st.last()) + stack_weight(st.drop_last()));
                    assert(frame_weight((slots, pos)) + stack_weight(st.drop_last()) <= w0);
                    assert(st.drop_last() =~= self.stack@);
                    assert(st.last() == (slots, pos));
                    assert(self.collision_items() =~= Seq::empty());
                }
                if pos < slots.len() {
                    self.stack.push((slots, pos + 1));
                    let ghost rest = self.remaining();
                    proof {
                        lemma_stack_push(st.drop_last(), (slots, (pos + 1) as usize));
                        crate::node::lemma_slots_step(s, pos as nat);
                        assert(rem0 =~= opt_items(s[pos as int]) + rest);
                        assert(slots_weight(s, pos as nat) == 1 + match s[pos as int] {
                            None => 0,
                            Some(e) => entry_weight(e),
                        } + slots_weight(s, (pos + 1) as nat));
                    }
                    match &slots[pos] {
                        Some(Entry::Value(v, h)) => {
                            proof {
                                assert(opt_items(s[pos as int]) == seq![(*v, *h)]);
                                assert(rem0 =~= seq![(*v, *h)] + rest);
                                assert(rem0.drop_first() =~= rest);
                            }
                            self.count = self.count - 1;
                            return Some((v, *h));
                        },
                        Some(Entry::Node(c)) => {
                            self.stack.push((&c.data.slots, 0));
                            proof {
                                lemma_stack_push(st.drop_last().push((slots, (pos + 1) as usize)), (&c.data.slots, 0usize));
                                assert(opt_items(s[pos as int]) == slots_items(c.data.slots@, 0));
                                assert(self.remaining() =~= rem0);
                                assert(entry_weight(Entry::Node(*c)) == 1 + slots_weight(c.data.slots@, 0));
                            }
                        },
                        Some(Entry::SmallNode(c)) => {
                            self.stack.push((&c.data.slots, 0));
                            proof {
                                lemma_stack_push(st.drop_last().push((slots, (pos + 1) as usize)), (&c.data.slots, 0usize));
                                assert(opt_items(s[pos as int]) == slots_items(c.data.slots@, 0));
                                assert(self.remaining() =~= rem0);
                                assert(entry_weight(Entry::SmallNode(*c)) == 1 + slots_weight(c.data.slots@, 0));
                            }
                        },
                        Some(Entry::Collision(c)) => {
                            self.collision = Some((c.hash, &c.data, 0));
                            proof {
                                assert(self.collision_items() =~= coll_items(**c));
                                assert(self.remaining() =~= rem0);
                            }
                        },
                        None => {
                            proof {
                                assert(self.remaining() =~= rem0);
                            }
                        },
                    }
                } else {
                    proof {
                        assert(self.remaining() =~= rem0);
                    }
                }
            },
        }
        None
    }

    /// The number of items left, as both bounds.
    pub fn size_hint(&self) -> (r: (usize, Option<usize>))
        ensures
            r == (self.count, Some(self.count)),
    {
        (self.count, Some(self.count))
    }
}

impl<'a, A> Clone for Iter<'a, A> {
    /// A second iterator at the same place.
    fn clone(&self) -> (r: Self)
        ensures
            r.count == self.count,
            r.stack@ == self.stack@,
            r.collision == self.collision,
    {
        let mut stack: Vec<Frame<'a, A>> = Vec::new();
        let mut i: usize = 0;
        while i < self.stack.len()
            invariant
                i <= self.stack@.len(),
                stack@ == self.stack@.take(i as int),
            decreases self.stack@.len() - i,
        {
            stack.push(self.stack[i]);
            i = i + 1;
            proof {
                assert(stack@ =~= self.stack@.take(i as int));
            }
        }
        proof {
            assert(self.stack@.take(i as int) =~= self.stack@);
        }
        Iter { count: self.count, stack, collision: self.collision }
    }
}

} // verus!
