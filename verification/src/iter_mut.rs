//! Walking the items under a node by mutable reference, in the same order as
//! the walk by shared reference. Every child and collision node on the way
//! is made unique before it is walked.

use vstd::prelude::*;
use std::sync::Arc;
use crate::bits::{HashBits, ITER_STACK_CAPACITY};
use crate::iter::{entry_weight, slots_weight};
use crate::node::{coll_items, node_items, opt_items, slots_items, Entry, Node};
use crate::shared::make_mut;
use crate::value::HashValue;

verus! {

/// The slots from `j` on are walked the same whether or not the slots
/// before `j` are cut off first.
pub proof fn lemma_slots_drop<A>(s: Seq<Option<Entry<A>>>, j: int, k: nat)
    requires
        0 <= j <= s.len(),
    ensures
        slots_items(s.subrange(j, s.len() as int), k) == slots_items(s, (j + k) as nat),
        slots_weight(s.subrange(j, s.len() as int), k) == slots_weight(s, (j + k) as nat),
    decreases s.len() - j - k,
{
    let t = s.subrange(j, s.len() as int);
    if j + k < s.len() {
        lemma_slots_drop(s, j, k + 1);
        assert(t[k as int] == s[j + k]);
    }
}

/// The items still to be met in the slots a frame holds.
pub open spec fn mut_frame_items<A>(f: &mut [Option<Entry<A>>]) -> Seq<(A, HashBits)> {
    slots_items((*f)@, 0)
}

/// The walking left in a frame, and one step for leaving it.
pub open spec fn mut_frame_weight<A>(f: &mut [Option<Entry<A>>]) -> nat {
    1 + slots_weight((*f)@, 0)
}

/// The items still to be met in a stack of frames, the top one first.
pub open spec fn mut_stack_items<A>(st: Seq<&mut [Option<Entry<A>>]>) -> Seq<(A, HashBits)>
    decreases st.len(),
{
    if st.len() == 0 {
        Seq::empty()
    } else {
        mut_frame_items(st.last()) + mut_stack_items(st.drop_last())
    }
}

/// The walking left in a stack of frames.
pub open spec fn mut_stack_weight<A>(st: Seq<&mut [Option<Entry<A>>]>) -> nat
    decreases st.len(),
{
    if st.len() == 0 {
        0
    } else {
        mut_frame_weight(st.last()) + mut_stack_weight(st.drop_last())
    }
}

/// Pushing a frame puts its items first.
pub proof fn lemma_mut_stack_push<A>(st: Seq<&mut [Option<Entry<A>>]>, f: &mut [Option<Entry<A>>])
    ensures
        mut_stack_items(st.push(f)) == mut_frame_items(f) + mut_stack_items(st),
        mut_stack_weight(st.push(f)) == mut_frame_weight(f) + mut_stack_weight(st),
{
    assert(st.push(f).drop_last() =~= st);
}

/// Entry `b` is entry `a` with at most its values changed: the same variant,
/// hashes, flags and counts, and children that are those of `a` with at most
/// their values changed.
pub open spec fn entry_refill<A>(a: Entry<A>, b: Entry<A>) -> bool
    decreases a, 0nat, 0nat,
{
    match a {
        Entry::Value(_, h) => b matches Entry::Value(_, h2) && h2 == h,
        Entry::Collision(c) => b matches Entry::Collision(d) && d.hash == c.hash && d.data@.len() == c.data@.len(),
        Entry::Node(c) => {
            proof {
                assert(decreases_to!(c => c.data));
                assert(decreases_to!(c.data => c.data.slots));
                assert(decreases_to!(c.data.slots => c.data.slots@));
            }
            b matches Entry::Node(d) && d.linear_probing == c.linear_probing && d.data.len == c.data.len
                && slots_refill(c.data.slots@, d.data.slots@, 0)
        },
        Entry::SmallNode(c) => {
            proof {
                assert(decreases_to!(c => c.data));
                assert(decreases_to!(c.data => c.data.slots));
                assert(decreases_to!(c.data.slots => c.data.slots@));
            }
            b matches Entry::SmallNode(d) && d.data.len == c.data.len && slots_refill(c.data.slots@, d.data.slots@, 0)
        },
    }
}

/// Slots `j..` of `b` are those of `a` with at most their values changed,
/// and the two have as many slots.
pub open spec fn slots_refill<A>(a: Seq<Option<Entry<A>>>, b: Seq<Option<Entry<A>>>, j: nat) -> bool
    decreases a, 1nat, a.len() - j,
{
    if j >= a.len() {
        b.len() == a.len()
    } else {
        (match a[j as int] {
            None => b[j as int] is None,
            Some(e) => {
                proof {
                    assert(decreases_to!(a => a[j as int]));
                }
                b[j as int] matches Some(f) && entry_refill(e, f)
            },
        }) && slots_refill(a, b, j + 1)
    }
}

/// The values of a sequence of items.
pub open spec fn items_values<A>(s: Seq<(A, HashBits)>) -> Seq<A> {
    s.map_values(|x: (A, HashBits)| x.0)
}

/// The items of a stack of slot arrays, the top (last) one first.
pub open spec fn frames_items<A>(fs: Seq<Seq<Option<Entry<A>>>>) -> Seq<(A, HashBits)>
    decreases fs.len(),
{
    if fs.len() == 0 {
        Seq::empty()
    } else {
        slots_items(fs.last(), 0) + frames_items(fs.drop_last())
    }
}

/// Each slot array of `fin` is the one of `cur` at the same place with at
/// most its values changed.
pub open spec fn frames_refill<A>(cur: Seq<Seq<Option<Entry<A>>>>, fin: Seq<Seq<Option<Entry<A>>>>) -> bool {
    &&& cur.len() == fin.len()
    &&& forall|i: int| 0 <= i < cur.len() ==> slots_refill(#[trigger] cur[i], fin[i], 0)
}

/// The values still to be given by a walk whose frames end up holding `fin`
/// and whose collision node ends up holding `fin_coll`: those of the
/// collision node, then those of the frames, the innermost first.
pub open spec fn walk_values<A>(fin: Seq<Seq<Option<Entry<A>>>>, fin_coll: Seq<A>) -> Seq<A> {
    fin_coll + items_values(frames_items(fin))
}

/// Cutting off the slots before `j` keeps what holds of the slots from `j`
/// on.
pub proof fn lemma_refill_drop<A>(a: Seq<Option<Entry<A>>>, b: Seq<Option<Entry<A>>>, j: int, k: nat)
    requires
        0 <= j <= a.len(),
        j <= b.len(),
        b.len() == a.len(),
    ensures
        slots_refill(a.subrange(j, a.len() as int), b.subrange(j, b.len() as int), k) == slots_refill(a, b, (j + k) as nat),
    decreases a.len() - j - k,
{
    let sa = a.subrange(j, a.len() as int);
    let sb = b.subrange(j, b.len() as int);
    if j + k < a.len() {
        lemma_refill_drop(a, b, j, k + 1);
        assert(sa[k as int] == a[j + k]);
        assert(sb[k as int] == b[j + k]);
    }
}

/// Every array of slots is itself with at most its values changed.
pub proof fn lemma_refill_same<A>(a: Seq<Option<Entry<A>>>, j: nat)
    ensures
        slots_refill(a, a, j),
    decreases a, 1nat, a.len() - j,
{
    if j < a.len() {
        lemma_refill_same(a, j + 1);
        match a[j as int] {
            None => {},
            Some(e) => {
                assert(decreases_to!(a => a[j as int]));
                lemma_entry_refill_same(e);
            },
        }
    }
}

/// Every entry is itself with at most its values changed.
pub proof fn lemma_entry_refill_same<A>(e: Entry<A>)
    ensures
        entry_refill(e, e),
    decreases e, 0nat, 0nat,
{
    match e {
        Entry::Node(c) => {
            assert(decreases_to!(c => c.data));
            assert(decreases_to!(c.data => c.data.slots));
            assert(decreases_to!(c.data.slots => c.data.slots@));
            lemma_refill_same(c.data.slots@, 0);
        },
        Entry::SmallNode(c) => {
            assert(decreases_to!(c => c.data));
            assert(decreases_to!(c.data => c.data.slots));
            assert(decreases_to!(c.data.slots => c.data.slots@));
            lemma_refill_same(c.data.slots@, 0);
        },
        _ => {},
    }
}

/// The items of a stack of frames are those of the slots that the frames
/// hold.
pub proof fn lemma_frames_items<A>(st: Seq<&mut [Option<Entry<A>>]>)
    ensures
        mut_stack_items(st) == frames_items(st.map_values(|f: &mut [Option<Entry<A>>]| (*f)@)),
    decreases st.len(),
{
    let fs = st.map_values(|f: &mut [Option<Entry<A>>]| (*f)@);
    if st.len() > 0 {
        lemma_frames_items(st.drop_last());
        assert(st.drop_last().map_values(|f: &mut [Option<Entry<A>>]| (*f)@) =~= fs.drop_last());
    }
}

/// The values of two sequences of items one after the other.
pub proof fn lemma_values_concat<A>(a: Seq<(A, HashBits)>, b: Seq<(A, HashBits)>)
    ensures
        items_values(a + b) == items_values(a) + items_values(b),
{
    assert(items_values(a + b) =~= items_values(a) + items_values(b));
}

/// Slots with at most their values changed are as many.
pub proof fn lemma_refill_len<A>(a: Seq<Option<Entry<A>>>, b: Seq<Option<Entry<A>>>, j: nat)
    requires
        slots_refill(a, b, j),
    ensures
        a.len() == b.len(),
    decreases a.len() - j,
{
    if j < a.len() {
        lemma_refill_len(a, b, j + 1);
    }
}

/// One more frame on top: its items come first, and the stack holds what it
/// held with at most values changed exactly when the rest and the new top
/// do.
pub proof fn lemma_frames_push<A>(
    b: Seq<Seq<Option<Entry<A>>>>,
    g: Seq<Seq<Option<Entry<A>>>>,
    t: Seq<Option<Entry<A>>>,
    ft: Seq<Option<Entry<A>>>,
)
    ensures
        frames_items(g.push(ft)) == slots_items(ft, 0) + frames_items(g),
        frames_refill(b.push(t), g.push(ft)) <==> (frames_refill(b, g) && slots_refill(t, ft, 0)),
{
    assert(g.push(ft).drop_last() =~= g);
    if frames_refill(b.push(t), g.push(ft)) {
        assert forall|i: int| 0 <= i < b.len() implies slots_refill(#[trigger] b[i], g[i], 0) by {
            assert(b.push(t)[i] == b[i]);
            assert(g.push(ft)[i] == g[i]);
        }
        assert(b.push(t)[b.len() as int] == t);
        assert(g.push(ft)[b.len() as int] == ft);
    }
    if frames_refill(b, g) && slots_refill(t, ft, 0) {
        assert forall|i: int| 0 <= i < b.push(t).len() implies slots_refill(#[trigger] b.push(t)[i], g.push(ft)[i], 0) by {
            if i < b.len() {
                assert(b.push(t)[i] == b[i]);
                assert(g.push(ft)[i] == g[i]);
            }
        }
    }
}

/// Slots made of a first slot `fs` and then `rest`: their items are those of
/// `fs` and then those of `rest`, and they are `s` with at most values
/// changed when `fs` is the first slot of `s` and `rest` the others, each
/// with at most values changed.
pub proof fn lemma_slot_first<A>(s: Seq<Option<Entry<A>>>, fs: Option<Entry<A>>, rest: Seq<Option<Entry<A>>>)
    requires
        s.len() >= 1,
    ensures
        slots_items(seq![fs] + rest, 0) == opt_items(fs) + slots_items(rest, 0),
        (match s[0] {
            None => fs is None,
            Some(e) => fs matches Some(f) && entry_refill(e, f),
        }) && slots_refill(s.subrange(1, s.len() as int), rest, 0) ==> slots_refill(s, seq![fs] + rest, 0),
{
    let b = seq![fs] + rest;
    assert(b.subrange(1, b.len() as int) =~= rest);
    assert(b[0] == fs);
    lemma_slots_drop(b, 1, 0);
    crate::node::lemma_slots_step(b, 0);
    if slots_refill(s.subrange(1, s.len() as int), rest, 0) {
        lemma_refill_len(s.subrange(1, s.len() as int), rest, 0);
        lemma_refill_drop(s, b, 1, 0);
    }
}

/// An iterator over the items under a node, by mutable reference, each with
/// its hash.
pub struct IterMut<'a, A> {
    /// The number of items left, as the iterator was told at the start.
    pub count: usize,
    /// The slots still to be walked in each node being walked, the innermost
    /// last.
    pub stack: Vec<&'a mut [Option<Entry<A>>]>,
    /// The collision node being walked, if any: its hash and the values
    /// still to be given.
    pub collision: Option<(HashBits, &'a mut [A])>,
}

impl<'a, A: HashValue + Clone> IterMut<'a, A> {
    /// The items of the collision node still to be given.
    pub open spec fn collision_items(&self) -> Seq<(A, HashBits)> {
        match self.collision {
            None => Seq::empty(),
            Some((h, v)) => Seq::new((*v)@.len(), |i: int| ((*v)@[i], h)),
        }
    }

    /// The items still to be given, in order.
    pub open spec fn remaining(&self) -> Seq<(A, HashBits)> {
        self.collision_items() + mut_stack_items(self.stack@)
    }

    /// The slots that each frame holds now, the innermost last.
    pub open spec fn frames(&self) -> Seq<Seq<Option<Entry<A>>>> {
        self.stack@.map_values(|f: &'a mut [Option<Entry<A>>]| (*f)@)
    }

    /// The values of the collision node still to be given.
    pub open spec fn coll_values(&self) -> Seq<A> {
        match self.collision {
            None => Seq::empty(),
            Some((_, v)) => (*v)@,
        }
    }

    /// Frames left holding `fin` and a collision node left holding
    /// `fin_coll` hold what they hold now with at most values changed.
    pub open spec fn refilled(&self, fin: Seq<Seq<Option<Entry<A>>>>, fin_coll: Seq<A>) -> bool {
        &&& frames_refill(self.frames(), fin)
        &&& fin_coll.len() == self.coll_values().len()
    }

    /// Frames and a collision node left as they are now hold what they hold
    /// now, and the values still to be given are those of the items left.
    pub proof fn lemma_refilled_unchanged(&self)
        ensures
            self.refilled(self.frames(), self.coll_values()),
            walk_values(self.frames(), self.coll_values()) == items_values(self.remaining()),
    {
        assert forall|i: int| 0 <= i < self.frames().len() implies slots_refill(#[trigger] self.frames()[i], self.frames()[i], 0) by {
            lemma_refill_same(self.frames()[i], 0);
        }
        lemma_frames_items(self.stack@);
        lemma_values_concat(self.collision_items(), mut_stack_items(self.stack@));
        assert(items_values(self.collision_items()) =~= self.coll_values());
    }

    /// The walking left.
    pub open spec fn weight(&self) -> nat {
        (match self.collision {
            None => 0,
            Some((_, v)) => (*v)@.len() + 1,
        }) + mut_stack_weight(self.stack@)
    }

    /// The count covers what is left.
    pub open spec fn wf(&self) -> bool {
        self.remaining().len() <= self.count
    }

    /// An iterator over the items under `root`, if any, told that there are
    /// `size` of them; `next` can be called on it (`wf`) when `size` covers
    /// the items. The node is left with its flag and count, and with
    /// the slots its frames are left holding: if those hold what they hold
    /// now with at most values changed, so does the node, and its values are
    /// then, in walk order, those that the walk leaves (`walk_values`).
    pub fn new(root: Option<&'a mut Node<A>>, size: usize) -> (r: Self)
        ensures
            r.wf() <==> (root matches Some(n) ==> node_items(*n).len() <= size),
            r.count == size,
            r.remaining() == match root {
                Some(n) => node_items(*n),
                None => Seq::empty(),
            },
            root matches Some(n) ==> final(n).linear_probing == n.linear_probing,
            root matches Some(n) ==> final(n).data.len == n.data.len,
            root matches Some(n) ==> (r.refilled(r.stack@.map_values(|f: &'a mut [Option<Entry<A>>]| (*final(f))@), (match r.collision { Some((_, v)) => (*final(v))@, None => Seq::<A>::empty() }))
                ==> slots_refill(n.data.slots@, final(n).data.slots@, 0)),
            root matches Some(n) ==> items_values(node_items(*final(n))) == walk_values(r.stack@.map_values(|f: &'a mut [Option<Entry<A>>]| (*final(f))@), (match r.collision { Some((_, v)) => (*final(v))@, None => Seq::<A>::empty() }))
    {
        let mut result = IterMut { count: size, stack: Vec::with_capacity(ITER_STACK_CAPACITY), collision: None };
        proof {
            assert(result.collision_items() =~= Seq::empty());
            assert(result.remaining() =~= Seq::empty());
        }
        if let Some(node) = root {
            let ghost items = node_items(*node);
            let slots = node.data.slots.as_mut_slice();
            let ghost v = slots@;
            result.stack.push(slots);
            proof {
                let st = result.stack@;
                assert(st.drop_last() =~= Seq::empty());
                assert((*st.last())@ == v);
                assert(result.remaining() =~= items);
                let fin = st.map_values(|f: &'a mut [Option<Entry<A>>]| (*final(f))@);
                assert(fin.drop_last() =~= Seq::empty());
                assert(frames_items(fin.drop_last()) == Seq::<(A, HashBits)>::empty());
                assert(frames_items(fin) =~= slots_items(fin[0], 0));
                assert(walk_values(fin, Seq::<A>::empty()) =~= items_values(slots_items(fin[0], 0)));
                assert(result.frames()[0] == v);
                assert(frames_refill(result.frames(), fin) ==> slots_refill(v, fin[0], 0));
            }
        }
        result
    }

    /// The next item, by mutable reference, and its hash. What the walk
    /// leaves before this call is what the reference handed out is left
    /// holding, then what the walk leaves after it; and if the frames after
    /// the call end up holding what they hold with at most values changed,
    /// so do those before it.
    pub fn next(&mut self) -> (r: Option<(&'a mut A, HashBits)>)
        requires
            old(self).wf(),
        ensures
            final(self).wf(),
            old(self).remaining().len() == 0 ==> r is None && final(self).remaining() == old(self).remaining()
                && final(self).count == old(self).count,
            old(self).remaining().len() > 0 ==> r is Some,
            r matches Some((v, h)) ==> *v == old(self).remaining()[0].0 && h == old(self).remaining()[0].1
                && final(self).remaining() == old(self).remaining().drop_first() && final(self).count
                == old(self).count - 1,
            final(self).refilled(final(self).stack@.map_values(|f: &'a mut [Option<Entry<A>>]| (*final(f))@), (match final(self).collision { Some((_, v)) => (*final(v))@, None => Seq::<A>::empty() }))
                ==> old(self).refilled(old(self).stack@.map_values(|f: &'a mut [Option<Entry<A>>]| (*final(f))@), (match old(self).collision { Some((_, v)) => (*final(v))@, None => Seq::<A>::empty() })),
            walk_values(old(self).stack@.map_values(|f: &'a mut [Option<Entry<A>>]| (*final(f))@), (match old(self).collision { Some((_, v)) => (*final(v))@, None => Seq::<A>::empty() })) == (match r {
                Some((v, _)) => seq![*final(v)],
                None => Seq::<A>::empty(),
            }) + walk_values(final(self).stack@.map_values(|f: &'a mut [Option<Entry<A>>]| (*final(f))@), (match final(self).collision { Some((_, v)) => (*final(v))@, None => Seq::<A>::empty() })),
    {
        let ghost rem0 = self.remaining();
        let ghost count0 = self.count;
        loop
            invariant
                self.wf(),
                self.remaining() == rem0,
                self.count == count0,
                rem0 == old(self).remaining(),
                count0 == old(self).count,
                self.refilled(self.stack@.map_values(|f: &'a mut [Option<Entry<A>>]| (*final(f))@), (match self.collision { Some((_, v)) => (*final(v))@, None => Seq::<A>::empty() }))
                    ==> old(self).refilled(old(self).stack@.map_values(|f: &'a mut [Option<Entry<A>>]| (*final(f))@), (match old(self).collision { Some((_, v)) => (*final(v))@, None => Seq::<A>::empty() })),
                walk_values(old(self).stack@.map_values(|f: &'a mut [Option<Entry<A>>]| (*final(f))@), (match old(self).collision { Some((_, v)) => (*final(v))@, None => Seq::<A>::empty() })) == walk_values(self.stack@.map_values(|f: &'a mut [Option<Entry<A>>]| (*final(f))@), (match self.collision { Some((_, v)) => (*final(v))@, None => Seq::<A>::empty() })),
            decreases self.weight(),
        {
            let ghost w0 = self.weight();
            let taken = self.collision.take();
            match taken {
                Some((hash, values)) => {
                    if values.len() > 0 {
                        let ghost left = Seq::new(values@.len(), |i: int| (values@[i], hash));
                        let (first, rest) = values.split_at_mut(1);
                        self.collision = Some((hash, rest));
                        proof {
                            assert(self.collision_items() =~= left.drop_first());
                            assert(self.remaining() =~= rem0.drop_first());
                        }
                        self.count = self.count - 1;
                        match first.first_mut() {
                            Some(v) => {
                                return Some((v, hash));
                            },
                            None => {
                                assert(false);
                                return None;
                            },
                        }
                    }
                    proof {
                        assert(self.remaining() =~= rem0);
                    }
                },
                None => {},
            }
            if self.stack.len() == 0 {
                proof {
                    assert(self.remaining() =~= Seq::empty());
                }
                return None;
            }
            let stepped = self.walk_step();
            if stepped.is_some() {
                return stepped;
            }
        }
    }

    /// One step of the walk of the slots on top of the stack, when no
    /// collision node is being walked: the next item if that step meets one,
    /// or else nothing, with the same items left and less walking.
    fn walk_step(&mut self) -> (r: Option<(&'a mut A, HashBits)>)
        requires
            old(self).wf(),
            old(self).collision is None,
            old(self).stack@.len() > 0,
        ensures
            final(self).wf(),
            r is None ==> final(self).remaining() == old(self).remaining() && final(self).count == old(self).count
                && final(self).weight() < old(self).weight(),
            r is Some ==> old(self).remaining().len() > 0,
            r matches Some((v, h)) ==> *v == old(self).remaining()[0].0 && h == old(self).remaining()[0].1
                && final(self).remaining() == old(self).remaining().drop_first() && final(self).count
                == old(self).count - 1,
            final(self).refilled(final(self).stack@.map_values(|f: &'a mut [Option<Entry<A>>]| (*final(f))@), (match final(self).collision { Some((_, v)) => (*final(v))@, None => Seq::<A>::empty() }))
                ==> old(self).refilled(old(self).stack@.map_values(|f: &'a mut [Option<Entry<A>>]| (*final(f))@), (match old(self).collision { Some((_, v)) => (*final(v))@, None => Seq::<A>::empty() })),
            walk_values(old(self).stack@.map_values(|f: &'a mut [Option<Entry<A>>]| (*final(f))@), (match old(self).collision { Some((_, v)) => (*final(v))@, None => Seq::<A>::empty() })) == (match r {
                Some((v, _)) => seq![*final(v)],
                None => Seq::<A>::empty(),
            }) + walk_values(final(self).stack@.map_values(|f: &'a mut [Option<Entry<A>>]| (*final(f))@), (match final(self).collision { Some((_, v)) => (*final(v))@, None => Seq::<A>::empty() })),
    {
        let ghost rem0 = self.remaining();
        let ghost w0 = self.weight();
        let ghost st = self.stack@;
        proof {
            assert(self.collision_items() =~= Seq::empty());
        }
        let top = self.stack.pop();
        let slots = match top {
            Some(slots) => slots,
            None => {
                assert(false);
                return None;
            },
        };
        let ghost s = slots@;
        let ghost sg = slots;
        proof {
            assert(st.drop_last() =~= self.stack@);
            assert(mut_stack_items(st) == slots_items(s, 0) + mut_stack_items(self.stack@));
            assert(mut_stack_weight(st) == 1 + slots_weight(s, 0) + mut_stack_weight(self.stack@));
        }
        let ghost below = self.stack@;
        let ghost fo = st.map_values(|f: &'a mut [Option<Entry<A>>]| (*final(f))@);
        let ghost fb = below.map_values(|f: &'a mut [Option<Entry<A>>]| (*final(f))@);
        proof {
            assert(st == below.push(slots));
            assert(fo =~= fb.push((*final(slots))@));
            assert(st.map_values(|f: &'a mut [Option<Entry<A>>]| (*f)@) =~= below.map_values(|f: &'a mut [Option<Entry<A>>]| (*f)@).push(s));
            lemma_frames_push(below.map_values(|f: &'a mut [Option<Entry<A>>]| (*f)@), fb, s, (*final(slots))@);
        }
        if slots.len() == 0 {
            proof {
                assert(self.remaining() =~= rem0);
                assert(self.stack@.map_values(|f: &'a mut [Option<Entry<A>>]| (*final(f))@) == fb);
                assert((*final(slots))@.len() == 0);
                assert(slots_refill(s, (*final(slots))@, 0));
                assert(slots_items((*final(slots))@, 0) =~= Seq::empty());
            }
            return None;
        }
        let (first, rest) = slots.split_at_mut(1);
        let ghost fg = first;
        let ghost rg = rest;
        let ghost rest_view = rest@;
        proof {
            assert(rest_view == s.subrange(1, s.len() as int));
        }
        self.stack.push(rest);
        let ghost rest_items = self.remaining();
        proof {
            assert(self.stack@ == below.push(self.stack@.last()));
            assert((*self.stack@.last())@ == rest_view);
            lemma_mut_stack_push(below, self.stack@.last());
            lemma_slots_drop(s, 1, 0);
            crate::node::lemma_slots_step(s, 0);
            assert(rem0 =~= opt_items(s[0]) + rest_items);
            assert(slots_weight(s, 0) == 1 + match s[0] {
                None => 0,
                Some(e) => entry_weight(e),
            } + slots_weight(s, 1));
        }
        let slot = match first.first_mut() {
            Some(slot) => slot,
            None => {
                assert(false);
                return None;
            },
        };
        let ghost slotg = slot;
        proof {
            assert((*final(sg))@ == (*final(fg))@ + (*final(rg))@);
            assert((*final(fg))@ =~= seq![*final(slotg)]);
            lemma_slot_first(s, *final(slotg), (*final(rg))@);
            lemma_frames_push(below.map_values(|f: &'a mut [Option<Entry<A>>]| (*f)@), fb, rest_view, (*final(rg))@);
            assert(self.stack@.map_values(|f: &'a mut [Option<Entry<A>>]| (*final(f))@) =~= fb.push((*final(rg))@));
            assert(self.stack@.map_values(|f: &'a mut [Option<Entry<A>>]| (*f)@) =~= below.map_values(|f: &'a mut [Option<Entry<A>>]| (*f)@).push(rest_view));
        }
        match slot {
            Some(Entry::Value(v, h)) => {
                proof {
                    assert(opt_items(s[0]) == seq![(*v, *h)]);
                    assert(rem0 =~= seq![(*v, *h)] + rest_items);
                    assert(rem0.drop_first() =~= rest_items);
                }
                self.count = self.count - 1;
                let hash = *h;
                proof {
                    assert(*final(slotg) == Some(Entry::Value(*final(v), hash)));
                    assert(items_values(opt_items(*final(slotg))) =~= seq![*final(v)]);
                    let fnn = self.stack@.map_values(|f: &'a mut [Option<Entry<A>>]| (*final(f))@);
                    assert(frames_items(fo) =~= opt_items(*final(slotg)) + frames_items(fnn));
                    lemma_values_concat(opt_items(*final(slotg)), frames_items(fnn));
                    assert(walk_values(fo, Seq::empty()) =~= seq![*final(v)] + walk_values(fnn, Seq::empty()));
                    assert(s[0] == Some(Entry::Value(*v, hash)));
                    assert(rest_view == s.subrange(1, s.len() as int));
                    assert(self.frames() == self.stack@.map_values(|f: &'a mut [Option<Entry<A>>]| (*f)@));
                    assert(self.refilled(fnn, Seq::empty()) ==> frames_refill(st.map_values(|f: &'a mut [Option<Entry<A>>]| (*f)@), fo));
                    assert(self.refilled(fnn, Seq::empty()) ==> old(self).refilled(fo, Seq::empty()));
                }
                Some((v, hash))
            },
            Some(Entry::Node(c)) => {
                let ghost c0 = crate::shared::pointee(*c);
                let ghost cg = c;
                let child = make_mut(c);
                let ghost chg = child;
                let child_slots = child.data.slots.as_mut_slice();
                let ghost csg = child_slots;
                let ghost mid = self.stack@;
                proof {
                    assert(child_slots@ == c0.data.slots@);
                }
                self.stack.push(child_slots);
                proof {
                    assert(self.stack@ == mid.push(self.stack@.last()));
                    assert((*self.stack@.last())@ == c0.data.slots@);
                    lemma_mut_stack_push(mid, self.stack@.last());
                    assert(opt_items(s[0]) == slots_items(c0.data.slots@, 0));
                    assert(self.remaining() =~= rem0);
                    assert(entry_weight(Entry::Node(Arc::new(c0))) == 1 + slots_weight(c0.data.slots@, 0));
                    let fs = *final(slotg);
                    let d = *final(cg);
                    assert(fs == Some(Entry::Node(d)));
                    assert(*d == *final(chg));
                    assert((*final(chg)).data.slots@ == (*final(csg))@);
                    let fnn = self.stack@.map_values(|f: &'a mut [Option<Entry<A>>]| (*final(f))@);
                    let fr = fb.push((*final(rg))@);
                    assert(fnn =~= fr.push((*final(csg))@));
                    let cur_mid = below.map_values(|f: &'a mut [Option<Entry<A>>]| (*f)@).push(rest_view);
                    assert(self.frames() =~= cur_mid.push(c0.data.slots@));
                    lemma_frames_push(cur_mid, fr, c0.data.slots@, (*final(csg))@);
                    assert(frames_items(fnn) == slots_items((*final(csg))@, 0) + frames_items(fr));
                    assert(opt_items(fs) == slots_items((*final(csg))@, 0));
                    assert(frames_items(fo) =~= frames_items(fnn));
                    assert(self.refilled(fnn, Seq::empty()) ==> entry_refill(s[0]->0, fs->0));
                    assert(self.refilled(fnn, Seq::empty()) ==> old(self).refilled(fo, Seq::empty()));
                }
                None
            },
            Some(Entry::SmallNode(c)) => {
                let ghost c0 = crate::shared::pointee(*c);
                let ghost cg = c;
                let child = make_mut(c);
                let ghost chg = child;
                let child_slots = child.data.slots.as_mut_slice();
                let ghost csg = child_slots;
                let ghost mid = self.stack@;
                proof {
                    assert(child_slots@ == c0.data.slots@);
                }
                self.stack.push(child_slots);
                proof {
                    assert(self.stack@ == mid.push(self.stack@.last()));
                    assert((*self.stack@.last())@ == c0.data.slots@);
                    lemma_mut_stack_push(mid, self.stack@.last());
                    assert(opt_items(s[0]) == slots_items(c0.data.slots@, 0));
                    assert(self.remaining() =~= rem0);
                    assert(entry_weight(Entry::SmallNode(Arc::new(c0))) == 1 + slots_weight(c0.data.slots@, 0));
                    let fs = *final(slotg);
                    let d = *final(cg);
                    assert(fs == Some(Entry::SmallNode(d)));
                    assert(*d == *final(chg));
                    assert((*final(chg)).data.slots@ == (*final(csg))@);
                    let fnn = self.stack@.map_values(|f: &'a mut [Option<Entry<A>>]| (*final(f))@);
                    let fr = fb.push((*final(rg))@);
                    assert(fnn =~= fr.push((*final(csg))@));
                    let cur_mid = below.map_values(|f: &'a mut [Option<Entry<A>>]| (*f)@).push(rest_view);
                    assert(self.frames() =~= cur_mid.push(c0.data.slots@));
                    lemma_frames_push(cur_mid, fr, c0.data.slots@, (*final(csg))@);
                    assert(frames_items(fnn) == slots_items((*final(csg))@, 0) + frames_items(fr));
                    assert(opt_items(fs) == slots_items((*final(csg))@, 0));
                    assert(frames_items(fo) =~= frames_items(fnn));
                    assert(self.refilled(fnn, Seq::empty()) ==> entry_refill(s[0]->0, fs->0));
                    assert(self.refilled(fnn, Seq::empty()) ==> old(self).refilled(fo, Seq::empty()));
                }
                None
            },
            Some(Entry::Collision(c)) => {
                let ghost c0 = crate::shared::pointee(*c);
                let ghost cg = c;
                let coll = make_mut(c);
                let ghost collg = coll;
                let hash = coll.hash;
                let values = coll.data.as_mut_slice();
                let ghost vg = values;
                self.collision = Some((hash, values));
                proof {
                    assert(self.collision_items() =~= coll_items(c0));
                    assert(self.remaining() =~= rem0);
                    let fs = *final(slotg);
                    let d = *final(cg);
                    assert(fs == Some(Entry::Collision(d)));
                    assert(*d == *final(collg));
                    assert((*final(collg)).data@ == (*final(vg))@);
                    assert((*final(collg)).hash == hash);
                    let fnn = self.stack@.map_values(|f: &'a mut [Option<Entry<A>>]| (*final(f))@);
                    let fc = (*final(vg))@;
                    assert(items_values(opt_items(fs)) =~= fc);
                    assert(frames_items(fo) =~= opt_items(fs) + frames_items(fnn));
                    lemma_values_concat(opt_items(fs), frames_items(fnn));
                    assert(walk_values(fo, Seq::empty()) =~= walk_values(fnn, fc));
                    assert(self.frames() =~= below.map_values(|f: &'a mut [Option<Entry<A>>]| (*f)@).push(rest_view));
                    assert(self.refilled(fnn, fc) ==> entry_refill(s[0]->0, fs->0));
                    assert(self.refilled(fnn, fc) ==> old(self).refilled(fo, Seq::empty()));
                }
                None
            },
            None => {
                proof {
                    assert(self.remaining() =~= rem0);
                    let fnn = self.stack@.map_values(|f: &'a mut [Option<Entry<A>>]| (*final(f))@);
                    assert(*final(slotg) is None);
                    assert(frames_items(fo) =~= frames_items(fnn));
                    assert(self.frames() =~= below.map_values(|f: &'a mut [Option<Entry<A>>]| (*f)@).push(rest_view));
                    assert(self.refilled(fnn, Seq::empty()) ==> old(self).refilled(fo, Seq::empty()));
                }
                None
            },
        }
    }

    /// The number of items left, as both bounds.
    pub fn size_hint(&self) -> (r: (usize, Option<usize>))
        ensures
            r == (self.count, Some(self.count)),
    {
        (self.count, Some(self.count))
    }
}

} // verus!
