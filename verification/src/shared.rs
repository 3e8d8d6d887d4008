//! Shared ownership of child nodes, and copies of nodes.

use vstd::prelude::*;
use std::sync::Arc;
use crate::chunk::Chunk;
use crate::node::{CollisionNode, Entry, Node, SmallNode};
use crate::value::HashValue;

verus! {

/// Every clone of a value of type `A` equals it.
pub open spec fn clone_is_exact<A: Clone>() -> bool {
    forall|a: A, b: A| #[trigger] cloned::<A>(a, b) ==> a == b
}

/// The value behind a shared pointer.
pub open spec fn pointee<T>(a: Arc<T>) -> T {
    *a
}

/// `std::sync::Arc::make_mut`: a mutable reference to the value behind `this`,
/// which is first cloned into a new allocation if `this` shares it. The
/// contract claims that the reference starts out as that value or as a clone
/// of it (`cloned` holds of both), and that `this` ends up pointing at what
/// the reference leaves.
#[verifier::external_body]
pub(crate) fn make_mut<T: Clone>(this: &mut Arc<T>) -> (r: &mut T)
    ensures
        cloned::<T>(**old(this), *r),
        **final(this) == *final(r),
{
    Arc::make_mut(this)
}

/// Slot `b` is a clone of slot `a`: both empty, or both occupied with the
/// value of `b` a clone of that of `a`.
pub open spec fn slot_cloned<T: Clone>(a: Option<T>, b: Option<T>) -> bool {
    &&& a is None <==> b is None
    &&& a is Some ==> cloned::<T>(a->0, b->0)
}

/// Each slot of `b` is a clone of the same slot of `a`.
pub open spec fn slots_cloned<T: Clone>(a: Seq<Option<T>>, b: Seq<Option<T>>) -> bool {
    &&& a.len() == b.len()
    &&& forall|i: int| 0 <= i < a.len() ==> slot_cloned(a[i], #[trigger] b[i])
}

impl<T: Clone, const N: usize> Clone for Chunk<T, N> {
    fn clone(&self) -> (r: Self)
        ensures
            slots_cloned(self.slots@, r.slots@),
            clone_is_exact::<T>() ==> r.slots@ == self.slots@,
            r.len == self.len,
    {
        let slots = self.slots.clone();
        proof {
            assert forall|i: int| 0 <= i < self.slots@.len() implies slot_cloned(self.slots@[i], #[trigger] slots@[i]) by {
                let x = self.slots@[i];
                let y = slots@[i];
                assert(cloned::<Option<T>>(x, y));
                if x != y {
                    assert(call_ensures(Option::<T>::clone, (&x,), y));
                }
            }
            if clone_is_exact::<T>() {
                assert forall|i: int| 0 <= i < slots@.len() implies slots@[i] == self.slots@[i] by {
                    let x = self.slots@[i];
                    let y = slots@[i];
                    assert(cloned::<Option<T>>(x, y));
                    if x != y {
                        assert(call_ensures(Option::<T>::clone, (&x,), y));
                        assert(x is Some);
                        assert(cloned::<T>(x->0, y->0));
                    }
                }
                assert(slots@ =~= self.slots@);
            }
        }
        Chunk { slots, len: self.len }
    }
}

impl<A: HashValue> Clone for Entry<A> {
    /// A copy of the entry: a value is copied with `clone_value`, a child
    /// is shared.
    fn clone(&self) -> (r: Self)
        ensures
            r == *self,
    {
        match self {
            Entry::Value(v, h) => Entry::Value(v.clone_value(), *h),
            Entry::Collision(c) => Entry::Collision(c.clone()),
            Entry::Node(n) => Entry::Node(n.clone()),
            Entry::SmallNode(n) => Entry::SmallNode(n.clone()),
        }
    }
}

impl<A: HashValue> Clone for Node<A> {
    /// A copy of the node, whose children are shared with it.
    fn clone(&self) -> (r: Self)
        ensures
            r.data.slots@ == self.data.slots@,
            r.data.len == self.data.len,
            r.linear_probing == self.linear_probing,
    {
        proof {
            lemma_entry_clone_exact::<A>();
        }
        let data = self.data.clone();
        proof {
            assert(data.slots@ == self.data.slots@);
        }
        Node { linear_probing: self.linear_probing, data }
    }
}

impl<A: HashValue> Clone for SmallNode<A> {
    /// A copy of the node.
    fn clone(&self) -> (r: Self)
        ensures
            r.data.slots@ == self.data.slots@,
            r.data.len == self.data.len,
    {
        proof {
            lemma_entry_clone_exact::<A>();
        }
        let data = self.data.clone();
        proof {
            assert(data.slots@ == self.data.slots@);
        }
        SmallNode { data }
    }
}

impl<A: HashValue> Clone for CollisionNode<A> {
    /// A copy of the node, each value copied with `clone_value`.
    fn clone(&self) -> (r: Self)
        ensures
            r.data@ == self.data@,
            r.hash == self.hash,
    {
        let mut data: Vec<A> = Vec::new();
        let mut i: usize = 0;
        while i < self.data.len()
            invariant
                i <= self.data@.len(),
                data@ == self.data@.subrange(0, i as int),
            decreases self.data@.len() - i,
        {
            data.push(self.data[i].clone_value());
            i = i + 1;
            proof {
                assert(data@ =~= self.data@.subrange(0, i as int));
            }
        }
        proof {
            assert(data@ =~= self.data@);
        }
        CollisionNode { hash: self.hash, data }
    }
}

impl<A> From<CollisionNode<A>> for Entry<A> {
    /// A collision entry holding `node`.
    fn from(node: CollisionNode<A>) -> (r: Self) {
        let ghost n = node;
        let a = Arc::new(node);
        proof {
            assert(pointee(a) == n);
        }
        Entry::Collision(a)
    }
}

impl<A> vstd::std_specs::convert::FromSpecImpl<CollisionNode<A>> for Entry<A> {
    open spec fn obeys_from_spec() -> bool {
        true
    }

    open spec fn from_spec(v: CollisionNode<A>) -> Self {
        Entry::Collision(choose|a: Arc<CollisionNode<A>>| #[trigger] pointee(a) == v)
    }
}

/// Entries clone exactly.
pub proof fn lemma_entry_clone_exact<A: HashValue>()
    ensures
        clone_is_exact::<Entry<A>>(),
{
    assert forall|a: Entry<A>, b: Entry<A>| #[trigger] cloned::<Entry<A>>(a, b) implies a == b by {
        if a != b {
            assert(call_ensures(Entry::<A>::clone, (&a,), b));
        }
    }
}

} // verus!
