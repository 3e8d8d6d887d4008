//! A fixed-capacity sparse array: `N` slots, each empty or holding a value,
//! with its number of values kept at hand.

use vstd::prelude::*;

verus! {

/// The number of occupied slots in `s`.
pub open spec fn count_some<T>(s: Seq<Option<T>>) -> nat
    decreases s.len(),
{
    if s.len() == 0 {
        0
    } else {
        count_some(s.drop_last()) + if s.last() is Some {
            1nat
        } else {
            0nat
        }
    }
}

/// Occupying an empty slot adds one to the count; emptying a full one takes
/// one away; replacing a value keeps it.
pub proof fn lemma_count_update<T>(s: Seq<Option<T>>, i: int, x: Option<T>)
    requires
        0 <= i < s.len(),
    ensures
        count_some(s.update(i, x)) == count_some(s) - (if s[i] is Some {
            1int
        } else {
            0int
        }) + (if x is Some {
            1int
        } else {
            0int
        }),
    decreases s.len(),
{
    let t = s.update(i, x);
    if i == s.len() - 1 {
        assert(t.drop_last() =~= s.drop_last());
    } else {
        assert(t.drop_last() =~= s.drop_last().update(i, x));
        lemma_count_update(s.drop_last(), i, x);
    }
}

/// The count is at most the number of slots.
pub proof fn lemma_count_bound<T>(s: Seq<Option<T>>)
    ensures
        count_some(s) <= s.len(),
    decreases s.len(),
{
    if s.len() > 0 {
        lemma_count_bound(s.drop_last());
    }
}

/// With no occupied slot the count is zero, and a zero count means every slot
/// is empty.
pub proof fn lemma_count_zero<T>(s: Seq<Option<T>>)
    ensures
        count_some(s) == 0 <==> forall|i: int| 0 <= i < s.len() ==> s[i] is None,
    decreases s.len(),
{
    if s.len() > 0 {
        lemma_count_zero(s.drop_last());
        if count_some(s) == 0 {
            assert forall|i: int| 0 <= i < s.len() implies s[i] is None by {
                if i < s.len() - 1 {
                    assert(s.drop_last()[i] == s[i]);
                }
            }
        }
        if forall|i: int| 0 <= i < s.len() ==> s[i] is None {
            assert forall|i: int| 0 <= i < s.drop_last().len() implies s.drop_last()[i] is None by {
                assert(s.drop_last()[i] == s[i]);
            }
        }
    }
}

/// Fewer values than slots leaves some slot empty.
pub proof fn lemma_count_has_none<T>(s: Seq<Option<T>>) -> (j: int)
    requires
        count_some(s) < s.len(),
    ensures
        0 <= j < s.len(),
        s[j] is None,
    decreases s.len(),
{
    if s.last() is None {
        (s.len() - 1) as int
    } else {
        let j = lemma_count_has_none(s.drop_last());
        assert(s.drop_last()[j] == s[j]);
        j
    }
}

/// A sequence of `n` empty slots.
pub open spec fn empty_slots<T>(n: nat) -> Seq<Option<T>> {
    Seq::new(n, |i: int| None)
}

/// Empty slots count nothing.
pub proof fn lemma_count_empty<T>(n: nat)
    ensures
        count_some(empty_slots::<T>(n)) == 0,
{
    lemma_count_zero(empty_slots::<T>(n));
}

/// A sparse array of `N` slots.
pub struct Chunk<T, const N: usize> {
    /// The slots, each empty or holding a value.
    pub slots: Vec<Option<T>>,
    /// The number of occupied slots.
    pub len: usize,
}

impl<T, const N: usize> Chunk<T, N> {
    /// The slots, in order.
    pub open spec fn slots(&self) -> Seq<Option<T>> {
        self.slots@
    }

    /// The array has `N` slots and its count is that of its occupied slots.
    pub open spec fn wf(&self) -> bool {
        &&& self.slots@.len() == N
        &&& self.len == count_some(self.slots@)
    }

    /// The number of values held.
    pub open spec fn count(&self) -> nat {
        self.len as nat
    }

    /// An array with every slot empty.
    pub fn new() -> (r: Self)
        ensures
            r.wf(),
            r.slots() == empty_slots::<T>(N as nat),
            r.count() == 0,
    {
        let mut slots: Vec<Option<T>> = Vec::new();
        let mut i: usize = 0;
        while i < N
            invariant
                i <= N,
                slots@ == empty_slots::<T>(i as nat),
            decreases N - i,
        {
            slots.push(None);
            i = i + 1;
            assert(slots@ =~= empty_slots::<T>(i as nat));
        }
        proof {
            lemma_count_empty::<T>(N as nat);
        }
        Chunk { slots, len: 0 }
    }

    /// The number of values held.
    pub fn len(&self) -> (r: usize)
        requires
            self.wf(),
        ensures
            r == self.count(),
            r == count_some(self.slots()),
    {
        self.len
    }

    /// The value at `index`, if the slot is occupied.
    pub fn get(&self, index: usize) -> (r: Option<&T>)
        requires
            self.wf(),
        ensures
            index >= N ==> r is None,
            index < N ==> match r {
                Some(v) => self.slots()[index as int] == Some(*v),
                None => self.slots()[index as int] is None,
            },
    {
        if index >= N {
            return None;
        }
        match &self.slots[index] {
            Some(v) => Some(v),
            None => None,
        }
    }

    /// A mutable reference to the value at `index`, if the slot is occupied.
    pub fn get_mut(&mut self, index: usize) -> (r: Option<&mut T>)
        requires
            old(self).wf(),
        ensures
            final(self).len == old(self).len,
            match r {
                Some(v) => index < N && old(self).slots()[index as int] == Some(*v) && final(self).slots()
                    == old(self).slots().update(index as int, Some(*final(v))),
                None => (index >= N || old(self).slots()[index as int] is None) && final(self).slots()
                    == old(self).slots(),
            },
    {
        if index >= N {
            return None;
        }
        match &mut self.slots[index] {
            Some(v) => Some(v),
            None => None,
        }
    }

    /// Puts `value` in slot `index`, and gives back what was there.
    pub fn insert(&mut self, index: usize, value: T) -> (r: Option<T>)
        requires
            old(self).wf(),
            index < N,
        ensures
            final(self).wf(),
            final(self).slots() == old(self).slots().update(index as int, Some(value)),
            r == old(self).slots()[index as int],
            final(self).count() == old(self).count() + (if r is Some {
                0int
            } else {
                1int
            }),
    {
        proof {
            lemma_count_update(self.slots@, index as int, Some(value));
            lemma_count_bound(self.slots@.update(index as int, Some(value)));
        }
        let mut r = Some(value);
        std::mem::swap(&mut self.slots[index], &mut r);
        if r.is_none() {
            self.len = self.len + 1;
        }
        r
    }

    /// Empties slot `index`, and gives back what was there.
    pub fn remove(&mut self, index: usize) -> (r: Option<T>)
        requires
            old(self).wf(),
            index < N,
        ensures
            final(self).wf(),
            final(self).slots() == old(self).slots().update(index as int, None),
            r == old(self).slots()[index as int],
            final(self).count() == old(self).count() - (if r is Some {
                1int
            } else {
                0int
            }),
    {
        proof {
            lemma_count_update(self.slots@, index as int, None);
        }
        let mut r = None;
        std::mem::swap(&mut self.slots[index], &mut r);
        if r.is_some() {
            self.len = self.len - 1;
        }
        r
    }

    /// The lowest occupied slot, if any.
    pub fn first_index(&self) -> (r: Option<usize>)
        requires
            self.wf(),
        ensures
            match r {
                Some(i) => i < N && self.slots()[i as int] is Some && forall|j: int|
                    0 <= j < i ==> self.slots()[j] is None,
                None => forall|j: int| 0 <= j < N ==> self.slots()[j] is None,
            },
    {
        let mut i: usize = 0;
        while i < N
            invariant
                i <= N,
                self.wf(),
                forall|j: int| 0 <= j < i ==> self.slots()[j] is None,
            decreases N - i,
        {
            if self.slots[i].is_some() {
                return Some(i);
            }
            i = i + 1;
        }
        None
    }

    /// Empties the lowest occupied slot and gives back its value.
    pub fn pop(&mut self) -> (r: Option<T>)
        requires
            old(self).wf(),
        ensures
            final(self).wf(),
            match r {
                Some(v) => exists|i: int|
                    0 <= i < N && old(self).slots()[i] == Some(v) && (forall|j: int|
                        0 <= j < i ==> old(self).slots()[j] is None) && final(self).slots()
                        == old(self).slots().update(i, None),
                None => final(self).slots() == old(self).slots() && forall|j: int|
                    0 <= j < N ==> old(self).slots()[j] is None,
            },
            final(self).count() == old(self).count() - (if r is Some {
                1int
            } else {
                0int
            }),
    {
        match self.first_index() {
            Some(i) => self.remove(i),
            None => None,
        }
    }
}

} // verus!
