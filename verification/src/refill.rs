//! What a node keeps when only its values change: the shape, the hashes, and,
//! where the keys stay too, well-formedness and the map.

use vstd::prelude::*;
use crate::bits::{valid_shift, HashBits, HASH_WIDTH, SMALL_NODE_WIDTH};
use crate::iter_mut::{entry_refill, lemma_refill_len, slots_refill};
use crate::model::{all_in_slot, hashes_agree, keys_unique};
use crate::node::{
    branch_slot_ok, coll_items, coll_wf, entry_items, is_value, node_items, node_wf, opt_items, probing_ok, slots_items,
    small_items, small_wf, value_hash, Entry, Node,
};
use crate::shared::pointee;
use crate::value::HashValue;

verus! {

/// Slot `b` is slot `a` with at most its values changed.
pub open spec fn opt_refill<A>(a: Option<Entry<A>>, b: Option<Entry<A>>) -> bool {
    match a {
        None => b is None,
        Some(e) => b matches Some(f) && entry_refill(e, f),
    }
}

/// Two sequences of items of the same length with the same hashes, place
/// by place.
pub open spec fn same_hashes<A>(x: Seq<(A, HashBits)>, y: Seq<(A, HashBits)>) -> bool {
    &&& x.len() == y.len()
    &&& forall|i: int| 0 <= i < x.len() ==> (#[trigger] y[i]).1 == x[i].1
}

/// Two sequences of items of the same length with the same hashes and keys,
/// place by place.
pub open spec fn items_match<A: HashValue>(x: Seq<(A, HashBits)>, y: Seq<(A, HashBits)>) -> bool {
    &&& x.len() == y.len()
    &&& forall|i: int| 0 <= i < x.len() ==> (#[trigger] y[i]).1 == x[i].1 && y[i].0.key() == x[i].0.key()
}

/// An entry with at most its values changed has as many items, with the
/// same hashes.
pub proof fn lemma_refill_entry_items<A>(a: Entry<A>, b: Entry<A>)
    requires
        entry_refill(a, b),
    ensures
        same_hashes(entry_items(a), entry_items(b)),
    decreases a, 0nat, 0nat,
{
    match a {
        Entry::Node(c) => {
            assert(decreases_to!(c => c.data));
            assert(decreases_to!(c.data => c.data.slots));
            assert(decreases_to!(c.data.slots => c.data.slots@));
            let d = b->Node_0;
            lemma_refill_slots_items(c.data.slots@, d.data.slots@, 0);
        },
        Entry::SmallNode(c) => {
            assert(decreases_to!(c => c.data));
            assert(decreases_to!(c.data => c.data.slots));
            assert(decreases_to!(c.data.slots => c.data.slots@));
            let d = b->SmallNode_0;
            lemma_refill_slots_items(c.data.slots@, d.data.slots@, 0);
        },
        _ => {},
    }
}

/// Slots `j..` with at most their values changed have as many items, with
/// the same hashes.
pub proof fn lemma_refill_slots_items<A>(a: Seq<Option<Entry<A>>>, b: Seq<Option<Entry<A>>>, j: nat)
    requires
        slots_refill(a, b, j),
    ensures
        same_hashes(slots_items(a, j), slots_items(b, j)),
    decreases a, 1nat, a.len() - j,
{
    lemma_refill_len(a, b, j);
    if j < a.len() {
        lemma_refill_slots_items(a, b, j + 1);
        match a[j as int] {
            None => {},
            Some(e) => {
                assert(decreases_to!(a => a[j as int]));
                let f = b[j as int]->0;
                lemma_refill_entry_items(e, f);
                let x1 = entry_items(e);
                let x2 = slots_items(a, j + 1);
                let y1 = entry_items(f);
                let y2 = slots_items(b, j + 1);
                assert forall|i: int| 0 <= i < x1.len() + x2.len() implies (#[trigger] (y1 + y2)[i]).1 == (x1 + x2)[i].1 by {
                    if i < x1.len() {
                        assert(y1[i].1 == x1[i].1);
                    } else {
                        assert(y2[i - x1.len()].1 == x2[i - x1.len()].1);
                    }
                }
            },
        }
    }
}

/// Matching items split at the same place match in each part.
pub proof fn lemma_match_split<A: HashValue>(x1: Seq<(A, HashBits)>, x2: Seq<(A, HashBits)>, y1: Seq<(A, HashBits)>, y2: Seq<(A, HashBits)>)
    requires
        x1.len() == y1.len(),
        items_match(x1 + x2, y1 + y2),
    ensures
        items_match(x1, y1),
        items_match(x2, y2),
{
    assert forall|i: int| 0 <= i < x1.len() implies (#[trigger] y1[i]).1 == x1[i].1 && y1[i].0.key() == x1[i].0.key() by {
        assert((y1 + y2)[i] == y1[i] && (x1 + x2)[i] == x1[i]);
    }
    assert forall|i: int| 0 <= i < x2.len() implies (#[trigger] y2[i]).1 == x2[i].1 && y2[i].0.key() == x2[i].0.key() by {
        assert((y1 + y2)[x1.len() + i] == y2[i] && (x1 + x2)[x1.len() + i] == x2[i]);
    }
}

/// Where slots `j..` of `b` are those of `a` with at most values changed and
/// their items match, so do slot `i` and its items.
pub proof fn lemma_refill_slot_match<A: HashValue>(a: Seq<Option<Entry<A>>>, b: Seq<Option<Entry<A>>>, j: nat, i: int)
    requires
        slots_refill(a, b, j),
        items_match(slots_items(a, j), slots_items(b, j)),
        j <= i < a.len(),
    ensures
        opt_refill(a[i], b[i]),
        items_match(opt_items(a[i]), opt_items(b[i])),
    decreases i - j,
{
    lemma_refill_len(a, b, j);
    crate::node::lemma_slots_step(a, j);
    crate::node::lemma_slots_step(b, j);
    match a[j as int] {
        None => {},
        Some(e) => {
            lemma_refill_entry_items(e, b[j as int]->0);
        },
    }
    lemma_match_split(opt_items(a[j as int]), slots_items(a, j + 1), opt_items(b[j as int]), slots_items(b, j + 1));
    if i > j {
        lemma_refill_slot_match(a, b, j + 1, i);
    }
}

/// Two arrays of slots occupied at the same places count as many values.
pub proof fn lemma_count_pattern<T>(a: Seq<Option<T>>, b: Seq<Option<T>>)
    requires
        a.len() == b.len(),
        forall|i: int| 0 <= i < a.len() ==> (#[trigger] a[i] is Some <==> b[i] is Some),
    ensures
        crate::chunk::count_some(a) == crate::chunk::count_some(b),
    decreases a.len(),
{
    if a.len() > 0 {
        assert forall|i: int| 0 <= i < a.drop_last().len() implies (#[trigger] a.drop_last()[i] is Some <==> b.drop_last()[i] is Some) by {
            assert(a.drop_last()[i] == a[i] && b.drop_last()[i] == b[i]);
        }
        lemma_count_pattern(a.drop_last(), b.drop_last());
        assert(a.last() is Some <==> b.last() is Some) by {
            assert(a[a.len() - 1] is Some <==> b[a.len() - 1] is Some);
        }
    }
}

/// Matching items keep unique keys, agreeing hashes, and hashes that take
/// one slot.
pub proof fn lemma_match_keeps<A: HashValue>(x: Seq<(A, HashBits)>, y: Seq<(A, HashBits)>, shift: nat, j: int)
    requires
        items_match(x, y),
    ensures
        keys_unique(x) ==> keys_unique(y),
        hashes_agree(x, shift) ==> hashes_agree(y, shift),
        all_in_slot(x, shift, j) ==> all_in_slot(y, shift, j),
{
    if keys_unique(x) {
        assert forall|p: int, q: int| 0 <= p < y.len() && 0 <= q < y.len() && p != q implies #[trigger] y[p].0.key()
            != #[trigger] y[q].0.key() by {
            assert(y[p].0.key() == x[p].0.key() && y[q].0.key() == x[q].0.key());
        }
    }
    if hashes_agree(x, shift) {
        assert forall|p: int, q: int| 0 <= p < y.len() && 0 <= q < y.len() implies crate::bits::agree_below(
            #[trigger] y[p].1,
            #[trigger] y[q].1,
            shift,
        ) by {
            assert(y[p].1 == x[p].1 && y[q].1 == x[q].1);
        }
    }
    if all_in_slot(x, shift, j) {
        assert forall|p: int| 0 <= p < y.len() implies crate::bits::slot_of(#[trigger] y[p].1, shift) == j by {
            assert(y[p].1 == x[p].1);
        }
    }
}

/// A node whose slots hold those of a well-formed node with at most values
/// changed, under the same flag and count, and whose items keep their keys,
/// is well formed.
pub proof fn lemma_refill_node<A: HashValue>(a: Node<A>, b: Node<A>, shift: nat)
    requires
        node_wf(a, shift),
        b.linear_probing == a.linear_probing,
        b.data.len == a.data.len,
        slots_refill(a.data.slots@, b.data.slots@, 0),
        items_match(node_items(a), node_items(b)),
    ensures
        node_wf(b, shift),
    decreases 32 - shift, 1nat,
{
    let sa = a.data.slots@;
    let sb = b.data.slots@;
    lemma_refill_len(sa, sb, 0);
    assert forall|i: int| 0 <= i < HASH_WIDTH implies opt_refill(#[trigger] sa[i], sb[i]) && items_match(opt_items(sa[i]), opt_items(sb[i])) by {
        lemma_refill_slot_match(sa, sb, 0, i);
    }
    assert forall|i: int| 0 <= i < sa.len() implies (#[trigger] sa[i] is Some <==> sb[i] is Some) by {
        assert(opt_refill(sa[i], sb[i]));
    }
    lemma_count_pattern(sa, sb);
    if a.linear_probing {
        assert forall|p: int| 0 <= p < sb.len() && #[trigger] sb[p] is Some implies is_value(sb[p]->0) && value_hash(sb[p]->0) == value_hash(sa[p]->0) by {
            assert(opt_refill(sa[p], sb[p]));
            assert(sa[p] is Some);
        }
        assert(probing_ok(sb, shift)) by {
            assert forall|p: int| #![trigger sb[p]] 0 <= p < sb.len() && sb[p] is Some implies {
                &&& is_value(sb[p]->0)
                &&& forall|q: int|
                    0 <= q < sb.len() && crate::bits::cyc_dist(slot_of_value(sb[p]->0, shift), q) <= crate::bits::cyc_dist(
                        slot_of_value(sb[p]->0, shift),
                        p,
                    ) ==> #[trigger] sb[q] is Some
            } by {
                assert(sa[p] is Some);
                assert forall|q: int|
                    0 <= q < sb.len() && crate::bits::cyc_dist(slot_of_value(sb[p]->0, shift), q) <= crate::bits::cyc_dist(
                        slot_of_value(sb[p]->0, shift),
                        p,
                    ) implies #[trigger] sb[q] is Some by {
                    assert(sa[q] is Some);
                }
            }
        }
    } else {
        assert forall|j: int| 0 <= j < HASH_WIDTH && #[trigger] sb[j] is Some implies branch_slot_ok(sb[j]->0, shift, j) by {
            assert(opt_refill(sa[j], sb[j]));
            assert(sa[j] is Some);
            assert(branch_slot_ok(sa[j]->0, shift, j));
            lemma_refill_branch(sa[j]->0, sb[j]->0, shift, j);
        }
    }
    lemma_match_keeps(node_items(a), node_items(b), shift, 0);
}

/// The slot a single value's hash picks at level `shift`.
pub open spec fn slot_of_value<A>(e: Entry<A>, shift: nat) -> int {
    crate::bits::slot_of(value_hash(e), shift)
}

/// What slot `j` of a branching node may hold stays so when only values
/// change and keys stay.
pub proof fn lemma_refill_branch<A: HashValue>(ea: Entry<A>, eb: Entry<A>, shift: nat, j: int)
    requires
        branch_slot_ok(ea, shift, j),
        entry_refill(ea, eb),
        items_match(entry_items(ea), entry_items(eb)),
    ensures
        branch_slot_ok(eb, shift, j),
    decreases 32 - shift, 0nat,
{
    match ea {
        Entry::Value(_, _) => {},
        Entry::Collision(c) => {
            let d = eb->Collision_0;
            lemma_match_keeps(coll_items(pointee(c)), coll_items(pointee(d)), shift, j);
        },
        Entry::Node(c) => {
            let d = eb->Node_0;
            lemma_refill_node(pointee(c), pointee(d), shift + 5);
            lemma_match_keeps(node_items(pointee(c)), node_items(pointee(d)), shift, j);
        },
        Entry::SmallNode(c) => {
            let d = eb->SmallNode_0;
            let sa = c.data.slots@;
            let sb = d.data.slots@;
            lemma_refill_len(sa, sb, 0);
            assert forall|i: int| 0 <= i < SMALL_NODE_WIDTH implies opt_refill(#[trigger] sa[i], sb[i]) by {
                lemma_refill_slot_match(sa, sb, 0, i);
            }
            assert forall|i: int| 0 <= i < sa.len() implies (#[trigger] sa[i] is Some <==> sb[i] is Some) by {
                assert(opt_refill(sa[i], sb[i]));
            }
            lemma_count_pattern(sa, sb);
            assert forall|i: int| #![trigger sb[i]] 0 <= i < SMALL_NODE_WIDTH && sb[i] is Some implies {
                &&& is_value(sb[i]->0)
                &&& crate::bits::small_slot_of(value_hash(sb[i]->0), shift + 5) == i
            } by {
                assert(opt_refill(sa[i], sb[i]));
                assert(sa[i] is Some);
            }
            lemma_match_keeps(small_items(pointee(c)), small_items(pointee(d)), shift + 5, j);
            lemma_match_keeps(small_items(pointee(c)), small_items(pointee(d)), shift, j);
            assert(small_wf(pointee(d), shift + 5));
        },
    }
}

} // verus!
