//! The abstract contents of a trie: a sequence of `(value, hash)` items, read
//! as a map from each value's key to the item.

use vstd::prelude::*;
use crate::bits::{agree_below, slot_of, HashBits};
use crate::value::HashValue;

verus! {

/// Some item of `s` has key `k`.
pub open spec fn has_key<A: HashValue>(s: Seq<(A, HashBits)>, k: A::Key) -> bool {
    exists|i: int| 0 <= i < s.len() && #[trigger] s[i].0.key() == k
}

/// No two items of `s` have the same key.
pub open spec fn keys_unique<A: HashValue>(s: Seq<(A, HashBits)>) -> bool {
    forall|i: int, j: int|
        0 <= i < s.len() && 0 <= j < s.len() && i != j ==> #[trigger] s[i].0.key() != #[trigger] s[j].0.key()
}

/// No item of `a` has the key of an item of `b`.
pub open spec fn keys_disjoint<A: HashValue>(a: Seq<(A, HashBits)>, b: Seq<(A, HashBits)>) -> bool {
    forall|i: int, j: int|
        0 <= i < a.len() && 0 <= j < b.len() ==> #[trigger] a[i].0.key() != #[trigger] b[j].0.key()
}

/// Every two items of `s` have hashes that agree below level `shift`.
pub open spec fn hashes_agree<A>(s: Seq<(A, HashBits)>, shift: nat) -> bool {
    forall|i: int, j: int|
        0 <= i < s.len() && 0 <= j < s.len() ==> agree_below(#[trigger] s[i].1, #[trigger] s[j].1, shift)
}

/// Every item of `s` has a hash that agrees with `hash` below level `shift`.
pub open spec fn agree_with<A>(s: Seq<(A, HashBits)>, hash: HashBits, shift: nat) -> bool {
    forall|i: int| 0 <= i < s.len() ==> agree_below(#[trigger] s[i].1, hash, shift)
}

/// Every item of `s` has a hash that takes slot `j` at level `shift`.
pub open spec fn all_in_slot<A>(s: Seq<(A, HashBits)>, shift: nat, j: int) -> bool {
    forall|i: int| 0 <= i < s.len() ==> slot_of(#[trigger] s[i].1, shift) == j
}

/// The item of `s` with key `k`.
pub open spec fn item_of<A: HashValue>(s: Seq<(A, HashBits)>, k: A::Key) -> (A, HashBits) {
    s[choose|i: int| 0 <= i < s.len() && #[trigger] s[i].0.key() == k]
}

/// The items of `s` by key.
pub open spec fn items_map<A: HashValue>(s: Seq<(A, HashBits)>) -> Map<A::Key, (A, HashBits)> {
    Map::new(|k: A::Key| has_key(s, k), |k: A::Key| item_of(s, k))
}

/// With unique keys, the map gives each key the item that carries it.
pub proof fn lemma_items_map_at<A: HashValue>(s: Seq<(A, HashBits)>, i: int)
    requires
        keys_unique(s),
        0 <= i < s.len(),
    ensures
        items_map(s).contains_key(s[i].0.key()),
        items_map(s)[s[i].0.key()] == s[i],
{
    let k = s[i].0.key();
    assert(has_key(s, k));
    let c = choose|c: int| 0 <= c < s.len() && #[trigger] s[c].0.key() == k;
    assert(c == i);
}

/// Keys are unique in a concatenation exactly when they are in each part and
/// the parts share none.
pub proof fn lemma_unique_concat<A: HashValue>(a: Seq<(A, HashBits)>, b: Seq<(A, HashBits)>)
    ensures
        keys_unique(a + b) <==> (keys_unique(a) && keys_unique(b) && keys_disjoint(a, b)),
{
    let s = a + b;
    if keys_unique(s) {
        assert forall|i: int, j: int|
            0 <= i < a.len() && 0 <= j < a.len() && i != j implies #[trigger] a[i].0.key()
            != #[trigger] a[j].0.key() by {
            assert(s[i] == a[i] && s[j] == a[j]);
        }
        assert forall|i: int, j: int|
            0 <= i < b.len() && 0 <= j < b.len() && i != j implies #[trigger] b[i].0.key()
            != #[trigger] b[j].0.key() by {
            assert(s[a.len() + i] == b[i] && s[a.len() + j] == b[j]);
        }
        assert forall|i: int, j: int|
            0 <= i < a.len() && 0 <= j < b.len() implies #[trigger] a[i].0.key()
            != #[trigger] b[j].0.key() by {
            assert(s[i] == a[i] && s[a.len() + j] == b[j]);
        }
    }
    if keys_unique(a) && keys_unique(b) && keys_disjoint(a, b) {
        assert forall|i: int, j: int|
            0 <= i < s.len() && 0 <= j < s.len() && i != j implies #[trigger] s[i].0.key()
            != #[trigger] s[j].0.key() by {
            if i < a.len() && j < a.len() {
                assert(s[i] == a[i] && s[j] == a[j]);
            } else if i < a.len() {
                assert(s[i] == a[i] && s[j] == b[j - a.len()]);
            } else if j < a.len() {
                assert(s[j] == a[j] && s[i] == b[i - a.len()]);
            } else {
                assert(s[i] == b[i - a.len()] && s[j] == b[j - a.len()]);
            }
        }
    }
}

/// A key is in a concatenation exactly when it is in one of the parts.
pub proof fn lemma_has_key_concat<A: HashValue>(a: Seq<(A, HashBits)>, b: Seq<(A, HashBits)>, k: A::Key)
    ensures
        has_key(a + b, k) <==> (has_key(a, k) || has_key(b, k)),
{
    let s = a + b;
    if has_key(s, k) {
        let i = choose|i: int| 0 <= i < s.len() && #[trigger] s[i].0.key() == k;
        if i < a.len() {
            assert(a[i] == s[i]);
        } else {
            assert(b[i - a.len()] == s[i]);
        }
    }
    if has_key(a, k) {
        let i = choose|i: int| 0 <= i < a.len() && #[trigger] a[i].0.key() == k;
        assert(s[i] == a[i]);
    }
    if has_key(b, k) {
        let i = choose|i: int| 0 <= i < b.len() && #[trigger] b[i].0.key() == k;
        assert(s[a.len() + i] == b[i]);
    }
}

/// With unique keys, the map of a concatenation is the union of the maps of
/// its parts.
pub proof fn lemma_map_concat<A: HashValue>(a: Seq<(A, HashBits)>, b: Seq<(A, HashBits)>)
    requires
        keys_unique(a + b),
    ensures
        items_map(a + b) == items_map(a).union_prefer_right(items_map(b)),
{
    let s = a + b;
    lemma_unique_concat(a, b);
    assert forall|k: A::Key| #[trigger] items_map(s).contains_key(k)
        <==> items_map(a).union_prefer_right(items_map(b)).contains_key(k) by {
        lemma_has_key_concat(a, b, k);
    }
    assert forall|k: A::Key| #[trigger] items_map(s).contains_key(k) implies items_map(s)[k]
        == items_map(a).union_prefer_right(items_map(b))[k] by {
        lemma_has_key_concat(a, b, k);
        let i = choose|i: int| 0 <= i < s.len() && #[trigger] s[i].0.key() == k;
        lemma_items_map_at(s, i);
        if i < a.len() {
            assert(a[i] == s[i]);
            lemma_items_map_at(a, i);
            if has_key(b, k) {
                let j = choose|j: int| 0 <= j < b.len() && #[trigger] b[j].0.key() == k;
                assert(false);
            }
        } else {
            assert(b[i - a.len()] == s[i]);
            lemma_items_map_at(b, i - a.len());
        }
    }
    assert(items_map(s) =~= items_map(a).union_prefer_right(items_map(b)));
}

/// The map of a single item.
pub proof fn lemma_map_single<A: HashValue>(v: A, h: HashBits)
    ensures
        items_map(seq![(v, h)]) == map![v.key() => (v, h)],
{
    let s = seq![(v, h)];
    assert forall|k: A::Key| #[trigger] items_map(s).contains_key(k) <==> k == v.key() by {
        if k == v.key() {
            assert(s[0].0.key() == k);
        }
    }
    lemma_items_map_at(s, 0);
    assert(items_map(s) =~= map![v.key() => (v, h)]);
}

/// The map of no items.
pub proof fn lemma_map_empty<A: HashValue>()
    ensures
        items_map(Seq::<(A, HashBits)>::empty()) == Map::<A::Key, (A, HashBits)>::empty(),
{
    assert(items_map(Seq::<(A, HashBits)>::empty()) =~= Map::<A::Key, (A, HashBits)>::empty());
}

/// The map of `s` has a key exactly when some item carries it.
pub proof fn lemma_map_dom<A: HashValue>(s: Seq<(A, HashBits)>, k: A::Key)
    ensures
        items_map(s).contains_key(k) <==> has_key(s, k),
{
}

/// `x` is an item of `s`.
pub open spec fn contains_item<A>(s: Seq<(A, HashBits)>, x: (A, HashBits)) -> bool {
    exists|i: int| 0 <= i < s.len() && s[i] == x
}

/// An item of a concatenation is an item of one of its parts.
pub proof fn lemma_contains_concat<A>(a: Seq<(A, HashBits)>, b: Seq<(A, HashBits)>, x: (A, HashBits))
    ensures
        contains_item(a + b, x) <==> (contains_item(a, x) || contains_item(b, x)),
{
    let s = a + b;
    if contains_item(s, x) {
        let i = choose|i: int| 0 <= i < s.len() && s[i] == x;
        if i < a.len() {
            assert(a[i] == s[i]);
        } else {
            assert(b[i - a.len()] == s[i]);
        }
    }
    if contains_item(a, x) {
        let i = choose|i: int| 0 <= i < a.len() && a[i] == x;
        assert(s[i] == a[i]);
    }
    if contains_item(b, x) {
        let i = choose|i: int| 0 <= i < b.len() && b[i] == x;
        assert(s[a.len() + i] == b[i]);
    }
}

/// Two sequences with unique keys and the same items have the same map.
pub proof fn lemma_map_same_items<A: HashValue>(s1: Seq<(A, HashBits)>, s2: Seq<(A, HashBits)>)
    requires
        keys_unique(s1),
        keys_unique(s2),
        forall|x: (A, HashBits)| contains_item(s1, x) <==> contains_item(s2, x),
    ensures
        items_map(s1) == items_map(s2),
{
    assert forall|k: A::Key| has_key(s1, k) implies has_key(s2, k) && item_of(s1, k) == item_of(s2, k) by {
        let i = choose|i: int| 0 <= i < s1.len() && #[trigger] s1[i].0.key() == k;
        assert(contains_item(s1, s1[i]));
        let j = choose|j: int| 0 <= j < s2.len() && s2[j] == s1[i];
        assert(s2[j].0.key() == k);
        lemma_items_map_at(s1, i);
        lemma_items_map_at(s2, j);
    }
    assert forall|k: A::Key| has_key(s2, k) implies has_key(s1, k) by {
        let j = choose|j: int| 0 <= j < s2.len() && #[trigger] s2[j].0.key() == k;
        assert(contains_item(s2, s2[j]));
        let i = choose|i: int| 0 <= i < s1.len() && s1[i] == s2[j];
        assert(s1[i].0.key() == k);
    }
    assert(items_map(s1) =~= items_map(s2));
}

/// Keys that are disjoint one way are disjoint the other way.
pub proof fn lemma_disjoint_symmetric<A: HashValue>(a: Seq<(A, HashBits)>, b: Seq<(A, HashBits)>)
    ensures
        keys_disjoint(a, b) <==> keys_disjoint(b, a),
{
    if keys_disjoint(a, b) {
        assert forall|i: int, j: int| 0 <= i < b.len() && 0 <= j < a.len() implies #[trigger] b[i].0.key()
            != #[trigger] a[j].0.key() by {
            assert(a[j].0.key() != b[i].0.key());
        }
    }
    if keys_disjoint(b, a) {
        assert forall|i: int, j: int| 0 <= i < a.len() && 0 <= j < b.len() implies #[trigger] a[i].0.key()
            != #[trigger] b[j].0.key() by {
            assert(b[j].0.key() != a[i].0.key());
        }
    }
}

/// Keys of disjoint parts: a key of the first is not a key of the second.
pub proof fn lemma_disjoint_has_key<A: HashValue>(a: Seq<(A, HashBits)>, b: Seq<(A, HashBits)>, k: A::Key)
    requires
        keys_disjoint(a, b),
        has_key(a, k),
    ensures
        !has_key(b, k),
{
    let i = choose|i: int| 0 <= i < a.len() && #[trigger] a[i].0.key() == k;
    if has_key(b, k) {
        let j = choose|j: int| 0 <= j < b.len() && #[trigger] b[j].0.key() == k;
        assert(a[i].0.key() != b[j].0.key());
    }
}

/// Hashes still agree after items are dropped, or one whose hash agrees with
/// them all is added.
pub proof fn lemma_agree_members<A>(s_new: Seq<(A, HashBits)>, s_old: Seq<(A, HashBits)>, h: HashBits, shift: nat)
    requires
        shift <= 32,
        hashes_agree(s_old, shift),
        agree_with(s_old, h, shift),
        forall|y: (A, HashBits)| contains_item(s_new, y) ==> contains_item(s_old, y) || y.1 == h,
    ensures
        hashes_agree(s_new, shift),
        agree_with(s_new, h, shift),
{
    assert forall|i: int| 0 <= i < s_new.len() implies agree_below(#[trigger] s_new[i].1, h, shift) by {
        assert(contains_item(s_new, s_new[i]));
        crate::bits::lemma_agree_equiv(h, h, h, shift);
    }
    assert forall|i: int, j: int| 0 <= i < s_new.len() && 0 <= j < s_new.len() implies agree_below(
        #[trigger] s_new[i].1,
        #[trigger] s_new[j].1,
        shift,
    ) by {
        assert(agree_below(s_new[i].1, h, shift));
        assert(agree_below(s_new[j].1, h, shift));
        crate::bits::lemma_agree_equiv(s_new[i].1, h, s_new[j].1, shift);
        crate::bits::lemma_agree_equiv(s_new[j].1, h, s_new[i].1, shift);
    }
}

/// Hashes of a sub-collection of items still agree.
pub proof fn lemma_agree_subset<A>(s_new: Seq<(A, HashBits)>, s_old: Seq<(A, HashBits)>, shift: nat)
    requires
        hashes_agree(s_old, shift),
        forall|y: (A, HashBits)| contains_item(s_new, y) ==> contains_item(s_old, y),
    ensures
        hashes_agree(s_new, shift),
{
    assert forall|i: int, j: int| 0 <= i < s_new.len() && 0 <= j < s_new.len() implies agree_below(
        #[trigger] s_new[i].1,
        #[trigger] s_new[j].1,
        shift,
    ) by {
        assert(contains_item(s_new, s_new[i]));
        assert(contains_item(s_new, s_new[j]));
        let a = choose|a: int| 0 <= a < s_old.len() && s_old[a] == s_new[i];
        let b = choose|b: int| 0 <= b < s_old.len() && s_old[b] == s_new[j];
        assert(agree_below(s_old[a].1, s_old[b].1, shift));
    }
}

/// A sequence with unique keys whose map is that of `s1` with `x` put in
/// holds only items of `s1` and `x`.
pub proof fn lemma_insert_members<A: HashValue>(s1: Seq<(A, HashBits)>, s2: Seq<(A, HashBits)>, x: (A, HashBits))
    requires
        keys_unique(s1),
        keys_unique(s2),
        items_map(s2) == items_map(s1).insert(x.0.key(), x),
    ensures
        forall|y: (A, HashBits)| #[trigger] contains_item(s2, y) ==> contains_item(s1, y) || y == x,
{
    assert forall|y: (A, HashBits)| #[trigger] contains_item(s2, y) implies contains_item(s1, y) || y == x by {
        let i = choose|i: int| 0 <= i < s2.len() && s2[i] == y;
        lemma_items_map_at(s2, i);
        if y.0.key() != x.0.key() {
            assert(items_map(s1).contains_key(y.0.key()));
            let t = choose|t: int| 0 <= t < s1.len() && #[trigger] s1[t].0.key() == y.0.key();
            lemma_items_map_at(s1, t);
            assert(s1[t] == y);
        }
    }
}

/// A sequence of items with unique keys has as many keys as items.
pub proof fn lemma_map_len<A: HashValue>(s: Seq<(A, HashBits)>)
    requires
        keys_unique(s),
    ensures
        items_map(s).dom().finite(),
        items_map(s).dom().len() == s.len(),
    decreases s.len(),
{
    if s.len() == 0 {
        assert(items_map(s).dom() =~= Set::empty());
    } else {
        let t = s.drop_last();
        let x = s.last();
        assert(keys_unique(t)) by {
            assert forall|i: int, j: int| 0 <= i < t.len() && 0 <= j < t.len() && i != j implies #[trigger] t[i].0.key()
                != #[trigger] t[j].0.key() by {
                assert(t[i] == s[i] && t[j] == s[j]);
            }
        }
        lemma_map_len(t);
        assert forall|k: A::Key| #[trigger] has_key(s, k) <==> (has_key(t, k) || k == x.0.key()) by {
            if has_key(s, k) {
                let i = choose|i: int| 0 <= i < s.len() && #[trigger] s[i].0.key() == k;
                if i < t.len() {
                    assert(t[i] == s[i]);
                }
            }
            if has_key(t, k) {
                let i = choose|i: int| 0 <= i < t.len() && #[trigger] t[i].0.key() == k;
                assert(s[i] == t[i]);
            }
            if k == x.0.key() {
                assert(s[s.len() - 1].0.key() == k);
            }
        }
        assert(items_map(s).dom() =~= items_map(t).dom().insert(x.0.key()));
        assert(!items_map(t).dom().contains(x.0.key())) by {
            if has_key(t, x.0.key()) {
                let i = choose|i: int| 0 <= i < t.len() && #[trigger] t[i].0.key() == x.0.key();
                assert(s[i] == t[i]);
                assert(s[i].0.key() != s[s.len() - 1].0.key());
            }
        }
    }
}

} // verus!
