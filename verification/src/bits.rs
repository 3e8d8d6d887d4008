//! Hash bits: how a node picks the slot of a value from its hash, and the
//! facts about hash prefixes that the trie's layout rests on.

use vstd::prelude::*;

verus! {

/// The hash of a value, as stored in the trie: the unsigned integer of
/// `HASH_WIDTH` bits.
pub type HashBits = <bitmaps::BitsImpl<HASH_WIDTH> as bitmaps::Bits>::Store;

/// The number of hash bits consumed at each level of the trie.
pub const HASH_SHIFT: usize = 5;

/// The number of slots in a `Node`.
pub const HASH_WIDTH: usize = 32;

/// The mask that selects the slot bits of a `Node`.
pub const HASH_MASK: HashBits = (HASH_WIDTH - 1) as HashBits;

/// The number of slots in a `SmallNode`.
pub const SMALL_NODE_WIDTH: usize = HASH_WIDTH / 2;

/// The mask that selects the slot bits of a `SmallNode`.
pub const SMALL_NODE_MASK: HashBits = (SMALL_NODE_WIDTH - 1) as HashBits;

/// The deepest a traversal stack can grow: one frame per level, plus one.
pub const ITER_STACK_CAPACITY: usize = HASH_WIDTH / HASH_SHIFT + 1;

/// The slot of `hash` in a `Node` at level `shift`.
pub open spec fn slot_of(hash: u32, shift: nat) -> int {
    ((hash >> (shift as u32)) & 31u32) as int
}

/// The slot of `hash` in a `SmallNode` at level `shift`.
pub open spec fn small_slot_of(hash: u32, shift: nat) -> int {
    ((hash >> (shift as u32)) & 15u32) as int
}

/// Two hashes agree on their lowest `shift` bits.
pub open spec fn agree_below(a: u32, b: u32, shift: nat) -> bool {
    shift == 0 || (a ^ b) << ((32 - shift) as u32) == 0u32
}

/// The levels at which a node of the trie can stand: 0, 5, ..., 30.
pub open spec fn valid_shift(shift: nat) -> bool {
    shift % 5 == 0 && shift <= 30
}

/// The distance from slot `from` forward to slot `to`, going round a `Node`.
pub open spec fn cyc_dist(from: int, to: int) -> int {
    (to - from) % 32
}

/// The slot that `hash` selects in a node at level `shift`.
pub fn mask(hash: HashBits, shift: usize) -> (r: HashBits)
    requires
        shift < 32,
    ensures
        r == slot_of(hash, shift as nat),
        r < 32,
{
    let s: u32 = shift as u32;
    proof {
        lemma_slot_bound(hash, s);
    }
    hash >> s & HASH_MASK
}

/// The slot that `hash` selects in a small node at level `shift`.
pub fn small_mask(hash: HashBits, shift: usize) -> (r: HashBits)
    requires
        shift < 32,
    ensures
        r == small_slot_of(hash, shift as nat),
        r < 16,
{
    let s: u32 = shift as u32;
    proof {
        assert((hash >> s) & 15u32 < 16u32) by (bit_vector);
    }
    hash >> s & SMALL_NODE_MASK
}

/// A slot of either kind of node is within the node.
pub proof fn lemma_slot_bound(hash: u32, s: u32)
    ensures
        (hash >> s) & 31u32 < 32u32,
        (hash >> s) & 15u32 < 16u32,
{
    assert((hash >> s) & 31u32 < 32u32) by (bit_vector);
    assert((hash >> s) & 15u32 < 16u32) by (bit_vector);
}

/// Agreement below a level is an equivalence.
pub proof fn lemma_agree_equiv(a: u32, b: u32, c: u32, shift: nat)
    requires
        shift <= 32,
    ensures
        agree_below(a, a, shift),
        agree_below(a, b, shift) ==> agree_below(b, a, shift),
        agree_below(a, b, shift) && agree_below(b, c, shift) ==> agree_below(a, c, shift),
{
    let k = (32 - shift) as u32;
    assert((a ^ a) << k == 0u32) by (bit_vector);
    assert((a ^ b) << k == 0u32 ==> (b ^ a) << k == 0u32) by (bit_vector);
    assert((a ^ b) << k == 0u32 && (b ^ c) << k == 0u32 ==> (a ^ c) << k == 0u32) by (bit_vector);
}

/// Two hashes that agree below a level and take the same slot there agree
/// below the next level.
pub proof fn lemma_agree_step(a: u32, b: u32, shift: nat)
    requires
        shift <= 25,
        agree_below(a, b, shift),
        slot_of(a, shift) == slot_of(b, shift),
    ensures
        agree_below(a, b, shift + 5),
{
    let s = shift as u32;
    assert(((a ^ b) << ((32 - s) as u32) == 0u32 || s == 0) && ((a >> s) & 31u32) == ((b >> s)
        & 31u32) && s <= 25 ==> (a ^ b) << ((32 - (s + 5)) as u32) == 0u32) by (bit_vector);
}

/// At the last level the slot fixes the remaining bits: two hashes that agree
/// below it and take the same slot there are equal.
pub proof fn lemma_agree_last(a: u32, b: u32)
    requires
        agree_below(a, b, 30),
        slot_of(a, 30) == slot_of(b, 30),
    ensures
        a == b,
{
    assert(((a ^ b) << 2u32 == 0u32) && ((a >> 30u32) & 31u32) == ((b >> 30u32) & 31u32) ==> a
        == b) by (bit_vector);
}

} // verus!
