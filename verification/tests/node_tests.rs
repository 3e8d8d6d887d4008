use std::sync::Arc;

use imbl_hamt::bits::{mask, small_mask, HashBits};
use imbl_hamt::drain::Drain;
use imbl_hamt::iter::Iter;
use imbl_hamt::iter_mut::IterMut;
use imbl_hamt::node::{CollisionNode, Entry, Node, SmallNode};
use imbl_hamt::value::HashValue;

/// A key and a payload.
#[derive(Clone, Debug, PartialEq)]
struct Pair(u64, u64);

impl HashValue for Pair {
    type Key = u64;
    fn key(&self) -> u64 {
        self.0
    }
    fn extract_key(&self) -> &u64 {
        &self.0
    }
    fn ptr_eq(&self, other: &Self) -> bool {
        std::ptr::eq(self, other)
    }
    fn clone_value(&self) -> Self {
        self.clone()
    }
}

/// A key too large to compare before the hashes.
#[derive(Clone, Debug, PartialEq)]
struct Wide([u64; 4], u64);

impl HashValue for Wide {
    type Key = [u64; 4];
    fn key(&self) -> [u64; 4] {
        self.0
    }
    fn extract_key(&self) -> &[u64; 4] {
        &self.0
    }
    fn ptr_eq(&self, other: &Self) -> bool {
        std::ptr::eq(self, other)
    }
    fn clone_value(&self) -> Self {
        self.clone()
    }
}

fn spread(k: u64) -> HashBits {
    (k as u32).wrapping_mul(0x9E37_79B9)
}

fn keys_of(node: &Node<Pair>, size: usize) -> Vec<u64> {
    let mut it = Iter::new(Some(node), size);
    let mut keys = Vec::new();
    while let Some((v, _)) = it.next() {
        keys.push(v.0);
    }
    keys.sort();
    keys
}

#[test]
fn mask_takes_five_bits_at_the_level() {
    assert_eq!(mask(0b11111_00000, 5), 31);
    assert_eq!(mask(0b10101_00000, 5), 21);
    assert_eq!(mask(0xFFFF_FFFF, 30), 3);
    assert_eq!(small_mask(0b11111_00000, 5), 15);
    assert_eq!(SmallNode::<Pair>::mask(0b10110, 0), 6);
}

#[test]
fn insert_then_get_gives_the_value_back() {
    let mut node = Node::new();
    assert_eq!(node.insert(spread(1), 0, Pair(1, 10)), None);
    assert_eq!(node.get(spread(1), 0, &1), Some(&Pair(1, 10)));
    assert_eq!(node.get(spread(2), 0, &2), None);
}

#[test]
fn insert_over_a_key_gives_the_old_value() {
    let mut node = Node::new();
    node.insert(spread(7), 0, Pair(7, 1));
    assert_eq!(node.insert(spread(7), 0, Pair(7, 2)), Some(Pair(7, 1)));
    assert_eq!(node.get(spread(7), 0, &7), Some(&Pair(7, 2)));
    assert_eq!(node.len(), 1);
}

#[test]
fn insert_keeps_other_keys() {
    let mut node = Node::new();
    for k in 0..10u64 {
        node.insert(spread(k), 0, Pair(k, k * 100));
    }
    node.insert(spread(3), 0, Pair(3, 0));
    for k in 0..10u64 {
        let want = if k == 3 { 0 } else { k * 100 };
        assert_eq!(node.get(spread(k), 0, &k), Some(&Pair(k, want)));
    }
}

#[test]
fn linear_probing_puts_a_taken_slot_further() {
    let mut node = Node::new();
    // Three keys with the same hash all go to slot 4 and after it.
    node.insert(4, 0, Pair(1, 1));
    node.insert(4, 0, Pair(2, 2));
    node.insert(4, 0, Pair(3, 3));
    assert!(node.linear_probing);
    assert_eq!(node.len(), 3);
    assert!(node.data.slots[4].is_some());
    assert!(node.data.slots[5].is_some());
    assert!(node.data.slots[6].is_some());
    for k in 1..4u64 {
        assert_eq!(node.get(4, 0, &k), Some(&Pair(k, k)));
    }
}

#[test]
fn probing_wraps_around_the_last_slot() {
    let mut node = Node::new();
    node.insert(31, 0, Pair(1, 1));
    node.insert(31, 0, Pair(2, 2));
    assert!(node.data.slots[31].is_some());
    assert!(node.data.slots[0].is_some());
    assert_eq!(node.get(31, 0, &2), Some(&Pair(2, 2)));
}

#[test]
fn seventeenth_value_ends_linear_probing() {
    let mut node = Node::new();
    for k in 0..16u64 {
        node.insert(spread(k), 0, Pair(k, k));
    }
    assert!(node.linear_probing);
    node.insert(spread(16), 0, Pair(16, 16));
    assert!(!node.linear_probing);
    for k in 0..17u64 {
        assert_eq!(node.get(spread(k), 0, &k), Some(&Pair(k, k)));
    }
    assert_eq!(keys_of(&node, 17), (0..17u64).collect::<Vec<_>>());
}

#[test]
fn equal_hashes_end_in_a_collision_node() {
    let mut node = Node::new();
    for k in 0..20u64 {
        assert_eq!(node.insert(12345, 0, Pair(k, k)), None);
    }
    for k in 0..20u64 {
        assert_eq!(node.get(12345, 0, &k), Some(&Pair(k, k)));
    }
    assert_eq!(node.get(12345, 0, &99), None);
    assert_eq!(keys_of(&node, 20), (0..20u64).collect::<Vec<_>>());
    for k in 0..20u64 {
        assert_eq!(node.remove(12345, 0, &k), Some(Pair(k, k)));
        assert_eq!(node.get(12345, 0, &k), None);
    }
    assert_eq!(keys_of(&node, 0), Vec::<u64>::new());
}

#[test]
fn many_values_stay_reachable() {
    let mut node = Node::new();
    for k in 0..600u64 {
        assert_eq!(node.insert(spread(k), 0, Pair(k, k + 1)), None);
    }
    for k in 0..600u64 {
        assert_eq!(node.get(spread(k), 0, &k), Some(&Pair(k, k + 1)));
    }
    assert_eq!(keys_of(&node, 600), (0..600u64).collect::<Vec<_>>());
    for k in (0..600u64).step_by(2) {
        assert_eq!(node.remove(spread(k), 0, &k), Some(Pair(k, k + 1)));
    }
    for k in 0..600u64 {
        let want = if k % 2 == 0 { None } else { Some(&Pair(k, k + 1)) };
        assert_eq!(node.get(spread(k), 0, &k), want);
    }
}

#[test]
fn remove_then_get_finds_nothing() {
    let mut node = Node::new();
    node.insert(spread(5), 0, Pair(5, 50));
    node.insert(spread(6), 0, Pair(6, 60));
    assert_eq!(node.remove(spread(5), 0, &5), Some(Pair(5, 50)));
    assert_eq!(node.get(spread(5), 0, &5), None);
    assert_eq!(node.get(spread(6), 0, &6), Some(&Pair(6, 60)));
    assert_eq!(node.remove(spread(5), 0, &5), None);
}

#[test]
fn remove_moves_later_values_back() {
    let mut node = Node::new();
    node.insert(10, 0, Pair(1, 1));
    node.insert(10, 0, Pair(2, 2));
    node.insert(11, 0, Pair(3, 3));
    // Slots 10, 11, 12 hold keys 1, 2, 3.
    assert_eq!(node.remove(10, 0, &1), Some(Pair(1, 1)));
    // Key 2 moves back to its own slot, key 3 to its own slot.
    assert!(node.data.slots[12].is_none());
    assert_eq!(node.get(10, 0, &2), Some(&Pair(2, 2)));
    assert_eq!(node.get(11, 0, &3), Some(&Pair(3, 3)));
    assert_eq!(node.len(), 2);
}

#[test]
fn remove_undoes_insert() {
    let mut node = Node::new();
    for k in 0..30u64 {
        node.insert(spread(k), 0, Pair(k, k));
    }
    let before = keys_of(&node, 30);
    node.insert(spread(1000), 0, Pair(1000, 0));
    assert_eq!(node.remove(spread(1000), 0, &1000), Some(Pair(1000, 0)));
    assert_eq!(keys_of(&node, 30), before);
}

#[test]
fn removing_down_to_one_value_puts_the_value_in_place_of_the_child() {
    let mut node = Node::new();
    for k in 0..17u64 {
        node.insert(spread(k), 0, Pair(k, k));
    }
    assert!(!node.linear_probing);
    // Two values whose hashes share slot 3 at level 0, which no other value takes.
    node.insert(3 | (1 << 5), 0, Pair(100, 0));
    node.insert(3 | (2 << 5), 0, Pair(101, 0));
    let slot = mask(3, 0) as usize;
    assert!(matches!(node.data.slots[slot], Some(Entry::SmallNode(_))));
    assert_eq!(node.remove(3 | (1 << 5), 0, &100), Some(Pair(100, 0)));
    assert!(matches!(node.data.slots[slot], Some(Entry::Value(_, _))));
    assert_eq!(node.get(3 | (2 << 5), 0, &101), Some(&Pair(101, 0)));
}

#[test]
fn get_mut_changes_what_get_reads() {
    let mut node = Node::new();
    for k in 0..40u64 {
        node.insert(spread(k), 0, Pair(k, 0));
    }
    if let Some(v) = node.get_mut(spread(21), 0, &21) {
        v.1 = 99;
    } else {
        panic!("key 21 is there");
    }
    assert_eq!(node.get(spread(21), 0, &21), Some(&Pair(21, 99)));
    assert!(node.get_mut(spread(77), 0, &77).is_none());
}

#[test]
fn get_mut_reaches_values_in_a_collision_node() {
    let mut node = Node::new();
    for k in 0..20u64 {
        node.insert(7, 0, Pair(k, 0));
    }
    *node.get_mut(7, 0, &13).unwrap() = Pair(13, 5);
    assert_eq!(node.get(7, 0, &13), Some(&Pair(13, 5)));
}

#[test]
fn get_mut_copies_a_shared_child_first() {
    let mut node = Node::new();
    for k in 0..40u64 {
        node.insert(spread(k), 0, Pair(k, 0));
    }
    let copy = node.clone();
    node.get_mut(spread(3), 0, &3).unwrap().1 = 42;
    assert_eq!(node.get(spread(3), 0, &3), Some(&Pair(3, 42)));
    assert_eq!(copy.get(spread(3), 0, &3), Some(&Pair(3, 0)));
}

#[test]
fn wide_keys_compare_hashes_first() {
    let mut node = Node::new();
    node.insert(1, 0, Wide([1, 2, 3, 4], 0));
    node.insert(1, 0, Wide([5, 6, 7, 8], 1));
    assert_eq!(node.get(1, 0, &[5, 6, 7, 8]), Some(&Wide([5, 6, 7, 8], 1)));
    assert_eq!(node.get(2, 0, &[9, 9, 9, 9]), None);
}

#[test]
fn pair_moves_an_equal_index_one_on() {
    let n = Node::pair(31, Entry::Value(Pair(1, 1), 31), 31, Entry::Value(Pair(2, 2), 31));
    assert!(n.data.slots[31].is_some());
    assert!(n.data.slots[0].is_some());
    assert_eq!(n.len(), 2);
    let m = Node::pair(3, Entry::Value(Pair(1, 1), 3), 9, Entry::Value(Pair(2, 2), 9));
    assert!(m.data.slots[3].is_some());
    assert!(m.data.slots[9].is_some());
}

#[test]
fn merge_values_makes_a_small_node_when_small_slots_differ() {
    match Node::merge_values(Pair(1, 1), 1 << 5, Pair(2, 2), 2 << 5, 5) {
        Entry::SmallNode(s) => {
            assert_eq!(s.len(), 2);
            assert_eq!(s.get(1 << 5, 5, &1), Some(&Pair(1, 1)));
            assert_eq!(s.get(2 << 5, 5, &2), Some(&Pair(2, 2)));
        }
        _ => panic!("a small node was expected"),
    }
}

#[test]
fn merge_values_makes_a_node_when_small_slots_are_equal() {
    // Small slots at level 5 are equal (bits 5..9), full slots differ (bit 9).
    match Node::merge_values(Pair(1, 1), 3 << 5, Pair(2, 2), (3 << 5) | (1 << 9), 5) {
        Entry::Node(n) => {
            assert!(n.linear_probing);
            assert_eq!(n.len(), 2);
            assert_eq!(n.get(3 << 5, 5, &1), Some(&Pair(1, 1)));
            assert_eq!(n.get((3 << 5) | (1 << 9), 5, &2), Some(&Pair(2, 2)));
        }
        _ => panic!("a node was expected"),
    }
}

#[test]
fn small_node_refuses_a_taken_slot() {
    let mut s = SmallNode::new();
    assert_eq!(s.insert(3, 0, Pair(1, 1)), Ok(None));
    assert_eq!(s.insert(3, 0, Pair(1, 2)), Ok(Some(Pair(1, 1))));
    assert_eq!(s.insert(3, 0, Pair(2, 2)), Err(Pair(2, 2)));
    assert_eq!(s.len(), 1);
    assert_eq!(s.remove(3, 0, &2), None);
    assert_eq!(s.remove(3, 0, &1), Some(Pair(1, 2)));
    assert_eq!(s.len(), 0);
}

#[test]
fn small_node_get_mut_writes_in_place() {
    let mut s = SmallNode::new();
    s.insert(9, 0, Pair(4, 4)).unwrap();
    s.get_mut(9, 0, &4).unwrap().1 = 40;
    assert_eq!(s.get(9, 0, &4), Some(&Pair(4, 40)));
    assert!(s.get_mut(9, 0, &5).is_none());
}

#[test]
fn a_small_node_that_fills_a_slot_twice_becomes_a_node() {
    let mut node = Node::new();
    for k in 0..17u64 {
        node.insert(spread(k), 0, Pair(k, k));
    }
    let base: HashBits = 2;
    // Two values under slot 2 with different small slots at level 5.
    node.insert(base | (1 << 5), 0, Pair(200, 0));
    node.insert(base | (2 << 5), 0, Pair(201, 0));
    // A third whose small slot at level 5 is that of the first, but with another key.
    node.insert(base | (17 << 5), 0, Pair(202, 0));
    let slot = mask(base, 0) as usize;
    assert!(matches!(node.data.slots[slot], Some(Entry::Node(_))));
    for (h, k) in [(base | (1 << 5), 200u64), (base | (2 << 5), 201), (base | (17 << 5), 202)] {
        assert_eq!(node.get(h, 0, &k), Some(&Pair(k, 0)));
    }
}

#[test]
fn collision_node_keeps_its_values_in_order() {
    let mut c = CollisionNode::new(5, Pair(1, 1), Pair(2, 2));
    assert_eq!(c.len(), 2);
    assert_eq!(c.insert(Pair(3, 3)), None);
    assert_eq!(c.insert(Pair(1, 10)), Some(Pair(1, 1)));
    assert_eq!(c.get(&1), Some(&Pair(1, 10)));
    assert_eq!(c.get(&4), None);
    c.get_mut(&2).unwrap().1 = 20;
    assert_eq!(c.get(&2), Some(&Pair(2, 20)));
    assert_eq!(c.remove(&2), Some(Pair(2, 20)));
    assert_eq!(c.remove(&2), None);
    assert_eq!(c.len(), 2);
    match c.pop() {
        Entry::Value(v, h) => {
            assert_eq!(v, Pair(3, 3));
            assert_eq!(h, 5);
        }
        _ => panic!("a value was expected"),
    }
}

#[test]
fn entry_from_a_collision_node_holds_it() {
    let c = CollisionNode::new(9, Pair(1, 1), Pair(2, 2));
    let e: Entry<Pair> = Entry::from(c);
    match e {
        Entry::Collision(c) => {
            assert_eq!(c.hash, 9);
            assert_eq!(c.len(), 2);
        }
        _ => panic!("a collision entry was expected"),
    }
}

#[test]
fn entry_knows_a_value() {
    let e: Entry<Pair> = Entry::Value(Pair(1, 2), 3);
    assert!(e.is_value());
    assert_eq!(e.unwrap_value(), Pair(1, 2));
    let n: Entry<Pair> = Entry::Node(Arc::new(Node::new()));
    assert!(!n.is_value());
}

#[test]
fn defaults_are_empty() {
    let n: Node<Pair> = Node::default();
    assert!(n.linear_probing);
    assert_eq!(n.len(), 0);
    let s: SmallNode<Pair> = SmallNode::default();
    assert_eq!(s.len(), 0);
}

#[test]
fn node_pop_takes_the_lowest_slot() {
    let mut node = Node::new();
    node.insert(9, 0, Pair(9, 9));
    node.insert(4, 0, Pair(4, 4));
    match node.pop() {
        Entry::Value(v, h) => {
            assert_eq!(v, Pair(4, 4));
            assert_eq!(h, 4);
        }
        _ => panic!("a value was expected"),
    }
    assert_eq!(node.len(), 1);
}

#[test]
fn analyze_structure_lists_the_occupied_slots() {
    let mut node = Node::new();
    for k in 0..5u64 {
        node.insert(spread(k), 0, Pair(k, k));
    }
    let entries = node.analyze_structure();
    assert_eq!(entries.len(), node.len());
    assert!(entries.iter().all(|e| e.is_value()));
}

#[test]
fn iter_meets_every_value_once() {
    let mut node = Node::new();
    for k in 0..300u64 {
        node.insert(spread(k), 0, Pair(k, k));
    }
    for k in 0..20u64 {
        node.insert(99, 0, Pair(1000 + k, 0));
    }
    let mut it = Iter::new(Some(&node), 320);
    assert_eq!(it.size_hint(), (320, Some(320)));
    let mut seen = Vec::new();
    while let Some((v, h)) = it.next() {
        if v.0 >= 1000 {
            assert_eq!(h, 99);
        } else {
            assert_eq!(h, spread(v.0));
        }
        seen.push(v.0);
    }
    assert_eq!(it.size_hint(), (0, Some(0)));
    assert!(it.next().is_none());
    seen.sort();
    let mut want: Vec<u64> = (0..300u64).collect();
    want.extend(1000..1020u64);
    assert_eq!(seen, want);
}

#[test]
fn iter_over_nothing_gives_nothing() {
    let mut it: Iter<Pair> = Iter::new(None, 0);
    assert!(it.next().is_none());
    assert_eq!(it.size_hint(), (0, Some(0)));
}

#[test]
fn iter_clone_starts_at_the_same_place() {
    let mut node = Node::new();
    for k in 0..3u64 {
        node.insert(spread(k), 0, Pair(k, k));
    }
    let mut it = Iter::new(Some(&node), 3);
    it.next();
    let mut copy = it.clone();
    assert_eq!(copy.size_hint(), (2, Some(2)));
    assert_eq!(it.next().map(|(v, _)| v.0), copy.next().map(|(v, _)| v.0));
}

#[test]
fn iter_mut_reaches_every_value() {
    let mut node = Node::new();
    for k in 0..100u64 {
        node.insert(spread(k), 0, Pair(k, 0));
    }
    for k in 0..20u64 {
        node.insert(5, 0, Pair(500 + k, 0));
    }
    let mut it = IterMut::new(Some(&mut node), 120);
    assert_eq!(it.size_hint(), (120, Some(120)));
    let mut n = 0;
    while let Some((v, _)) = it.next() {
        v.1 = v.0 + 1;
        n += 1;
    }
    assert_eq!(n, 120);
    for k in 0..100u64 {
        assert_eq!(node.get(spread(k), 0, &k), Some(&Pair(k, k + 1)));
    }
    for k in 500..520u64 {
        assert_eq!(node.get(5, 0, &k), Some(&Pair(k, k + 1)));
    }
}

#[test]
fn iter_mut_leaves_a_shared_copy_alone() {
    let mut node = Node::new();
    for k in 0..50u64 {
        node.insert(spread(k), 0, Pair(k, 0));
    }
    let copy = node.clone();
    let mut it = IterMut::new(Some(&mut node), 50);
    while let Some((v, _)) = it.next() {
        v.1 = 7;
    }
    for k in 0..50u64 {
        assert_eq!(node.get(spread(k), 0, &k), Some(&Pair(k, 7)));
        assert_eq!(copy.get(spread(k), 0, &k), Some(&Pair(k, 0)));
    }
}

#[test]
fn drain_gives_back_every_value_once() {
    let mut node = Node::new();
    for k in 0..200u64 {
        node.insert(spread(k), 0, Pair(k, k));
    }
    let root = Arc::new(node);
    let keep = root.clone();
    let mut d = Drain::new(Some(root), 200);
    assert_eq!(d.size_hint(), (200, Some(200)));
    let mut got = Vec::new();
    while let Some((v, h)) = d.next() {
        assert_eq!(h, spread(v.0));
        got.push(v.0);
    }
    assert_eq!(d.size_hint(), (0, Some(0)));
    got.sort();
    assert_eq!(got, (0..200u64).collect::<Vec<_>>());
    // The shared copy is untouched.
    assert_eq!(keep.get(spread(5), 0, &5), Some(&Pair(5, 5)));
}

#[test]
fn drain_takes_a_collision_node_from_its_last_value() {
    // A node at the last level: seventeen equal hashes end in a collision node.
    let mut node = Node::new();
    for k in 0..17u64 {
        node.insert(0, 30, Pair(k, 0));
    }
    assert!(!node.linear_probing);
    assert!(matches!(node.data.slots[0], Some(Entry::Collision(_))));
    let mut d = Drain::new(Some(Arc::new(node)), 17);
    let mut order = Vec::new();
    while let Some((v, h)) = d.next() {
        assert_eq!(h, 0);
        order.push(v.0);
    }
    assert_eq!(order, (0..17u64).rev().collect::<Vec<_>>());
}

#[test]
fn clone_keeps_every_value() {
    let mut node = Node::new();
    for k in 0..70u64 {
        node.insert(spread(k), 0, Pair(k, k));
    }
    let copy = node.clone();
    assert_eq!(keys_of(&copy, 70), keys_of(&node, 70));
    assert_eq!(copy.linear_probing, node.linear_probing);
}

#[test]
fn merge_values_lays_out_a_node_as_a_pair() {
    match Node::merge_values(Pair(1, 10), 0, Pair(2, 20), 16, 0) {
        Entry::Node(c) => {
            assert_eq!(c.len(), 2);
            assert!(c.linear_probing);
            assert!(matches!(c.data.slots[0], Some(Entry::Value(Pair(1, 10), 0))));
            assert!(matches!(c.data.slots[16], Some(Entry::Value(Pair(2, 20), 16))));
        }
        _ => panic!("a node was expected"),
    }
    match Node::merge_values(Pair(1, 10), 0, Pair(2, 20), 1, 0) {
        Entry::SmallNode(c) => {
            assert_eq!(c.len(), 2);
            assert!(matches!(c.data.slots[0], Some(Entry::Value(Pair(1, 10), 0))));
            assert!(matches!(c.data.slots[1], Some(Entry::Value(Pair(2, 20), 1))));
        }
        _ => panic!("a small node was expected"),
    }
}

#[test]
fn replacing_in_a_fresh_node_keeps_one_slot() {
    let mut n = Node::new();
    assert_eq!(n.insert(0, 0, Pair(1, 10)), None);
    assert_eq!(n.insert(0, 0, Pair(1, 11)), Some(Pair(1, 10)));
    assert_eq!(n.get(0, 0, &1), Some(&Pair(1, 11)));
    assert_eq!(n.len(), 1);
    assert!(n.linear_probing);
}

#[test]
fn seventeen_keys_in_seventeen_slots() {
    let mut n = Node::new();
    for k in 0..16u64 {
        n.insert(k as u32, 0, Pair(k, k));
    }
    assert!(n.linear_probing);
    assert_eq!(n.insert(16, 0, Pair(16, 16)), None);
    assert!(!n.linear_probing);
    assert_eq!(n.len(), 17);
    for k in 0..=16u64 {
        assert_eq!(n.get(k as u32, 0, &k), Some(&Pair(k, k)));
    }
}

#[test]
fn children_keep_two_values_or_give_way() {
    let mut node = Node::new();
    for k in 0..17u64 {
        node.insert(spread(k), 0, Pair(k, k));
    }
    node.insert(6 | (1 << 5), 0, Pair(300, 0));
    node.insert(6 | (2 << 5), 0, Pair(301, 0));
    node.insert(6 | (3 << 5), 0, Pair(302, 0));
    assert!(matches!(node.data.slots[6], Some(Entry::SmallNode(_))));
    node.remove(6 | (1 << 5), 0, &300);
    assert!(matches!(node.data.slots[6], Some(Entry::SmallNode(_))));
    node.remove(6 | (2 << 5), 0, &301);
    assert!(matches!(node.data.slots[6], Some(Entry::Value(Pair(302, 0), _))));
}

#[test]
fn entry_clone_keeps_the_hash_and_shares_children() {
    let v: Entry<Pair> = Entry::Value(Pair(1, 2), 7);
    match v.clone() {
        Entry::Value(p, h) => {
            assert_eq!(p, Pair(1, 2));
            assert_eq!(h, 7);
        }
        _ => panic!("a value was expected"),
    }
    let child = Arc::new(Node::<Pair>::new());
    let e = Entry::Node(child.clone());
    match e.clone() {
        Entry::Node(c) => assert!(Arc::ptr_eq(&c, &child)),
        _ => panic!("a node was expected"),
    }
}

#[test]
fn insert_and_remove_leave_a_copy_alone() {
    let mut node = Node::new();
    for k in 0..60u64 {
        node.insert(spread(k), 0, Pair(k, k));
    }
    let copy = node.clone();
    node.insert(spread(5), 0, Pair(5, 500));
    node.insert(spread(1000), 0, Pair(1000, 0));
    assert_eq!(node.remove(spread(7), 0, &7), Some(Pair(7, 7)));
    for k in 0..60u64 {
        assert_eq!(copy.get(spread(k), 0, &k), Some(&Pair(k, k)));
    }
    assert_eq!(copy.get(spread(1000), 0, &1000), None);
}

#[test]
fn removing_twice_finds_nothing_the_second_time() {
    let mut node = Node::new();
    for k in 0..30u64 {
        node.insert(spread(k), 0, Pair(k, k));
    }
    assert_eq!(node.remove(spread(9), 0, &9), Some(Pair(9, 9)));
    let before = keys_of(&node, 29);
    assert_eq!(node.remove(spread(9), 0, &9), None);
    assert_eq!(keys_of(&node, 29), before);
}

#[test]
fn depth_counts_the_nodes_on_the_longest_way_down() {
    let mut flat = Node::new();
    for k in 0..3u64 {
        flat.insert(spread(k), 0, Pair(k, k));
    }
    assert_eq!(flat.depth(0), 1);

    let mut last = Node::new();
    for k in 0..17u64 {
        last.insert(0, 30, Pair(k, 0));
    }
    assert!(matches!(last.data.slots[0], Some(Entry::Collision(_))));
    assert_eq!(last.depth(30), 2);
}

#[test]
fn iter_mut_stopped_early_leaves_the_rest() {
    let mut node = Node::new();
    for k in 0..3u64 {
        node.insert(spread(k), 0, Pair(k, 0));
    }
    {
        let mut it = IterMut::new(Some(&mut node), 3);
        if let Some((v, _)) = it.next() {
            v.1 = 7;
        }
    }
    let mut sevens = 0;
    for k in 0..3u64 {
        let p = node.get(spread(k), 0, &k).unwrap();
        assert!(p.1 == 0 || p.1 == 7);
        if p.1 == 7 {
            sevens += 1;
        }
    }
    assert_eq!(sevens, 1);
}

#[test]
fn iter_takes_any_size_it_is_told() {
    let mut node = Node::new();
    for k in 0..3u64 {
        node.insert(spread(k), 0, Pair(k, 0));
    }
    let it = Iter::new(Some(&node), 1);
    assert_eq!(it.size_hint(), (1, Some(1)));
    let mut none: Iter<Pair> = Iter::new(None, 5);
    assert_eq!(none.size_hint(), (5, Some(5)));
    assert!(none.next().is_none());
}
