# imbl_hamt

The nodes of a hash array mapped trie, the structure under a persistent hash
map or hash set, written in Verus with its behaviour proved.

A `Node` has 32 slots; at level `shift` a value goes to the slot picked by
bits `shift..shift + 5` of its hash. A node starts with linear probing and
turns into a branching node once it would hold more than 16 values. A
branching node keeps, in each slot, a value, a child (`Node` or `SmallNode`)
for the values that share the slot, or, at the last level, a `CollisionNode`
for values with equal hashes. Children are shared between tries and copied
before they change; a copied node copies its values with
`HashValue::clone_value`, which gives back a value equal to the one it copies,
so that the contracts say exactly what a change leaves in the node.

Each node is read as a map from keys to `(value, hash)` items. The contracts
of `get`, `get_mut`, `insert` and `remove` say what each does to that map, and
that every operation keeps the node well formed. `Iter`, `IterMut` and `Drain`
say which items they give and in what order. `IterMut` also says where the
writes go: the node it walked ends up holding its old slots with at most
values changed (`refill.rs`), the values being what the handed-out
references were left holding, in walk order; `law_walk_keeps_the_node`
says that such a node, where each value keeps its key, is well formed and
maps each key to its new value.

Lookups compare keys with `==` and ask that it be equality of the keys
(`keys_compare_by_equality`), as the map from keys is taken over Verus's own
equality: key types whose `==` compares views (such as `String`) are not
covered.

Layout of `src/`:

- `bits.rs`: hash bits, slots and the facts about hash prefixes.
- `chunk.rs`: the sparse array of slots.
- `value.rs`: the values stored, and the hash comparison.
- `model.rs`: items and their map.
- `node.rs`: the node types, their items, and well-formedness.
- `node_impl.rs`, `small.rs`, `collision.rs`: the operations.
- `node_proofs.rs`: how changing one slot changes a node.
- `shared.rs`: copying nodes and shared children.
- `iter.rs`, `iter_mut.rs`, `drain.rs`: walking and draining.
- `refill.rs`: what a node keeps when only its values change.
- `laws.rs`: what holds across operations.

The hash type comes from the `bitmaps` crate. The sparse array of slots
(`Chunk`), the shared pointer (`std::sync::Arc`) and the walking stacks
(`Vec`) are the library's own rather than those of `imbl-sized-chunks` and
`archery`: a node holds entries that point back at nodes, and Verus does not
accept an outside type in that recursive position, nor can a name for the
contents of an outside collection be generic over the stored type. Draining
keeps to the same bound as an inline stack of `ITER_STACK_CAPACITY` entries:
`Drain::new` asks that the node be no deeper than that, and `Node::depth`
measures it.

`app/` holds what stays in ordinary Rust: hashing keys with a caller's hasher,
debug output, and the standard iterator traits.
