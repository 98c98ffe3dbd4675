//! Splitting vectors into partitions, each with a tree of its own.

use vstd::prelude::*;
use crate::index::build::grow::{
    box_high, box_low, build_tree, extends, grown, lemma_tree_frame, lemma_tree_sizes,
    numbers, tree_nodes, tree_slots, BuildNode, Input,
};
use crate::index::distance::{key_of, partition_key};
use crate::index::model::{Forest, Part};
use crate::STORE_DIM;

verus! {

/// Number of partition keys.
pub const KEYS: usize = 256;

impl Input {
    /// The vectors among the first `n` that have a key, in the order in which they came.
    pub open spec fn bucket_upto(self, key: int, n: int) -> Seq<int>
        decreases n,
    {
        if n <= 0 {
            Seq::empty()
        } else if key_of(self.vectors[n - 1]@) == key {
            self.bucket_upto(key, n - 1).push(n - 1)
        } else {
            self.bucket_upto(key, n - 1)
        }
    }

    /// The vectors that have a key, in the order in which they came.
    pub open spec fn bucket(self, key: int) -> Seq<int> {
        self.bucket_upto(key, self.vectors.len() as int)
    }

    /// The number of partitions below a key. A key without vectors has none.
    pub open spec fn part_base(self, key: int) -> int
        decreases key,
    {
        if key <= 0 {
            0
        } else if self.bucket(key - 1).len() == 0 {
            self.part_base(key - 1)
        } else {
            self.part_base(key - 1) + 1
        }
    }

    /// The number of nodes below a key.
    pub open spec fn node_base(self, leaf: int, key: int) -> int
        decreases key,
    {
        if key <= 0 {
            0
        } else if self.bucket(key - 1).len() == 0 {
            self.node_base(leaf, key - 1)
        } else {
            self.node_base(leaf, key - 1) + tree_nodes(leaf, self.bucket(key - 1).len() as int)
        }
    }

    /// The number of slots below a key.
    pub open spec fn slot_base(self, leaf: int, key: int) -> int
        decreases key,
    {
        if key <= 0 {
            0
        } else if self.bucket(key - 1).len() == 0 {
            self.slot_base(leaf, key - 1)
        } else {
            self.slot_base(leaf, key - 1) + tree_slots(leaf, self.bucket(key - 1).len() as int)
        }
    }

    /// Whether a key with vectors has its partition, and the partition its tree.
    pub open spec fn part_ok(self, leaf: int, f: Forest, key: int) -> bool {
        let ids = self.bucket(key);
        let p = f.parts[self.part_base(key)];
        &&& p.key == key
        &&& p.root == self.node_base(leaf, key)
        &&& p.len == ids.len()
        &&& p.min == box_low(self.vectors, ids)
        &&& p.max == box_high(self.vectors, ids)
        &&& self.is_tree(leaf, f, self.node_base(leaf, key), self.slot_base(leaf, key), ids)
    }

    /// Whether the first keys have their partitions, one behind the other.
    pub open spec fn is_index_upto(self, leaf: int, f: Forest, keys: int) -> bool {
        &&& f.parts.len() == self.part_base(keys)
        &&& f.nodes.len() == self.node_base(leaf, keys)
        &&& f.slots.len() == self.slot_base(leaf, keys)
        &&& forall|key: int|
            0 <= key < keys && self.bucket(key).len() > 0 ==> #[trigger] self.part_ok(leaf, f, key)
    }

    /// Whether a forest is an index of these vectors.
    pub open spec fn is_index(self, leaf: int, f: Forest) -> bool {
        self.is_index_upto(leaf, f, KEYS as int)
    }
}

/// The partitions below a key come before those below a greater key.
pub proof fn lemma_bases(inp: Input, leaf: int, a: int, b: int)
    requires
        0 <= a <= b,
    ensures
        0 <= inp.part_base(a) <= inp.part_base(b) <= b,
        0 <= inp.node_base(leaf, a) <= inp.node_base(leaf, b),
        0 <= inp.slot_base(leaf, a) <= inp.slot_base(leaf, b),
        inp.slot_base(leaf, a) % 8 == 0,
        inp.part_base(b) <= inp.node_base(leaf, b),
    decreases b,
{
    if b > 0 {
        let n = inp.bucket(b - 1).len() as int;
        lemma_tree_sizes(leaf, n);
        if a < b {
            lemma_bases(inp, leaf, a, b - 1);
        } else {
            lemma_bases(inp, leaf, b - 1, b - 1);
        }
    }
}

/// Buckets hold vectors with their key.
pub proof fn lemma_bucket(inp: Input, key: int, n: int)
    requires
        0 <= n,
    ensures
        inp.bucket_upto(key, n).len() <= n,
        inp.bucket_upto(key, n).no_duplicates(),
        forall|k: int|
            0 <= k < inp.bucket_upto(key, n).len() ==> 0 <= #[trigger] inp.bucket_upto(key, n)[k]
                < n && key_of(inp.vectors[inp.bucket_upto(key, n)[k]]@) == key,
    decreases n,
{
    if n > 0 {
        lemma_bucket(inp, key, n - 1);
    }
}

/// Every vector is in the bucket of its key.
pub proof fn lemma_bucket_has(inp: Input, i: int, n: int)
    requires
        0 <= i < n,
    ensures
        inp.bucket_upto(key_of(inp.vectors[i]@), n).contains(i),
    decreases n,
{
    let key = key_of(inp.vectors[i]@);
    let b = inp.bucket_upto(key, n);
    let a = inp.bucket_upto(key, n - 1);
    if i == n - 1 {
        assert(b == a.push(i));
        assert(b[a.len() as int] == i);
    } else {
        lemma_bucket_has(inp, i, n - 1);
        let k = choose|k: int| 0 <= k < a.len() && a[k] == i;
        assert(b[k] == i);
    }
}

/// Sorts the vectors into buckets by key.
pub(crate) fn fill_buckets(vectors: &Vec<[i16; STORE_DIM]>, Ghost(inp): Ghost<Input>) -> (r: Vec<Vec<usize>>)
    requires
        inp.vectors == vectors@,
    ensures
        r@.len() == KEYS,
        forall|key: int| 0 <= key < KEYS ==> numbers(#[trigger] r@[key]@) == inp.bucket(key),
{
    let mut buckets: Vec<Vec<usize>> = Vec::new();
    let mut k: usize = 0;
    while k < KEYS
        invariant
            k <= KEYS,
            buckets@.len() == k,
            forall|key: int| 0 <= key < k ==> (#[trigger] buckets@[key])@.len() == 0,
        decreases KEYS - k,
    {
        buckets.push(Vec::new());
        k += 1;
    }
    let mut i: usize = 0;
    assert forall|key: int| 0 <= key < KEYS implies numbers(#[trigger] buckets@[key]@)
        == inp.bucket_upto(key, 0) by {
        assert(numbers(buckets@[key]@) =~= Seq::empty());
    }
    while i < vectors.len()
        invariant
            inp.vectors == vectors@,
            i <= vectors@.len(),
            buckets@.len() == KEYS,
            forall|key: int|
                0 <= key < KEYS ==> numbers(#[trigger] buckets@[key]@) == inp.bucket_upto(
                    key,
                    i as int,
                ),
        decreases vectors@.len() - i,
    {
        let key: usize = partition_key(&vectors[i]) as usize;
        let ghost before = buckets@;
        buckets[key].push(i);
        proof {
            assert forall|k: int| 0 <= k < KEYS implies numbers(#[trigger] buckets@[k]@)
                == inp.bucket_upto(k, i + 1) by {
                if k == key {
                    assert(numbers(buckets@[k]@) =~= numbers(before[k]@).push(i as int));
                } else {
                    assert(buckets@[k] == before[k]);
                }
            }
        }
        i += 1;
    }
    buckets
}

/// A partition under construction.
#[derive(Clone, Copy)]
pub struct PartitionRoot {
    pub key: u32,
    pub root: i32,
}

/// The partition as it is stored: it takes its box from its root.
pub open spec fn stored_part(r: PartitionRoot, nodes: Seq<BuildNode>) -> Part {
    let n = nodes[r.root as int];
    Part { key: r.key, root: r.root, len: n.len, min: n.min@, max: n.max@ }
}

/// The forest as far as it is built.
pub open spec fn planted(
    roots: Seq<PartitionRoot>,
    nodes: Seq<BuildNode>,
    blocks: Seq<([i16; STORE_DIM], u8)>,
) -> Forest {
    Forest {
        parts: roots.map_values(|r: PartitionRoot| stored_part(r, nodes)),
        nodes: grown(nodes, blocks).nodes,
        slots: grown(nodes, blocks).slots,
    }
}

/// The partitions of an index under construction.
pub struct Plantation {
    pub roots: Vec<PartitionRoot>,
    pub nodes: Vec<BuildNode>,
    pub blocks: Vec<([i16; STORE_DIM], u8)>,
}

/// One more partition leaves the others as they are.
proof fn lemma_plant(
    inp: Input,
    leaf: int,
    f: Forest,
    g: Forest,
    keys: int,
)
    requires
        leaf >= 1,
        0 <= keys,
        inp.bucket(keys).len() > 0,
        inp.is_index_upto(leaf, f, keys),
        g.parts.len() == f.parts.len() + 1,
        g.nodes.len() == f.nodes.len() + tree_nodes(leaf, inp.bucket(keys).len() as int),
        g.slots.len() == f.slots.len() + tree_slots(leaf, inp.bucket(keys).len() as int),
        extends(f.parts, g.parts),
        extends(f.nodes, g.nodes),
        extends(f.slots, g.slots),
        inp.part_ok(leaf, g, keys),
    ensures
        inp.is_index_upto(leaf, g, keys + 1),
{
    assert forall|key: int| 0 <= key < keys + 1 && inp.bucket(key).len() > 0 implies #[trigger]
    inp.part_ok(leaf, g, key) by {
        if key < keys {
            assert(inp.part_ok(leaf, f, key));
            lemma_bases(inp, leaf, key, key);
            lemma_bases(inp, leaf, key + 1, keys);
            assert(g.parts[inp.part_base(key)] == f.parts[inp.part_base(key)]);
            lemma_tree_frame(
                inp,
                leaf,
                f,
                g,
                inp.node_base(leaf, key),
                inp.slot_base(leaf, key),
                inp.bucket(key),
            );
        }
    }
}

/// Grows the trees of all partitions.
pub fn plant(
    vectors: &Vec<[i16; STORE_DIM]>,
    labels: &Vec<u8>,
    buckets: &Vec<Vec<usize>>,
    leaf_size: usize,
) -> (r: Plantation)
    requires
        labels@.len() == vectors@.len(),
        leaf_size >= 1,
        buckets@.len() == KEYS,
        ({
            let inp = Input { vectors: vectors@, labels: labels@ };
            &&& forall|key: int|
                0 <= key < KEYS ==> numbers(#[trigger] buckets@[key]@) == inp.bucket(key)
            &&& inp.node_base(leaf_size as int, KEYS as int) <= i32::MAX
            &&& inp.slot_base(leaf_size as int, KEYS as int) <= i32::MAX
        }),
    ensures
        (Input { vectors: vectors@, labels: labels@ }).is_index(
            leaf_size as int,
            planted(r.roots@, r.nodes@, r.blocks@),
        ),
        forall|p: int|
            0 <= p < r.roots@.len() ==> 0 <= (#[trigger] r.roots@[p]).root < r.nodes@.len(),
        forall|j: int| 0 <= j < r.nodes@.len() ==> (#[trigger] r.nodes@[j]).start >= 0,
{
    let ghost inp = Input { vectors: vectors@, labels: labels@ };
    let ghost leaf = leaf_size as int;
    let mut roots: Vec<PartitionRoot> = Vec::new();
    let mut nodes: Vec<BuildNode> = Vec::new();
    let mut blocks: Vec<([i16; STORE_DIM], u8)> = Vec::new();
    let mut key: usize = 0;
    while key < KEYS
        invariant
            inp == (Input { vectors: vectors@, labels: labels@ }),
            leaf == leaf_size,
            leaf >= 1,
            labels@.len() == vectors@.len(),
            buckets@.len() == KEYS,
            forall|key: int|
                0 <= key < KEYS ==> numbers(#[trigger] buckets@[key]@) == inp.bucket(key),
            inp.node_base(leaf, KEYS as int) <= i32::MAX,
            inp.slot_base(leaf, KEYS as int) <= i32::MAX,
            key <= KEYS,
            inp.is_index_upto(leaf, planted(roots@, nodes@, blocks@), key as int),
            forall|p: int|
                0 <= p < roots@.len() ==> 0 <= (#[trigger] roots@[p]).root < nodes@.len(),
            forall|j: int| 0 <= j < nodes@.len() ==> (#[trigger] nodes@[j]).start >= 0,
        decreases KEYS - key,
    {
        let ghost f = planted(roots@, nodes@, blocks@);
        let ghost nodes0 = nodes@;
        let ghost roots0 = roots@;
        let ghost blocks0 = blocks@;
        let ghost ids = inp.bucket(key as int);
        assert(numbers(buckets@[key as int]@) == ids);
        if buckets[key].len() > 0 {
            proof {
                lemma_bases(inp, leaf, key as int, key as int);
                lemma_bases(inp, leaf, key + 1, KEYS as int);
                lemma_bucket(inp, key as int, vectors@.len() as int);
                assert forall|k: int| 0 <= k < buckets@[key as int]@.len() implies #[trigger] buckets@[
                key as int]@[k] < vectors@.len() by {
                    assert(ids[k] == buckets@[key as int]@[k]);
                }
            }
            let root: usize = build_tree(
                vectors,
                labels,
                &buckets[key],
                leaf_size,
                &mut blocks,
                &mut nodes,
            );
            roots.push(PartitionRoot { key: key as u32, root: root as i32 });
            proof {
                let g = planted(roots@, nodes@, blocks@);
                let t = grown(nodes@, blocks@);
                lemma_tree_sizes(leaf, ids.len() as int);
                assert forall|p: int| 0 <= p < f.parts.len() implies #[trigger] g.parts[p]
                    == f.parts[p] by {
                    assert(roots@[p] == roots0[p]);
                    assert(nodes@[roots0[p].root as int] == nodes0[roots0[p].root as int]);
                }
                assert forall|j: int| 0 <= j < f.nodes.len() implies #[trigger] g.nodes[j]
                    == f.nodes[j] by {
                    assert(nodes@[j] == nodes0[j]);
                }
                assert forall|j: int| 0 <= j < f.slots.len() implies #[trigger] g.slots[j]
                    == f.slots[j] by {
                    assert(blocks@[j] == blocks0[j]);
                }
                lemma_tree_frame(inp, leaf, t, g, root as int, blocks0.len() as int, ids);
                assert(g.parts[roots0.len() as int] == stored_part(
                    roots@[roots0.len() as int],
                    nodes@,
                ));
                assert(t.nodes[root as int] == nodes@[root as int].stored());
                assert(inp.part_ok(leaf, g, key as int));
                lemma_plant(inp, leaf, f, g, key as int);
            }
        }
        key += 1;
    }
    Plantation { roots, nodes, blocks }
}

} // verus!
