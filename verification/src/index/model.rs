//! What an index holds, as mathematical values.

use vstd::prelude::*;

verus! {

/// Number of vectors in a block.
pub const LANES: usize = 8;

/// A stored vector with its label.
#[verifier::ext_equal]
pub struct Slot {
    pub vec: Seq<i16>,
    pub label: u8,
}

/// A tree node. A node whose `left` is negative is a leaf: it holds `len` slots, from the first
/// slot of block `start` on. Any other node has two children, stored behind it.
#[verifier::ext_equal]
pub struct Node {
    pub left: i32,
    pub right: i32,
    pub start: i32,
    pub len: i32,
    pub min: Seq<i16>,
    pub max: Seq<i16>,
}

/// A partition: the key of its vectors and the root of its tree.
#[verifier::ext_equal]
pub struct Part {
    pub key: u32,
    pub root: i32,
    pub len: i32,
    pub min: Seq<i16>,
    pub max: Seq<i16>,
}

/// A partitioned tree index.
#[verifier::ext_equal]
pub struct Forest {
    pub parts: Seq<Part>,
    pub nodes: Seq<Node>,
    pub slots: Seq<Slot>,
}

/// A cluster: its centre, its box, the blocks from `first` to `end` that hold its slots, and how
/// many slots it has.
#[verifier::ext_equal]
pub struct Cluster {
    pub centroid: Seq<i16>,
    pub min: Seq<i16>,
    pub max: Seq<i16>,
    pub first: u32,
    pub end: u32,
    pub count: u32,
}

/// A cluster index.
#[verifier::ext_equal]
pub struct Clusters {
    pub clusters: Seq<Cluster>,
    pub slots: Seq<Slot>,
}

impl Node {
    pub open spec fn is_leaf(self) -> bool {
        self.left < 0
    }

    /// First slot of a leaf.
    pub open spec fn first(self) -> int {
        self.start * LANES
    }
}

impl Forest {
    /// Whether node `i` is a leaf within the slots, or has both children behind it.
    pub open spec fn node_ok(self, i: int) -> bool {
        let n = self.nodes[i];
        if n.is_leaf() {
            &&& 0 <= n.start
            &&& 0 <= n.len
            &&& n.first() + n.len <= self.slots.len()
            &&& forall|s: int|
                n.first() <= s < n.first() + n.len ==> (#[trigger] self.slots[s]).label <= 1
        } else {
            self.splits(i)
        }
    }

    /// Whether every node can be searched.
    pub open spec fn wf(self) -> bool {
        forall|i: int| 0 <= i < self.nodes.len() ==> #[trigger] self.node_ok(i)
    }

    /// Whether `i` is the number of a node.
    pub open spec fn has_node(self, i: int) -> bool {
        0 <= i < self.nodes.len()
    }

    /// Whether node `i` has two children, both stored behind it.
    pub open spec fn splits(self, i: int) -> bool {
        let n = self.nodes[i];
        &&& !n.is_leaf()
        &&& i < n.left < self.nodes.len()
        &&& i < n.right < self.nodes.len()
    }

    /// The slots below node `i`, from left to right.
    pub open spec fn points(self, i: int) -> Seq<Slot>
        decreases self.nodes.len() - i,
    {
        if !self.has_node(i) {
            Seq::empty()
        } else {
            let n = self.nodes[i];
            if n.is_leaf() {
                self.slots.subrange(n.first(), n.first() + n.len)
            } else if self.splits(i) {
                self.points(n.left as int) + self.points(n.right as int)
            } else {
                Seq::empty()
            }
        }
    }

    /// The number of edges on the longest way down from node `i`.
    pub open spec fn depth(self, i: int) -> nat
        decreases self.nodes.len() - i,
    {
        if !self.has_node(i) {
            0
        } else {
            let n = self.nodes[i];
            if self.splits(i) {
                let l = self.depth(n.left as int);
                let r = self.depth(n.right as int);
                1 + if l <= r {
                    r
                } else {
                    l
                }
            } else {
                0
            }
        }
    }

    /// The slots of the first `p` partitions.
    pub open spec fn points_before(self, p: int) -> Seq<Slot>
        decreases p,
    {
        if p <= 0 {
            Seq::empty()
        } else {
            self.points_before(p - 1) + self.points(self.parts[p - 1].root as int)
        }
    }

    /// All slots that a search can reach.
    pub open spec fn all_points(self) -> Seq<Slot> {
        self.points_before(self.parts.len() as int)
    }

    /// Whether the box of node `i` holds every slot below it.
    pub open spec fn boxed(self, i: int) -> bool {
        forall|k: int|
            0 <= k < self.points(i).len() ==> crate::index::distance::in_box(
                (#[trigger] self.points(i)[k]).vec,
                self.nodes[i].min,
                self.nodes[i].max,
            )
    }

    /// Whether the box of partition `p` holds every slot of the partition.
    pub open spec fn part_boxed(self, p: int) -> bool {
        let root = self.parts[p].root as int;
        forall|k: int|
            0 <= k < self.points(root).len() ==> crate::index::distance::in_box(
                (#[trigger] self.points(root)[k]).vec,
                self.parts[p].min,
                self.parts[p].max,
            )
    }

    /// Whether all boxes are right, so that a search may rely on them.
    pub open spec fn boxes_ok(self) -> bool {
        &&& forall|i: int| 0 <= i < self.nodes.len() ==> #[trigger] self.boxed(i)
        &&& forall|p: int| 0 <= p < self.parts.len() ==> #[trigger] self.part_boxed(p)
    }

    /// The partition that a key leads to: the last one that carries the key, or `-1`.
    pub open spec fn home_before(self, key: int, p: int) -> int
        decreases p,
    {
        if p <= 0 {
            -1
        } else if self.parts[p - 1].key == key {
            p - 1
        } else {
            self.home_before(key, p - 1)
        }
    }

    pub open spec fn home(self, key: int) -> int {
        self.home_before(key, self.parts.len() as int)
    }
}

/// Whether a slot carries the label.
pub open spec fn has_label(pts: Seq<Slot>, label: u8) -> bool {
    exists|k: int| 0 <= k < pts.len() && (#[trigger] pts[k]).label == label
}

/// The labels among some slots: bit 0 for legitimate ones, bit 1 for fraudulent ones.
pub open spec fn label_mask(pts: Seq<Slot>) -> u8 {
    if has_label(pts, 0) {
        if has_label(pts, 1) {
            3
        } else {
            1
        }
    } else if has_label(pts, 1) {
        2
    } else {
        0
    }
}

/// The labels below each node.
pub open spec fn kinds_of(f: Forest) -> Seq<u8> {
    Seq::new(f.nodes.len(), |i: int| label_mask(f.points(i)))
}

impl Cluster {
    /// First slot.
    pub open spec fn start(self) -> int {
        self.first * LANES
    }

    /// How many slots its blocks hold: all of them, or as many as there is room for.
    pub open spec fn size(self) -> int {
        let room = (self.end - self.first) * LANES;
        if self.count <= room {
            self.count as int
        } else {
            room
        }
    }
}

impl Clusters {
    /// Whether the blocks of cluster `c` are stored, with no empty block before the last.
    pub open spec fn cluster_ok(self, c: int) -> bool {
        let x = self.clusters[c];
        &&& x.first <= x.end
        &&& x.end * LANES <= self.slots.len()
        &&& x.first < x.end ==> (x.end - x.first - 1) * LANES <= x.count
        &&& forall|s: int|
            x.start() <= s < x.start() + x.size() ==> (#[trigger] self.slots[s]).label <= 1
    }

    /// Whether every cluster can be searched.
    pub open spec fn wf(self) -> bool {
        forall|c: int| 0 <= c < self.clusters.len() ==> #[trigger] self.cluster_ok(c)
    }

    /// The slots of cluster `c`.
    pub open spec fn points(self, c: int) -> Seq<Slot> {
        let x = self.clusters[c];
        self.slots.subrange(x.start(), x.start() + x.size())
    }
}

/// The labels among the slots of two parts are those of the one or of the other.
pub proof fn lemma_mask_append(a: Seq<Slot>, b: Seq<Slot>)
    ensures
        label_mask(a + b) == label_mask(a) | label_mask(b),
        label_mask(a) <= 3,
{
    assert forall|l: u8| has_label(a + b, l) == (has_label(a, l) || has_label(b, l)) by {
        if has_label(a, l) {
            let k = choose|k: int| 0 <= k < a.len() && (#[trigger] a[k]).label == l;
            assert((a + b)[k].label == l);
        }
        if has_label(b, l) {
            let k = choose|k: int| 0 <= k < b.len() && (#[trigger] b[k]).label == l;
            assert((a + b)[a.len() + k].label == l);
        }
        if has_label(a + b, l) {
            let k = choose|k: int| 0 <= k < (a + b).len() && (#[trigger] (a + b)[k]).label == l;
            if k < a.len() {
                assert(a[k].label == l);
            } else {
                assert(b[k - a.len()].label == l);
            }
        }
    }
    let x = label_mask(a);
    let y = label_mask(b);
    assert(0u8 | y == y && x | 0u8 == x && x | x == x && 3u8 | 1u8 == 3u8 && 3u8 | 2u8 == 3u8
        && 1u8 | 3u8 == 3u8 && 2u8 | 3u8 == 3u8 && 1u8 | 2u8 == 3u8 && 2u8 | 1u8 == 3u8)
        by (bit_vector);
}

} // verus!
