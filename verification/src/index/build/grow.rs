//! Building the trees of an index.

use vstd::prelude::*;
use vstd::multiset::Multiset;
use crate::index::format::LABEL_LEGIT;
use crate::index::model::{Forest, Node, Slot, LANES};
use crate::index::tree::sort_by_first;
use crate::{DIM, STORE_DIM};

verus! {

/// Labelled vectors that an index is built from.
#[verifier::ext_equal]
pub struct Input {
    pub vectors: Seq<[i16; STORE_DIM]>,
    pub labels: Seq<u8>,
}

/// The slots of a leaf with `n` vectors: the next multiple of a block.
pub open spec fn padded(n: int) -> int {
    (n + 7) / 8 * 8
}

/// Whether `n` vectors stay together.
pub open spec fn fits_leaf(leaf: int, n: int) -> bool {
    n <= leaf || n < 2
}

/// The number of nodes of a tree of `n` vectors.
pub open spec fn tree_nodes(leaf: int, n: int) -> int
    decreases n,
{
    if fits_leaf(leaf, n) {
        1
    } else {
        1 + tree_nodes(leaf, n / 2) + tree_nodes(leaf, n - n / 2)
    }
}

/// The number of slots of a tree of `n` vectors.
pub open spec fn tree_slots(leaf: int, n: int) -> int
    decreases n,
{
    if fits_leaf(leaf, n) {
        padded(n)
    } else {
        tree_slots(leaf, n / 2) + tree_slots(leaf, n - n / 2)
    }
}

/// What fills a leaf up.
pub open spec fn padding() -> Slot {
    Slot { vec: Seq::new(DIM as nat, |d: int| i16::MAX), label: LABEL_LEGIT }
}

/// The dimension among the first `n` in which a box is widest; the first one of several.
pub open spec fn widest(lo: Seq<i16>, hi: Seq<i16>, n: int) -> int
    decreases n,
{
    if n <= 1 {
        0
    } else {
        let best = widest(lo, hi, n - 1);
        if hi[n - 1] - lo[n - 1] > hi[best] - lo[best] {
            n - 1
        } else {
            best
        }
    }
}

/// The least value in dimension `d`.
pub open spec fn low(vs: Seq<[i16; STORE_DIM]>, ids: Seq<int>, d: int) -> i16
    decreases ids.len(),
{
    if ids.len() == 0 {
        i16::MAX
    } else {
        let m = low(vs, ids.drop_last(), d);
        let v = vs[ids.last()]@[d];
        if v < m {
            v
        } else {
            m
        }
    }
}

/// The greatest value in dimension `d`.
pub open spec fn high(vs: Seq<[i16; STORE_DIM]>, ids: Seq<int>, d: int) -> i16
    decreases ids.len(),
{
    if ids.len() == 0 {
        i16::MIN
    } else {
        let m = high(vs, ids.drop_last(), d);
        let v = vs[ids.last()]@[d];
        if v > m {
            v
        } else {
            m
        }
    }
}

/// The lower corner of the box of some vectors.
pub open spec fn box_low(vs: Seq<[i16; STORE_DIM]>, ids: Seq<int>) -> Seq<i16> {
    Seq::new(STORE_DIM as nat, |d: int| low(vs, ids, d))
}

/// The upper corner of the box of some vectors.
pub open spec fn box_high(vs: Seq<[i16; STORE_DIM]>, ids: Seq<int>) -> Seq<i16> {
    Seq::new(STORE_DIM as nat, |d: int| high(vs, ids, d))
}

/// Whether `ord` lists the same vectors, ordered by dimension `d`.
pub open spec fn is_order(vs: Seq<[i16; STORE_DIM]>, ids: Seq<int>, d: int, ord: Seq<int>) -> bool {
    &&& ord.len() == ids.len()
    &&& ord.to_multiset() == ids.to_multiset()
    &&& forall|j: int, k: int|
        0 <= j <= k < ord.len() ==> vs[#[trigger] ord[j]]@[d]
            <= vs[#[trigger] ord[k]]@[d]
}

impl Input {
    /// Vector number `i` with its label.
    pub open spec fn slot(self, i: int) -> Slot {
        Slot { vec: Seq::new(DIM as nat, |d: int| self.vectors[i]@[d]), label: self.labels[i] }
    }

    /// All vectors with their labels.
    pub open spec fn slots(self) -> Seq<Slot> {
        Seq::new(self.vectors.len(), |i: int| self.slot(i))
    }

    /// Whether `ids` numbers vectors.
    pub open spec fn has_all(self, ids: Seq<int>) -> bool {
        forall|k: int| 0 <= k < ids.len() ==> 0 <= #[trigger] ids[k] < self.vectors.len()
    }

    /// Whether the slots from `at` on are those of a leaf.
    pub open spec fn is_leaf(self, slots: Seq<Slot>, at: int, ids: Seq<int>) -> bool {
        &&& at + padded(ids.len() as int) <= slots.len()
        &&& forall|k: int|
            at <= k < at + padded(ids.len() as int) ==> #[trigger] slots[k] == (if k - at
                < ids.len() {
                self.slot(ids[k - at])
            } else {
                padding()
            })
    }

    /// Whether node `i` is the root of the tree of some vectors, whose slots begin at `at`. Few
    /// vectors make a leaf. Others are ordered by the widest dimension of their box and split in
    /// the middle; the first half comes right behind its parent, the second half behind it.
    pub open spec fn is_tree(self, leaf: int, f: Forest, i: int, at: int, ids: Seq<int>) -> bool
        decreases ids.len(),
    {
        let n = f.nodes[i];
        let len = ids.len() as int;
        &&& f.has_node(i)
        &&& n.min == box_low(self.vectors, ids)
        &&& n.max == box_high(self.vectors, ids)
        &&& n.len == len
        &&& if fits_leaf(leaf, len) {
            &&& n.left == -1
            &&& n.right == -1
            &&& n.start == at / 8
            &&& self.is_leaf(f.slots, at, ids)
        } else {
            let mid = len / 2;
            &&& n.left == i + 1
            &&& n.right == i + 1 + tree_nodes(leaf, mid)
            &&& n.start == at
            &&& exists|ord: Seq<int>| #[trigger]
                is_order(self.vectors, ids, widest(n.min, n.max, DIM as int), ord) && self.is_tree(
                    leaf,
                    f,
                    i + 1,
                    at,
                    ord.take(mid),
                ) && self.is_tree(
                    leaf,
                    f,
                    i + 1 + tree_nodes(leaf, mid),
                    at + tree_slots(leaf, mid),
                    ord.skip(mid),
                )
        }
    }
}

/// A tree takes at least one node and one slot for each vector.
pub proof fn lemma_tree_sizes(leaf: int, n: int)
    requires
        0 <= n,
    ensures
        1 <= tree_nodes(leaf, n),
        n <= tree_slots(leaf, n),
        tree_slots(leaf, n) % 8 == 0,
        tree_nodes(leaf, n) <= 2 * n + 1,
        tree_slots(leaf, n) <= 8 * n + 8,
        n >= 1 ==> tree_slots(leaf, n) <= 8 * n && tree_nodes(leaf, n) <= 2 * n - 1,
    decreases n,
{
    if !fits_leaf(leaf, n) {
        lemma_tree_sizes(leaf, n / 2);
        lemma_tree_sizes(leaf, n - n / 2);
    }
}

/// A tree depends only on its own nodes and slots.
pub proof fn lemma_tree_frame(
    inp: Input,
    leaf: int,
    f: Forest,
    g: Forest,
    i: int,
    at: int,
    ids: Seq<int>,
)
    requires
        inp.is_tree(leaf, f, i, at, ids),
        0 <= i,
        0 <= at,
        i + tree_nodes(leaf, ids.len() as int) <= f.nodes.len(),
        i + tree_nodes(leaf, ids.len() as int) <= g.nodes.len(),
        at + tree_slots(leaf, ids.len() as int) <= f.slots.len(),
        at + tree_slots(leaf, ids.len() as int) <= g.slots.len(),
        forall|j: int|
            i <= j < i + tree_nodes(leaf, ids.len() as int) ==> #[trigger] g.nodes[j] == f.nodes[j],
        forall|j: int|
            at <= j < at + tree_slots(leaf, ids.len() as int) ==> #[trigger] g.slots[j]
                == f.slots[j],
    ensures
        inp.is_tree(leaf, g, i, at, ids),
    decreases ids.len(),
{
    let len = ids.len() as int;
    lemma_tree_sizes(leaf, len);
    assert(g.nodes[i] == f.nodes[i]);
    let n = f.nodes[i];
    if !fits_leaf(leaf, len) {
        let mid = len / 2;
        lemma_tree_sizes(leaf, mid);
        lemma_tree_sizes(leaf, len - mid);
        let d = widest(n.min, n.max, DIM as int);
        let ord = choose|ord: Seq<int>| #[trigger]
            is_order(inp.vectors, ids, d, ord) && inp.is_tree(leaf, f, i + 1, at, ord.take(mid))
                && inp.is_tree(
                leaf,
                f,
                i + 1 + tree_nodes(leaf, mid),
                at + tree_slots(leaf, mid),
                ord.skip(mid),
            );
        lemma_tree_frame(inp, leaf, f, g, i + 1, at, ord.take(mid));
        lemma_tree_frame(
            inp,
            leaf,
            f,
            g,
            i + 1 + tree_nodes(leaf, mid),
            at + tree_slots(leaf, mid),
            ord.skip(mid),
        );
        assert(is_order(inp.vectors, ids, d, ord));
    }
}

/// Reordered sequences stay so under a map.
pub proof fn lemma_map_multiset<A, B>(a: Seq<A>, b: Seq<A>, g: spec_fn(A) -> B)
    requires
        a.to_multiset() == b.to_multiset(),
    ensures
        a.map_values(g).to_multiset() == b.map_values(g).to_multiset(),
        a.len() == b.len(),
    decreases a.len(),
{
    a.to_multiset_ensures();
    b.to_multiset_ensures();
    assert(a.len() == a.to_multiset().len());
    assert(b.len() == b.to_multiset().len());
    if a.len() == 0 {
        assert(a.map_values(g) =~= b.map_values(g));
    } else {
        let x = a.last();
        assert(a.contains(x));
        assert(a.to_multiset().count(x) > 0);
        assert(b.to_multiset().count(x) > 0);
        assert(b.contains(x));
        let i = choose|i: int| 0 <= i < b.len() && b[i] == x;
        let ra = a.remove(a.len() - 1);
        let rb = b.remove(i);
        assert(ra.to_multiset() =~= rb.to_multiset());
        lemma_map_multiset(ra, rb, g);
        assert(a.map_values(g) =~= ra.map_values(g).push(g(x)));
        assert(b.map_values(g) =~= rb.map_values(g).insert(i, g(x)));
        ra.map_values(g).to_multiset_ensures();
        vstd::seq_lib::to_multiset_insert(rb.map_values(g), i, g(x));
    }
}

/// The numbers in a list of indices.
pub open spec fn numbers(list: Seq<usize>) -> Seq<int> {
    list.map_values(|i: usize| i as int)
}

/// The box of some vectors.
pub fn bounds(vectors: &Vec<[i16; STORE_DIM]>, indices: &Vec<usize>) -> (r: (
    [i16; STORE_DIM],
    [i16; STORE_DIM],
))
    requires
        forall|k: int| 0 <= k < indices@.len() ==> #[trigger] indices@[k] < vectors@.len(),
    ensures
        r.0@ == box_low(vectors@, numbers(indices@)),
        r.1@ == box_high(vectors@, numbers(indices@)),
{
    let ghost ids = numbers(indices@);
    let mut lo: [i16; STORE_DIM] = [i16::MAX; STORE_DIM];
    let mut hi: [i16; STORE_DIM] = [i16::MIN; STORE_DIM];
    let mut k: usize = 0;
    assert(lo@ =~= box_low(vectors@, ids.take(0)));
    assert(hi@ =~= box_high(vectors@, ids.take(0)));
    while k < indices.len()
        invariant
            ids == numbers(indices@),
            forall|k: int| 0 <= k < indices@.len() ==> #[trigger] indices@[k] < vectors@.len(),
            k <= indices@.len(),
            lo@ == box_low(vectors@, ids.take(k as int)),
            hi@ == box_high(vectors@, ids.take(k as int)),
        decreases indices@.len() - k,
    {
        let i: usize = indices[k];
        assert(ids[k as int] == i);
        let v: [i16; STORE_DIM] = vectors[i];
        let ghost before = ids.take(k as int);
        let ghost after = ids.take(k + 1);
        assert(after.drop_last() =~= before);
        assert(after.last() == i);
        let mut d: usize = 0;
        while d < STORE_DIM
            invariant
                d <= STORE_DIM,
                v == vectors@[i as int],
                after.drop_last() == before,
                after.len() > 0,
                after.last() == i,
                lo@.len() == STORE_DIM,
                hi@.len() == STORE_DIM,
                forall|j: int| 0 <= j < d ==> #[trigger] lo@[j] == low(vectors@, after, j),
                forall|j: int| 0 <= j < d ==> #[trigger] hi@[j] == high(vectors@, after, j),
                forall|j: int| d <= j < STORE_DIM ==> #[trigger] lo@[j] == low(vectors@, before, j),
                forall|j: int| d <= j < STORE_DIM ==> #[trigger] hi@[j] == high(vectors@, before, j),
            decreases STORE_DIM - d,
        {
            if v[d] < lo[d] {
                lo[d] = v[d];
            }
            if v[d] > hi[d] {
                hi[d] = v[d];
            }
            d += 1;
        }
        assert(lo@ =~= box_low(vectors@, after));
        assert(hi@ =~= box_high(vectors@, after));
        k += 1;
    }
    assert(ids.take(indices@.len() as int) =~= ids);
    (lo, hi)
}

proof fn lemma_widest_range(lo: Seq<i16>, hi: Seq<i16>, n: int)
    requires
        1 <= n,
    ensures
        0 <= widest(lo, hi, n) < n,
    decreases n,
{
    if n > 1 {
        lemma_widest_range(lo, hi, n - 1);
    }
}

/// The dimension in which a box is widest.
pub fn widest_dim(lo: &[i16; STORE_DIM], hi: &[i16; STORE_DIM]) -> (r: usize)
    ensures
        r == widest(lo@, hi@, DIM as int),
        r < DIM,
{
    let mut best: usize = 0;
    let mut best_w: i32 = hi[0] as i32 - lo[0] as i32;
    let mut d: usize = 1;
    while d < DIM
        invariant
            1 <= d <= DIM,
            best < d,
            best == widest(lo@, hi@, d as int),
            best_w == hi@[best as int] - lo@[best as int],
        decreases DIM - d,
    {
        let w: i32 = hi[d] as i32 - lo[d] as i32;
        if w > best_w {
            best_w = w;
            best = d;
        }
        d += 1;
    }
    best
}

/// A tree node under construction. Its `start` counts slots.
#[derive(Clone, Copy)]
pub struct BuildNode {
    pub left: i32,
    pub right: i32,
    pub start: i32,
    pub len: i32,
    pub min: [i16; STORE_DIM],
    pub max: [i16; STORE_DIM],
}

impl BuildNode {
    /// The node as it is stored: a leaf begins at a block.
    pub open spec fn stored(self) -> Node {
        Node {
            left: self.left,
            right: self.right,
            start: if self.left < 0 {
                (self.start / 8) as i32
            } else {
                self.start
            },
            len: self.len,
            min: self.min@,
            max: self.max@,
        }
    }
}

/// A vector in its place, with its label.
pub open spec fn block_slot(b: ([i16; STORE_DIM], u8)) -> Slot {
    Slot { vec: Seq::new(DIM as nat, |d: int| b.0@[d]), label: b.1 }
}

/// The trees as far as they are built.
pub open spec fn grown(nodes: Seq<BuildNode>, blocks: Seq<([i16; STORE_DIM], u8)>) -> Forest {
    Forest {
        parts: Seq::empty(),
        nodes: nodes.map_values(|n: BuildNode| n.stored()),
        slots: blocks.map_values(|b: ([i16; STORE_DIM], u8)| block_slot(b)),
    }
}

/// Whether a place is one that fills a leaf up.
pub open spec fn is_filler(b: ([i16; STORE_DIM], u8)) -> bool {
    b.1 == LABEL_LEGIT && forall|d: int| 0 <= d < STORE_DIM ==> #[trigger] b.0@[d] == i16::MAX
}

impl Input {
    /// Vector number `i`, whole, with its label.
    pub open spec fn entry(self, i: int) -> ([i16; STORE_DIM], u8) {
        (self.vectors[i], self.labels[i])
    }

    /// Whether the places from `at` on hold these vectors, filled up to a multiple of a block.
    pub open spec fn fills(
        self,
        blocks: Seq<([i16; STORE_DIM], u8)>,
        at: int,
        ids: Seq<int>,
    ) -> bool {
        &&& at + padded(ids.len() as int) <= blocks.len()
        &&& forall|k: int|
            at <= k < at + ids.len() ==> #[trigger] blocks[k] == self.entry(ids[k - at])
        &&& forall|k: int|
            at + ids.len() <= k < at + padded(ids.len() as int) ==> is_filler(#[trigger] blocks[k])
    }

    /// Whether node `i` is the root of the tree of some vectors under construction, whose places
    /// begin at `at`. Few vectors make a leaf. Others are ordered by the widest dimension of their
    /// box and split in the middle; the first half comes right behind its parent, the second half
    /// behind it.
    pub open spec fn is_grown(
        self,
        leaf: int,
        nodes: Seq<BuildNode>,
        blocks: Seq<([i16; STORE_DIM], u8)>,
        i: int,
        at: int,
        ids: Seq<int>,
    ) -> bool
        decreases ids.len(),
    {
        let n = nodes[i];
        let len = ids.len() as int;
        &&& 0 <= i < nodes.len()
        &&& n.min@ == box_low(self.vectors, ids)
        &&& n.max@ == box_high(self.vectors, ids)
        &&& n.len == len
        &&& n.start == at
        &&& if fits_leaf(leaf, len) {
            &&& n.left == -1
            &&& n.right == -1
            &&& self.fills(blocks, at, ids)
        } else {
            let mid = len / 2;
            &&& n.left == i + 1
            &&& n.right == i + 1 + tree_nodes(leaf, mid)
            &&& exists|ord: Seq<int>| #[trigger]
                is_order(self.vectors, ids, widest(n.min@, n.max@, DIM as int), ord)
                    && self.is_grown(leaf, nodes, blocks, i + 1, at, ord.take(mid))
                    && self.is_grown(
                    leaf,
                    nodes,
                    blocks,
                    i + 1 + tree_nodes(leaf, mid),
                    at + tree_slots(leaf, mid),
                    ord.skip(mid),
                )
        }
    }
}

/// A tree that was grown is a tree of the index.
proof fn lemma_grown_tree(
    inp: Input,
    leaf: int,
    nodes: Seq<BuildNode>,
    blocks: Seq<([i16; STORE_DIM], u8)>,
    i: int,
    at: int,
    ids: Seq<int>,
)
    requires
        inp.is_grown(leaf, nodes, blocks, i, at, ids),
        0 <= at,
        at % 8 == 0,
    ensures
        inp.is_tree(leaf, grown(nodes, blocks), i, at, ids),
    decreases ids.len(),
{
    let f = grown(nodes, blocks);
    let n = nodes[i];
    let len = ids.len() as int;
    assert(f.nodes[i] == n.stored());
    assert(f.has_node(i));
    if fits_leaf(leaf, len) {
        assert forall|k: int| at <= k < at + padded(len) implies #[trigger] f.slots[k] == (if k - at
            < ids.len() {
            inp.slot(ids[k - at])
        } else {
            padding()
        }) by {
            assert(f.slots[k] == block_slot(blocks[k]));
            if k - at < ids.len() {
                assert(blocks[k] == inp.entry(ids[k - at]));
                assert(f.slots[k].vec =~= inp.slot(ids[k - at]).vec);
            } else {
                assert(is_filler(blocks[k]));
                assert(f.slots[k].vec =~= padding().vec);
            }
        }
        assert(inp.is_leaf(f.slots, at, ids));
        assert(f.nodes[i].start == at / 8);
    } else {
        let mid = len / 2;
        let d = widest(n.min@, n.max@, DIM as int);
        let ord = choose|ord: Seq<int>| #[trigger]
            is_order(inp.vectors, ids, d, ord) && inp.is_grown(
                leaf,
                nodes,
                blocks,
                i + 1,
                at,
                ord.take(mid),
            ) && inp.is_grown(
                leaf,
                nodes,
                blocks,
                i + 1 + tree_nodes(leaf, mid),
                at + tree_slots(leaf, mid),
                ord.skip(mid),
            );
        lemma_tree_sizes(leaf, mid);
        lemma_grown_tree(inp, leaf, nodes, blocks, i + 1, at, ord.take(mid));
        lemma_grown_tree(
            inp,
            leaf,
            nodes,
            blocks,
            i + 1 + tree_nodes(leaf, mid),
            at + tree_slots(leaf, mid),
            ord.skip(mid),
        );
        let m = f.nodes[i];
        assert(m.left == i + 1 && m.start == at);
        assert(is_order(inp.vectors, ids, widest(m.min, m.max, DIM as int), ord));
    }
}

/// A tree depends only on its own nodes and places.
proof fn lemma_grown_frame(
    inp: Input,
    leaf: int,
    nodes: Seq<BuildNode>,
    blocks: Seq<([i16; STORE_DIM], u8)>,
    nodes2: Seq<BuildNode>,
    blocks2: Seq<([i16; STORE_DIM], u8)>,
    i: int,
    at: int,
    ids: Seq<int>,
)
    requires
        inp.is_grown(leaf, nodes, blocks, i, at, ids),
        0 <= at,
        i + tree_nodes(leaf, ids.len() as int) <= nodes2.len(),
        at + tree_slots(leaf, ids.len() as int) <= blocks2.len(),
        forall|j: int|
            i <= j < i + tree_nodes(leaf, ids.len() as int) ==> #[trigger] nodes2[j] == nodes[j],
        forall|j: int|
            at <= j < at + tree_slots(leaf, ids.len() as int) ==> #[trigger] blocks2[j]
                == blocks[j],
    ensures
        inp.is_grown(leaf, nodes2, blocks2, i, at, ids),
    decreases ids.len(),
{
    let n = nodes[i];
    let len = ids.len() as int;
    lemma_tree_sizes(leaf, len);
    assert(nodes2[i] == nodes[i]);
    if !fits_leaf(leaf, len) {
        let mid = len / 2;
        let d = widest(n.min@, n.max@, DIM as int);
        let ord = choose|ord: Seq<int>| #[trigger]
            is_order(inp.vectors, ids, d, ord) && inp.is_grown(
                leaf,
                nodes,
                blocks,
                i + 1,
                at,
                ord.take(mid),
            ) && inp.is_grown(
                leaf,
                nodes,
                blocks,
                i + 1 + tree_nodes(leaf, mid),
                at + tree_slots(leaf, mid),
                ord.skip(mid),
            );
        lemma_tree_sizes(leaf, mid);
        lemma_tree_sizes(leaf, len - mid);
        lemma_grown_frame(inp, leaf, nodes, blocks, nodes2, blocks2, i + 1, at, ord.take(mid));
        lemma_grown_frame(
            inp,
            leaf,
            nodes,
            blocks,
            nodes2,
            blocks2,
            i + 1 + tree_nodes(leaf, mid),
            at + tree_slots(leaf, mid),
            ord.skip(mid),
        );
        assert(is_order(inp.vectors, ids, d, ord));
    }
}

/// The vectors in the leaves below node `i`, whole, with their labels.
pub open spec fn entries_below(
    nodes: Seq<BuildNode>,
    blocks: Seq<([i16; STORE_DIM], u8)>,
    i: int,
) -> Multiset<([i16; STORE_DIM], u8)>
    decreases nodes.len() - i,
{
    let n = nodes[i];
    if i < 0 || i >= nodes.len() {
        Multiset::empty()
    } else if n.left < 0 {
        blocks.subrange(n.start as int, n.start + n.len).to_multiset()
    } else if i < n.left < nodes.len() && i < n.right < nodes.len() {
        entries_below(nodes, blocks, n.left as int).add(
            entries_below(nodes, blocks, n.right as int),
        )
    } else {
        Multiset::empty()
    }
}

/// The leaves of a tree that was grown hold its vectors, each as often as it was given.
pub proof fn grown_leaves_hold_vectors(
    inp: Input,
    leaf: int,
    nodes: Seq<BuildNode>,
    blocks: Seq<([i16; STORE_DIM], u8)>,
    i: int,
    at: int,
    ids: Seq<int>,
)
    requires
        inp.is_grown(leaf, nodes, blocks, i, at, ids),
        0 <= at,
    ensures
        entries_below(nodes, blocks, i) == ids.map_values(|k: int| inp.entry(k)).to_multiset(),
    decreases ids.len(),
{
    let n = nodes[i];
    let len = ids.len() as int;
    let g = |k: int| inp.entry(k);
    if fits_leaf(leaf, len) {
        assert(blocks.subrange(at, at + len) =~= ids.map_values(g));
    } else {
        let mid = len / 2;
        let d = widest(n.min@, n.max@, DIM as int);
        let ord = choose|ord: Seq<int>| #[trigger]
            is_order(inp.vectors, ids, d, ord) && inp.is_grown(
                leaf,
                nodes,
                blocks,
                i + 1,
                at,
                ord.take(mid),
            ) && inp.is_grown(
                leaf,
                nodes,
                blocks,
                i + 1 + tree_nodes(leaf, mid),
                at + tree_slots(leaf, mid),
                ord.skip(mid),
            );
        lemma_tree_sizes(leaf, mid);
        grown_leaves_hold_vectors(inp, leaf, nodes, blocks, i + 1, at, ord.take(mid));
        grown_leaves_hold_vectors(
            inp,
            leaf,
            nodes,
            blocks,
            i + 1 + tree_nodes(leaf, mid),
            at + tree_slots(leaf, mid),
            ord.skip(mid),
        );
        let a = ord.take(mid).map_values(g);
        let b = ord.skip(mid).map_values(g);
        assert(ord.map_values(g) =~= a + b);
        vstd::seq_lib::lemma_multiset_commutative(a, b);
        lemma_map_multiset(ord, ids, g);
    }
}

/// Whether `b` begins with `a`.
pub open spec fn extends<A>(a: Seq<A>, b: Seq<A>) -> bool {
    a.len() <= b.len() && forall|i: int| 0 <= i < a.len() ==> #[trigger] b[i] == a[i]
}

/// Orders vectors by a dimension and splits them in the middle.
pub fn split_sorted(vectors: &Vec<[i16; STORE_DIM]>, indices: &Vec<usize>, dim: usize) -> (r: (
    Vec<usize>,
    Vec<usize>,
))
    requires
        dim < STORE_DIM,
        forall|k: int| 0 <= k < indices@.len() ==> #[trigger] indices@[k] < vectors@.len(),
    ensures
        r.0@.len() == indices@.len() / 2,
        r.0@.len() + r.1@.len() == indices@.len(),
        is_order(
            vectors@,
            numbers(indices@),
            dim as int,
            numbers(r.0@) + numbers(r.1@),
        ),
        forall|k: int| 0 <= k < r.0@.len() ==> #[trigger] r.0@[k] < vectors@.len(),
        forall|k: int| 0 <= k < r.1@.len() ==> #[trigger] r.1@[k] < vectors@.len(),
{
    let mut keyed: Vec<(i64, usize)> = Vec::new();
    let mut k: usize = 0;
    while k < indices.len()
        invariant
            dim < STORE_DIM,
            forall|k: int| 0 <= k < indices@.len() ==> #[trigger] indices@[k] < vectors@.len(),
            k <= indices@.len(),
            keyed@.len() == k,
            forall|j: int|
                0 <= j < k ==> #[trigger] keyed@[j] == (
                    vectors@[indices@[j] as int]@[dim as int] as i64,
                    indices@[j],
                ),
        decreases indices@.len() - k,
    {
        let i: usize = indices[k];
        let v: [i16; STORE_DIM] = vectors[i];
        keyed.push((v[dim] as i64, i));
        k += 1;
    }
    let ghost before = keyed@;
    sort_by_first(&mut keyed);
    let ghost after = keyed@;
    let ghost second = |e: (i64, usize)| e.1 as int;
    proof {
        lemma_map_multiset(before, after, second);
        assert(before.map_values(second) =~= numbers(indices@));
        before.to_multiset_ensures();
        after.to_multiset_ensures();
        assert forall|j: int| 0 <= j < after.len() implies (#[trigger] after[j]).1 < vectors@.len()
            && after[j].0 == vectors@[after[j].1 as int]@[dim as int] by {
            assert(after.contains(after[j]));
            assert(after.to_multiset().count(after[j]) > 0);
            assert(before.to_multiset().count(after[j]) > 0);
            assert(before.contains(after[j]));
            let m = choose|m: int| 0 <= m < before.len() && before[m] == after[j];
            assert(before[m].1 == indices@[m]);
        }
    }
    let mid: usize = keyed.len() / 2;
    let mut left: Vec<usize> = Vec::new();
    let mut right: Vec<usize> = Vec::new();
    let mut k: usize = 0;
    while k < keyed.len()
        invariant
            keyed@ == after,
            forall|j: int| 0 <= j < after.len() ==> (#[trigger] after[j]).1 < vectors@.len(),
            mid == after.len() / 2,
            k <= after.len(),
            left@.len() == if k < mid {
                k as int
            } else {
                mid as int
            },
            left@.len() + right@.len() == k,
            forall|j: int| 0 <= j < left@.len() ==> #[trigger] left@[j] == after[j].1,
            forall|j: int| 0 <= j < right@.len() ==> #[trigger] right@[j] == after[mid + j].1,
        decreases after.len() - k,
    {
        if k < mid {
            left.push(keyed[k].1);
        } else {
            right.push(keyed[k].1);
        }
        k += 1;
    }
    proof {
        let ord = numbers(left@) + numbers(right@);
        assert(ord =~= after.map_values(second));
        assert forall|j: int, k: int| 0 <= j <= k < ord.len() implies vectors@[
        #[trigger] ord[j]]@[dim as int] <= vectors@[#[trigger] ord[k]]@[dim as int] by {
            assert(ord[j] == after[j].1 && ord[k] == after[k].1);
            assert(after[j].0 <= after[k].0);
        }
    }
    (left, right)
}

/// Fills the last block up.
fn fill_block(filler: ([i16; STORE_DIM], u8), blocks: &mut Vec<([i16; STORE_DIM], u8)>)
    ensures
        extends(old(blocks)@, final(blocks)@),
        final(blocks)@.len() == padded(old(blocks)@.len() as int),
        forall|j: int|
            old(blocks)@.len() <= j < final(blocks)@.len() ==> #[trigger] final(blocks)@[j]
                == filler,
{
    let ghost len = blocks@.len() as int;
    while blocks.len() % LANES != 0
        invariant
            len == old(blocks)@.len(),
            len <= blocks@.len() <= padded(len),
            extends(old(blocks)@, blocks@),
            forall|j: int| len <= j < blocks@.len() ==> #[trigger] blocks@[j] == filler,
        decreases padded(len) - blocks@.len(),
    {
        blocks.push(filler);
    }
}

/// Appends vectors with their labels, and fills the last block up.
pub fn push_blocks(
    vectors: &Vec<[i16; STORE_DIM]>,
    labels: &Vec<u8>,
    indices: &Vec<usize>,
    filler: ([i16; STORE_DIM], u8),
    blocks: &mut Vec<([i16; STORE_DIM], u8)>,
)
    requires
        labels@.len() == vectors@.len(),
        forall|k: int| 0 <= k < indices@.len() ==> #[trigger] indices@[k] < vectors@.len(),
        old(blocks)@.len() % 8 == 0,
    ensures
        extends(old(blocks)@, final(blocks)@),
        final(blocks)@.len() == old(blocks)@.len() + padded(indices@.len() as int),
        forall|j: int|
            old(blocks)@.len() <= j < final(blocks)@.len() ==> #[trigger] final(blocks)@[j] == (if j
                - old(blocks)@.len() < indices@.len() {
                (
                    vectors@[indices@[j - old(blocks)@.len()] as int],
                    labels@[indices@[j - old(blocks)@.len()] as int],
                )
            } else {
                filler
            }),
{
    let ghost at = blocks@.len() as int;
    let mut k: usize = 0;
    while k < indices.len()
        invariant
            labels@.len() == vectors@.len(),
            forall|k: int| 0 <= k < indices@.len() ==> #[trigger] indices@[k] < vectors@.len(),
            k <= indices@.len(),
            at == old(blocks)@.len(),
            blocks@.len() == at + k,
            extends(old(blocks)@, blocks@),
            forall|j: int|
                at <= j < at + k ==> #[trigger] blocks@[j] == (
                    vectors@[indices@[j - at] as int],
                    labels@[indices@[j - at] as int],
                ),
        decreases indices@.len() - k,
    {
        let i: usize = indices[k];
        let v: [i16; STORE_DIM] = vectors[i];
        blocks.push((v, labels[i]));
        k += 1;
    }
    let ghost filled = blocks@;
    fill_block(filler, blocks);
    proof {
        let n = indices@.len() as int;
        assert(padded(at + n) == at + padded(n));
        assert forall|j: int| 0 <= j < at + n implies blocks@[j] == filled[j] by {}
    }
}

/// Appends a leaf.
fn push_leaf(
    vectors: &Vec<[i16; STORE_DIM]>,
    labels: &Vec<u8>,
    indices: &Vec<usize>,
    blocks: &mut Vec<([i16; STORE_DIM], u8)>,
)
    requires
        labels@.len() == vectors@.len(),
        forall|k: int| 0 <= k < indices@.len() ==> #[trigger] indices@[k] < vectors@.len(),
        old(blocks)@.len() % 8 == 0,
    ensures
        extends(old(blocks)@, final(blocks)@),
        final(blocks)@.len() == old(blocks)@.len() + padded(indices@.len() as int),
        (Input { vectors: vectors@, labels: labels@ }).fills(
            final(blocks)@,
            old(blocks)@.len() as int,
            numbers(indices@),
        ),
{
    let filler: ([i16; STORE_DIM], u8) = ([i16::MAX; STORE_DIM], LABEL_LEGIT);
    assert(is_filler(filler));
    push_blocks(vectors, labels, indices, filler, blocks);
}

/// Grows the tree of some vectors. Returns its root.
#[verifier::rlimit(40)]
pub fn build_tree(
    vectors: &Vec<[i16; STORE_DIM]>,
    labels: &Vec<u8>,
    indices: &Vec<usize>,
    leaf_size: usize,
    blocks: &mut Vec<([i16; STORE_DIM], u8)>,
    nodes: &mut Vec<BuildNode>,
) -> (root: usize)
    requires
        labels@.len() == vectors@.len(),
        forall|k: int| 0 <= k < indices@.len() ==> #[trigger] indices@[k] < vectors@.len(),
        leaf_size >= 1,
        old(blocks)@.len() % 8 == 0,
        old(blocks)@.len() + tree_slots(leaf_size as int, indices@.len() as int) <= i32::MAX,
        old(nodes)@.len() + tree_nodes(leaf_size as int, indices@.len() as int) <= i32::MAX,
        forall|j: int| 0 <= j < old(nodes)@.len() ==> (#[trigger] old(nodes)@[j]).start >= 0,
    ensures
        root == old(nodes)@.len(),
        forall|j: int| 0 <= j < final(nodes)@.len() ==> (#[trigger] final(nodes)@[j]).start >= 0,
        extends(old(blocks)@, final(blocks)@),
        extends(old(nodes)@, final(nodes)@),
        final(blocks)@.len() == old(blocks)@.len() + tree_slots(
            leaf_size as int,
            indices@.len() as int,
        ),
        final(nodes)@.len() == old(nodes)@.len() + tree_nodes(
            leaf_size as int,
            indices@.len() as int,
        ),
        (Input { vectors: vectors@, labels: labels@ }).is_grown(
            leaf_size as int,
            final(nodes)@,
            final(blocks)@,
            root as int,
            old(blocks)@.len() as int,
            numbers(indices@),
        ),
        (Input { vectors: vectors@, labels: labels@ }).is_tree(
            leaf_size as int,
            grown(final(nodes)@, final(blocks)@),
            root as int,
            old(blocks)@.len() as int,
            numbers(indices@),
        ),
    decreases indices@.len(),
{
    let ghost inp = Input { vectors: vectors@, labels: labels@ };
    let ghost ids = numbers(indices@);
    let ghost leaf = leaf_size as int;
    let ghost len = indices@.len() as int;
    let ghost at = blocks@.len() as int;
    proof {
        lemma_tree_sizes(leaf, len);
    }
    let (lo, hi) = bounds(vectors, indices);
    let node_idx: usize = nodes.len();
    if indices.len() <= leaf_size {
        let start_slot: i32 = blocks.len() as i32;
        push_leaf(vectors, labels, indices, blocks);
        nodes.push(
            BuildNode {
                left: -1,
                right: -1,
                start: start_slot,
                len: indices.len() as i32,
                min: lo,
                max: hi,
            },
        );
        proof {
            lemma_grown_tree(inp, leaf, nodes@, blocks@, node_idx as int, at, ids);
        }
        return node_idx;
    }
    nodes.push(
        BuildNode {
            left: -1,
            right: -1,
            start: 0,
            len: indices.len() as i32,
            min: lo,
            max: hi,
        },
    );
    let dim: usize = widest_dim(&lo, &hi);
    let (left_idx, right_idx) = split_sorted(vectors, indices, dim);
    let ghost ord = numbers(left_idx@) + numbers(right_idx@);
    let ghost mid = len / 2;
    proof {
        assert(is_order(inp.vectors, ids, dim as int, ord));
        assert(ord.take(mid) =~= numbers(left_idx@));
        assert(ord.skip(mid) =~= numbers(right_idx@));
        lemma_tree_sizes(leaf, mid);
        lemma_tree_sizes(leaf, len - mid);
    }
    let left: usize = build_tree(vectors, labels, &left_idx, leaf_size, blocks, nodes);
    let ghost nodes1 = nodes@;
    let ghost blocks1 = blocks@;
    let right: usize = build_tree(vectors, labels, &right_idx, leaf_size, blocks, nodes);
    let ghost nodes2 = nodes@;
    let total_len: i32 = nodes[left].len + nodes[right].len;
    let mut node: BuildNode = nodes[node_idx];
    node.left = left as i32;
    node.right = right as i32;
    node.start = nodes[left].start;
    node.len = total_len;
    nodes.set(node_idx, node);
    proof {
        lemma_grown_frame(
            inp,
            leaf,
            nodes1,
            blocks1,
            nodes@,
            blocks@,
            left as int,
            at,
            ord.take(mid),
        );
        lemma_grown_frame(
            inp,
            leaf,
            nodes2,
            blocks@,
            nodes@,
            blocks@,
            right as int,
            at + tree_slots(leaf, mid),
            ord.skip(mid),
        );
        assert(is_order(inp.vectors, ids, widest(node.min@, node.max@, DIM as int), ord));
        assert(inp.is_grown(leaf, nodes@, blocks@, node_idx as int, at, ids));
        lemma_grown_tree(inp, leaf, nodes@, blocks@, node_idx as int, at, ids);
    }
    node_idx
}

} // verus!
