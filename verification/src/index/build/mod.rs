//! Building an index.

pub mod cluster_laws;
pub mod clusters;
pub mod encode;
pub mod file;
pub mod grow;
pub mod laws;
pub mod parts;

use vstd::prelude::*;
use crate::index::build::clusters::{
    blocks_before, groups_of, is_cluster_index, is_halving, is_history, is_longest, is_splitting,
    is_step, make_clusters, replaced, split_ivf_ranges, IVF_CLUSTER_COUNT,
};
use crate::index::build::encode::{table_risk, Counts};
use crate::index::build::file::{
    cluster_file, lemma_cluster_file, lemma_tree_file, tree_file,
};
use crate::index::build::grow::{lemma_tree_sizes, numbers, padded, tree_nodes, tree_slots, Input};
use crate::index::build::parts::{fill_buckets, lemma_bases, plant, planted, KEYS};
use crate::index::distance::key_of;
use crate::index::format::{
    cluster_layout, clusters_of, defect, forest_of, is_clusters, is_pairs, mcc_entry, n_points_of,
    node_count_of, tree_layout, DEFAULT_LEAF_SIZE, IVF_VERSION, KD_PAIR_VERSION,
};
use crate::index::model::LANES;
use crate::STORE_DIM;

verus! {

/// Collects labelled vectors and makes an index of them.
pub struct Builder {
    vectors: Vec<[i16; STORE_DIM]>,
    labels: Vec<u8>,
}

/// Why no index could be made.
#[derive(Clone, Copy, Debug, PartialEq, Eq, Structural)]
pub enum BuildError {
    /// The sections would not be within reach of the header's offsets.
    TooLarge,
}

impl View for Builder {
    type V = Input;

    closed spec fn view(&self) -> Input {
        Input { vectors: self.vectors@, labels: self.labels@ }
    }
}

/// Whether a place in a file is within reach of the offsets in its header.
pub open spec fn in_reach(offset: int) -> bool {
    offset <= u32::MAX
}

/// Where the merchant risk table of an index begins.
pub open spec fn table_offset(inp: Input, leaf: int) -> int {
    tree_layout(
        inp.part_base(KEYS as int),
        inp.node_base(leaf, KEYS as int),
        inp.slot_base(leaf, KEYS as int) / 8,
    ).mcc_table
}

/// Whether a file is the index of some vectors.
pub open spec fn is_index_file(inp: Input, leaf: int, b: Seq<u8>) -> bool {
    &&& defect(b) is None
    &&& is_pairs(b)
    &&& n_points_of(b) == inp.vectors.len()
    &&& inp.is_index(leaf, forest_of(b))
    &&& forall|i: int| 44 <= i < 64 ==> #[trigger] b[i] == 0
    &&& forall|code: int| 0 <= code ==> mcc_entry(b, code) == #[trigger] table_risk(code % 1024)
}

/// The number of nodes and slots of a tree.
fn tree_size(leaf_size: usize, n: usize) -> (r: (u128, u128))
    requires
        leaf_size >= 1,
    ensures
        r.0 == tree_nodes(leaf_size as int, n as int),
        r.1 == tree_slots(leaf_size as int, n as int),
    decreases n,
{
    proof {
        lemma_tree_sizes(leaf_size as int, n as int);
    }
    if n <= leaf_size {
        (1, (n as u128 + 7) / 8 * 8)
    } else {
        let mid: usize = n / 2;
        proof {
            lemma_tree_sizes(leaf_size as int, mid as int);
            lemma_tree_sizes(leaf_size as int, n - mid);
        }
        let a = tree_size(leaf_size, mid);
        let b = tree_size(leaf_size, n - mid);
        (1 + a.0 + b.0, a.1 + b.1)
    }
}

/// The number of partitions, nodes and slots of an index.
fn forest_size(buckets: &Vec<Vec<usize>>, leaf_size: usize, Ghost(inp): Ghost<Input>) -> (r: (
    u128,
    u128,
    u128,
))
    requires
        leaf_size >= 1,
        buckets@.len() == KEYS,
        forall|key: int| 0 <= key < KEYS ==> numbers(#[trigger] buckets@[key]@) == inp.bucket(key),
    ensures
        r.0 == inp.part_base(KEYS as int),
        r.1 == inp.node_base(leaf_size as int, KEYS as int),
        r.2 == inp.slot_base(leaf_size as int, KEYS as int),
        r.0 <= KEYS,
        r.1 <= KEYS * (16 * (usize::MAX as int) + 8),
        r.2 <= KEYS * (16 * (usize::MAX as int) + 8),
{
    let mut parts: u128 = 0;
    let mut nodes: u128 = 0;
    let mut slots: u128 = 0;
    let mut key: usize = 0;
    while key < KEYS
        invariant
            leaf_size >= 1,
            buckets@.len() == KEYS,
            forall|key: int|
                0 <= key < KEYS ==> numbers(#[trigger] buckets@[key]@) == inp.bucket(key),
            key <= KEYS,
            parts == inp.part_base(key as int),
            nodes == inp.node_base(leaf_size as int, key as int),
            slots == inp.slot_base(leaf_size as int, key as int),
            parts <= key,
            nodes <= key * (16 * (usize::MAX as int) + 8),
            slots <= key * (16 * (usize::MAX as int) + 8),
        decreases KEYS - key,
    {
        let n: usize = buckets[key].len();
        assert(numbers(buckets@[key as int]@).len() == n);
        if n > 0 {
            proof {
                lemma_tree_sizes(leaf_size as int, n as int);
                let w = 16 * (usize::MAX as int) + 8;
                assert((key + 1) * w == key * w + w) by (nonlinear_arith);
                assert(key * w <= 256 * w) by (nonlinear_arith)
                    requires
                        key <= 256,
                        w >= 0,
                ;
            }
            let (a, b) = tree_size(leaf_size, n);
            parts = parts + 1;
            nodes = nodes + a;
            slots = slots + b;
        } else {
            proof {
                let w = 16 * (usize::MAX as int) + 8;
                assert((key + 1) * w == key * w + w) by (nonlinear_arith);
            }
        }
        key += 1;
    }
    (parts, nodes, slots)
}

impl Builder {
    /// Whether every vector has its label.
    pub closed spec fn wf(&self) -> bool {
        self.vectors@.len() == self.labels@.len()
    }

    pub fn new() -> (b: Builder)
        ensures
            b.wf(),
            b@ == (Input { vectors: Seq::empty(), labels: Seq::empty() }),
    {
        Builder { vectors: Vec::new(), labels: Vec::new() }
    }

    /// Takes in one more vector.
    pub fn add(&mut self, v: [i16; STORE_DIM], label: u8)
        requires
            old(self).wf(),
        ensures
            final(self).wf(),
            final(self)@.vectors == old(self)@.vectors.push(v),
            final(self)@.labels == old(self)@.labels.push(label),
    {
        self.vectors.push(v);
        self.labels.push(label);
    }

    /// The bytes of the index file.
    pub fn to_bytes(&self, leaf_size: usize) -> (r: Result<Vec<u8>, BuildError>)
        requires
            self.wf(),
            self@.vectors.len() > 0,
            leaf_size >= 1,
        ensures
            r is Ok <==> in_reach(table_offset(self@, leaf_size as int)),
            match r {
                Ok(out) => table_offset(self@, leaf_size as int) <= u32::MAX && is_index_file(
                    self@,
                    leaf_size as int,
                    out@,
                ),
                Err(BuildError::TooLarge) => table_offset(self@, leaf_size as int) > u32::MAX,
            },
    {
        let ghost inp = self@;
        let ghost leaf = leaf_size as int;
        let buckets = fill_buckets(&self.vectors, Ghost(inp));
        let (parts, nodes, slots) = forest_size(&buckets, leaf_size, Ghost(inp));
        let offset: u128 = 64 + parts * 76 + nodes * 80 + slots / 8 * 232;
        proof {
            lemma_bases(inp, leaf, KEYS as int, KEYS as int);
            assert(offset == table_offset(inp, leaf));
        }
        if offset > u32::MAX as u128 {
            return Err(BuildError::TooLarge);
        }
        let p = plant(&self.vectors, &self.labels, &buckets, leaf_size);
        let ghost f = planted(p.roots@, p.nodes@, p.blocks@);
        proof {
            lemma_enough_slots(inp, leaf);
        }
        let counts = Counts {
            version: KD_PAIR_VERSION,
            n_points: self.vectors.len() as u32,
            part_count: p.roots.len() as u32,
            node_count: p.nodes.len() as u32,
            block_count: (p.blocks.len() / LANES) as u32,
            mcc_table_offset: offset as u32,
        };
        let out = tree_file(&counts, &p);
        proof {
            lemma_tree_file(out@, counts, p.roots@, p.nodes@, p.blocks@);
        }
        Ok(out)
    }
}

/// Where the merchant risk table of a cluster index begins.
pub open spec fn cluster_table_offset(groups: Seq<Seq<int>>) -> int {
    cluster_layout(
        groups.len() as int,
        blocks_before(groups, groups.len() as int),
    ).mcc_table
}

/// Whether a file is the cluster index of groups of vectors.
pub open spec fn is_cluster_file(inp: Input, groups: Seq<Seq<int>>, b: Seq<u8>) -> bool {
    &&& defect(b) is None
    &&& is_clusters(b)
    &&& n_points_of(b) == inp.vectors.len()
    &&& node_count_of(b) == 0
    &&& is_cluster_index(inp, groups, clusters_of(b))
    &&& forall|i: int| 44 <= i < 64 ==> #[trigger] b[i] == 0
    &&& forall|code: int| 0 <= code ==> mcc_entry(b, code) == #[trigger] table_risk(code % 1024)
}

/// The number of blocks that groups take.
fn count_blocks(lists: &Vec<Vec<usize>>) -> (r: u128)
    requires
        lists@.len() <= IVF_CLUSTER_COUNT,
    ensures
        r == blocks_before(groups_of(lists@), lists@.len() as int),
        r <= 4096 * (usize::MAX + 8),
{
    let ghost groups = groups_of(lists@);
    let mut total: u128 = 0;
    let mut c: usize = 0;
    while c < lists.len()
        invariant
            lists@.len() <= IVF_CLUSTER_COUNT,
            groups == groups_of(lists@),
            c <= lists@.len(),
            total == blocks_before(groups, c as int),
            total <= c * (usize::MAX + 8),
        decreases lists@.len() - c,
    {
        let n: usize = lists[c].len();
        assert(groups[c as int].len() == n);
        proof {
            let w = usize::MAX + 8;
            assert((c + 1) * w == c * w + w) by (nonlinear_arith);
            assert(c * w <= 4096 * w) by (nonlinear_arith)
                requires
                    c <= 4096,
                    w >= 0,
            ;
        }
        total = total + (n as u128 + 7) / 8;
        c += 1;
    }
    proof {
        let w = usize::MAX + 8;
        assert(c * w <= 4096 * w) by (nonlinear_arith)
            requires
                c <= 4096,
                w >= 0,
        ;
    }
    total
}

/// Whether no group is empty, and the groups have room for `n` vectors.
spec fn roomy(groups: Seq<Seq<int>>, n: int) -> bool {
    &&& forall|c: int| 0 <= c < groups.len() ==> (#[trigger] groups[c]).len() > 0
    &&& n <= 8 * blocks_before(groups, groups.len() as int)
}

/// Halving a group leaves no group empty, and room enough.
proof fn lemma_step_roomy(vs: Seq<[i16; STORE_DIM]>, a: Seq<Seq<int>>, b: Seq<Seq<int>>, n: int)
    requires
        is_step(vs, a, b),
        roomy(a, n),
    ensures
        roomy(b, n),
{
    let (k, l, r) = choose|k: int, l: Seq<int>, r: Seq<int>| #[trigger]
        is_halving(vs, a[k], l, r) && is_longest(a, k) && a[k].len() > LANES && b == replaced(
            a,
            k,
            l,
            r,
        );
    (l + r).to_multiset_ensures();
    a[k].to_multiset_ensures();
    assert((l + r).len() == a[k].len());
    assert(l.len() + r.len() == a[k].len());
    assert(b[k] == l && b[k + 1] == r);
    assert forall|c: int| 0 <= c < b.len() implies (#[trigger] b[c]).len() > 0 by {
        if c < k {
            assert(b[c] == a[c]);
        } else if c > k + 1 {
            assert(b[c] == a[c - 1]);
        }
    }
    assert forall|c: int| 0 <= c < k implies a[c] == b[c] by {}
    lemma_blocks_prefix(a, b, k);
    assert forall|c: int| k < c < a.len() implies #[trigger] a[c] == b[c + 1] by {}
    lemma_blocks_suffix(a, b, k, a.len() as int);
}

/// Halving again and again leaves no group empty, and room enough.
proof fn lemma_history(vs: Seq<[i16; STORE_DIM]>, h: Seq<Seq<Seq<int>>>, i: int)
    requires
        is_history(vs, h),
        0 <= i < h.len(),
        vs.len() > 0,
    ensures
        roomy(h[i], vs.len() as int),
    decreases i,
{
    if i == 0 {
        assert(h[0].len() == 1 && h[0][0].len() == vs.len());
        assert(blocks_before(h[0], 1) == blocks_before(h[0], 0) + padded(h[0][0].len() as int) / 8);
    } else {
        lemma_history(vs, h, i - 1);
        assert(is_step(vs, h[i - 1], h[i - 1 + 1]));
        lemma_step_roomy(vs, h[i - 1], h[i], vs.len() as int);
    }
}

/// Groups in front of the halved one take the same blocks.
proof fn lemma_blocks_prefix(a: Seq<Seq<int>>, b: Seq<Seq<int>>, k: int)
    requires
        0 <= k <= a.len(),
        k <= b.len(),
        forall|c: int| 0 <= c < k ==> a[c] == b[c],
    ensures
        blocks_before(a, k) == blocks_before(b, k),
    decreases k,
{
    if k > 0 {
        lemma_blocks_prefix(a, b, k - 1);
    }
}

/// Halving a group does not take fewer blocks.
proof fn lemma_blocks_suffix(a: Seq<Seq<int>>, b: Seq<Seq<int>>, k: int, n: int)
    requires
        0 <= k < n <= a.len(),
        b.len() == a.len() + 1,
        blocks_before(a, k) == blocks_before(b, k),
        b[k].len() + b[k + 1].len() == a[k].len(),
        forall|c: int| k < c < a.len() ==> #[trigger] a[c] == b[c + 1],
    ensures
        blocks_before(a, n) <= blocks_before(b, n + 1),
    decreases n,
{
    if n == k + 1 {
        assert(blocks_before(b, n + 1) == blocks_before(b, k + 1) + padded(
            b[k + 1].len() as int,
        ) / 8);
        assert(blocks_before(b, k + 1) == blocks_before(b, k) + padded(b[k].len() as int) / 8);
        assert(blocks_before(a, n) == blocks_before(a, k) + padded(a[k].len() as int) / 8);
    } else {
        lemma_blocks_suffix(a, b, k, n - 1);
        assert(a[n - 1] == b[n]);
    }
}

impl Builder {
    /// The bytes of a cluster index file.
    pub fn to_ivf_bytes(&self) -> (r: Result<Vec<u8>, BuildError>)
        requires
            self.wf(),
            self@.vectors.len() > 0,
        ensures
            match r {
                Ok(out) => exists|groups: Seq<Seq<int>>| #[trigger]
                    is_splitting(self@.vectors, IVF_CLUSTER_COUNT as int, groups) && groups.len()
                        <= IVF_CLUSTER_COUNT && cluster_table_offset(groups) <= u32::MAX && is_cluster_file(
                        self@,
                        groups,
                        out@,
                    ),
                Err(BuildError::TooLarge) => exists|groups: Seq<Seq<int>>| #[trigger]
                    is_splitting(self@.vectors, IVF_CLUSTER_COUNT as int, groups) && groups.len()
                        <= IVF_CLUSTER_COUNT && cluster_table_offset(groups) > u32::MAX,
            },
    {
        let ghost inp = self@;
        let lists = split_ivf_ranges(&self.vectors, IVF_CLUSTER_COUNT);
        let ghost groups = groups_of(lists@);
        let blocks: u128 = count_blocks(&lists);
        let offset: u128 = 64 + lists.len() as u128 * 96 + (lists.len() as u128 + 1) * 4
            + lists.len() as u128 * 4 + blocks * 232;
        assert(offset == cluster_table_offset(groups));
        if offset > u32::MAX as u128 {
            return Err(BuildError::TooLarge);
        }
        proof {
            let h = choose|h: Seq<Seq<Seq<int>>>| #[trigger]
                is_history(inp.vectors, h) && h.last() == groups;
            lemma_history(inp.vectors, h, h.len() - 1);
            assert forall|c: int| 0 <= c < lists@.len() implies 0 < (#[trigger] lists@[c])@.len() by {
                assert(groups[c].len() > 0);
            }
        }
        let x = make_clusters(&self.vectors, &self.labels, &lists);
        assert(x.blocks@.len() == x.stored().slots.len());
        assert(x.centroids@.len() == x.stored().clusters.len());
        let counts = Counts {
            version: IVF_VERSION,
            n_points: self.vectors.len() as u32,
            part_count: lists.len() as u32,
            node_count: 0,
            block_count: (x.blocks.len() / LANES) as u32,
            mcc_table_offset: offset as u32,
        };
        let out = cluster_file(&counts, &x);
        proof {
            lemma_cluster_file(out@, counts, x);
            assert(is_cluster_file(inp, groups, out@));
        }
        Ok(out)
    }
}

/// There are at least as many slots as vectors.
proof fn lemma_enough_slots(inp: Input, leaf: int)
    ensures
        inp.vectors.len() <= inp.slot_base(leaf, KEYS as int),
{
    lemma_slots_upto(inp, leaf, KEYS as int);
    lemma_sizes_add_up(inp, inp.vectors.len() as int);
}

/// The number of vectors among the first `n` with a key below `keys`.
spec fn below(inp: Input, keys: int, n: int) -> int
    decreases keys,
{
    if keys <= 0 {
        0
    } else {
        below(inp, keys - 1, n) + inp.bucket_upto(keys - 1, n).len()
    }
}

proof fn lemma_slots_upto(inp: Input, leaf: int, keys: int)
    requires
        0 <= keys,
    ensures
        below(inp, keys, inp.vectors.len() as int) <= inp.slot_base(leaf, keys),
    decreases keys,
{
    if keys > 0 {
        lemma_slots_upto(inp, leaf, keys - 1);
        lemma_tree_sizes(leaf, inp.bucket(keys - 1).len() as int);
    }
}

proof fn lemma_below_step(inp: Input, keys: int, n: int)
    requires
        0 <= keys,
        0 < n,
    ensures
        below(inp, keys, n) == below(inp, keys, n - 1) + (if 0 <= key_of(
            inp.vectors[n - 1]@,
        ) < keys {
            1int
        } else {
            0int
        }),
    decreases keys,
{
    if keys > 0 {
        lemma_below_step(inp, keys - 1, n);
    }
}

proof fn lemma_sizes_add_up(inp: Input, n: int)
    requires
        0 <= n,
    ensures
        below(inp, KEYS as int, n) == n,
    decreases n,
{
    if n > 0 {
        lemma_sizes_add_up(inp, n - 1);
        lemma_below_step(inp, KEYS as int, n);
    } else {
        lemma_below_none(inp, KEYS as int);
    }
}

proof fn lemma_below_none(inp: Input, keys: int)
    requires
        0 <= keys,
    ensures
        below(inp, keys, 0) == 0,
    decreases keys,
{
    if keys > 0 {
        lemma_below_none(inp, keys - 1);
    }
}

/// The leaf size to use: the wanted one where it is reasonable.
pub open spec fn leaf_size_of(wanted: Option<usize>) -> usize {
    match wanted {
        Some(v) => if LANES <= v <= 1024 {
            v
        } else {
            DEFAULT_LEAF_SIZE
        },
        None => DEFAULT_LEAF_SIZE,
    }
}

/// The leaf size to use: the wanted one where it is reasonable.
pub fn kd_leaf_size(wanted: Option<usize>) -> (r: usize)
    ensures
        r == leaf_size_of(wanted),
        r == (match wanted {
            Some(v) => if LANES <= v <= 1024 {
                v
            } else {
                DEFAULT_LEAF_SIZE
            },
            None => DEFAULT_LEAF_SIZE,
        }),
        r >= 1,
{
    match wanted {
        Some(v) => {
            if v >= LANES && v <= 1024 {
                v
            } else {
                DEFAULT_LEAF_SIZE
            }
        },
        None => DEFAULT_LEAF_SIZE,
    }
}

} // verus!
