//! The index file: a header, then the sections of a tree index or of a cluster index, then the
//! merchant risk table. All numbers are little endian.

use vstd::prelude::*;
use crate::index::model::{Cluster, Clusters, Forest, Node, Part, Slot, LANES};
use crate::{DIM, SCALE, STORE_DIM};

verus! {

/// Label of a legitimate transaction.
pub const LABEL_LEGIT: u8 = 0;

/// Label of a fraudulent transaction.
pub const LABEL_FRAUD: u8 = 1;

/// The first eight bytes of an index file, `DFKNN001`.
pub const MAGIC: [u8; 8] = [0x44, 0x46, 0x4b, 0x4e, 0x4e, 0x30, 0x30, 0x31];

/// Tree index whose blocks store one coordinate of all lanes after the other.
pub const VERSION: u32 = 4;

/// Cluster index.
pub const IVF_VERSION: u32 = 5;

/// Tree index whose blocks store pairs of coordinates.
pub const KD_PAIR_VERSION: u32 = 6;

pub const HEADER_SIZE: usize = 64;

pub const PART_SIZE: usize = 76;

pub const NODE_SIZE: usize = 80;

pub const BLOCK_BYTES: usize = 224;

pub const DIM_PAIRS: usize = 7;

pub const MCC_TABLE_SIZE: usize = 1024;

pub const DEFAULT_LEAF_SIZE: usize = 256;

/// Bytes of a stored vector with all its coordinates.
pub const QV_BYTES: usize = 32;

/// The file header.
#[derive(Clone, Copy, Debug)]
pub struct Header {
    pub magic: [u8; 8],
    pub version: u32,
    pub scale: u32,
    pub dim: u32,
    pub store_dim: u32,
    pub n_points: u32,
    pub part_count: u32,
    pub node_count: u32,
    pub block_count: u32,
    pub mcc_table_offset: u32,
    pub pad: [u8; 20],
}

/// Why a file is not an index.
#[derive(Clone, Copy, Debug, PartialEq, Eq, Structural)]
pub enum IndexError {
    /// Shorter than a header.
    TooSmall,
    /// Wrong first bytes, or a version that is not known.
    BadMagic,
    /// Made for other vectors.
    DimMismatch,
    /// The sections of a tree index do not fill the file.
    SizeMismatch,
    /// The sections of a cluster index do not fill the file.
    IvfSizeMismatch,
}

impl IndexError {
    /// The text that describes the error.
    pub open spec fn text(self) -> &'static str {
        match self {
            IndexError::TooSmall => "index too small",
            IndexError::BadMagic => "bad magic/version",
            IndexError::DimMismatch => "dim/scale mismatch",
            IndexError::SizeMismatch => "index size mismatch",
            IndexError::IvfSizeMismatch => "ivf index size mismatch",
        }
    }

    pub fn message(&self) -> (r: &'static str)
        ensures
            r@ == self.text()@,
    {
        match self {
            IndexError::TooSmall => "index too small",
            IndexError::BadMagic => "bad magic/version",
            IndexError::DimMismatch => "dim/scale mismatch",
            IndexError::SizeMismatch => "index size mismatch",
            IndexError::IvfSizeMismatch => "ivf index size mismatch",
        }
    }
}

/// The unsigned number in two bytes.
pub open spec fn u16_le(b: Seq<u8>, o: int) -> int {
    b[o] + 256 * b[o + 1]
}

/// The signed number in two bytes.
pub open spec fn i16_le(b: Seq<u8>, o: int) -> i16 {
    let u = u16_le(b, o);
    if u < 0x8000 {
        u as i16
    } else {
        (u - 0x1_0000) as i16
    }
}

/// The unsigned number in four bytes.
pub open spec fn u32_le(b: Seq<u8>, o: int) -> u32 {
    (b[o] + 0x100 * b[o + 1] + 0x1_0000 * b[o + 2] + 0x100_0000 * b[o + 3]) as u32
}

/// The signed number in four bytes.
pub open spec fn i32_le(b: Seq<u8>, o: int) -> i32 {
    let u = u32_le(b, o) as int;
    if u < 0x8000_0000 {
        u as i32
    } else {
        (u - 0x1_0000_0000) as i32
    }
}

/// The vector stored at `o`.
pub open spec fn qv_le(b: Seq<u8>, o: int) -> Seq<i16> {
    Seq::new(STORE_DIM as nat, |d: int| i16_le(b, o + 2 * d))
}

pub fn read_u16_at(data: &[u8], off: usize) -> (r: u16)
    requires
        off + 2 <= data.len(),
    ensures
        r == u16_le(data@, off as int),
{
    data[off] as u16 + 256 * (data[off + 1] as u16)
}

pub fn read_i16_at(data: &[u8], off: usize) -> (r: i16)
    requires
        off + 2 <= data.len(),
    ensures
        r == i16_le(data@, off as int),
{
    let u = read_u16_at(data, off);
    if u < 0x8000 {
        u as i16
    } else {
        (u as i32 - 0x1_0000) as i16
    }
}

pub fn read_u32_at(data: &[u8], off: usize) -> (r: u32)
    requires
        off + 4 <= data.len(),
    ensures
        r == u32_le(data@, off as int),
{
    data[off] as u32 + 0x100 * (data[off + 1] as u32) + 0x1_0000 * (data[off + 2] as u32)
        + 0x100_0000 * (data[off + 3] as u32)
}

pub fn read_i32_at(data: &[u8], off: usize) -> (r: i32)
    requires
        off + 4 <= data.len(),
    ensures
        r == i32_le(data@, off as int),
{
    let u = read_u32_at(data, off);
    if u < 0x8000_0000 {
        u as i32
    } else {
        (u as i64 - 0x1_0000_0000) as i32
    }
}

/// Reads a stored vector.
pub fn read_qv(data: &[u8], off: usize) -> (v: [i16; STORE_DIM])
    requires
        off + QV_BYTES <= data.len(),
    ensures
        v@ == qv_le(data@, off as int),
{
    let mut v: [i16; STORE_DIM] = [0i16; STORE_DIM];
    let mut i: usize = 0;
    while i < STORE_DIM
        invariant
            i <= STORE_DIM,
            off + QV_BYTES <= data.len(),
            v@.len() == STORE_DIM,
            forall|d: int| 0 <= d < i ==> v@[d] == i16_le(data@, off + 2 * d),
        decreases STORE_DIM - i,
    {
        v[i] = read_i16_at(data, off + i * 2);
        i += 1;
    }
    assert(v@ =~= qv_le(data@, off as int));
    v
}

/// Where coordinate `d` of lane `lane` stands in a block of coordinate pairs.
pub open spec fn pair_place(d: int, lane: int) -> int {
    (d / 2) * 16 + lane * 2 + d % 2
}

/// Where coordinate `d` of lane `lane` stands in a block, counted in coordinates.
pub open spec fn coord_place(pairs: bool, d: int, lane: int) -> int {
    if pairs {
        pair_place(d, lane)
    } else {
        d * LANES + lane
    }
}

/// Where coordinate `d` of lane `lane` stands in a block of coordinate pairs.
pub fn pair_offset(d: usize, lane: usize) -> (r: usize)
    requires
        pair_place(d as int, lane as int) <= usize::MAX,
    ensures
        r == pair_place(d as int, lane as int),
        d < DIM && lane < LANES ==> r < DIM * LANES,
{
    (d / 2) * LANES * 2 + lane * 2 + d % 2
}

/// The coordinates of a block all have places of their own.
pub proof fn pair_places_are_distinct(d1: int, lane1: int, d2: int, lane2: int)
    requires
        0 <= d1 < DIM,
        0 <= d2 < DIM,
        0 <= lane1 < LANES,
        0 <= lane2 < LANES,
        pair_place(d1, lane1) == pair_place(d2, lane2),
    ensures
        d1 == d2,
        lane1 == lane2,
        0 <= pair_place(d1, lane1) < DIM * LANES,
{
}

/// The sections of a tree index with the given counts.
pub struct TreeLayout {
    pub nodes: int,
    pub vectors: int,
    pub labels: int,
    pub mcc_table: int,
    pub end: int,
}

pub open spec fn tree_layout(part_count: int, node_count: int, block_count: int) -> TreeLayout {
    let nodes = HEADER_SIZE + part_count * PART_SIZE;
    let vectors = nodes + node_count * NODE_SIZE;
    let labels = vectors + block_count * BLOCK_BYTES;
    let mcc_table = labels + block_count * LANES;
    TreeLayout { nodes, vectors, labels, mcc_table, end: mcc_table + MCC_TABLE_SIZE * 2 }
}

/// The sections of a cluster index with the given counts.
pub struct ClusterLayout {
    pub centroids: int,
    pub bbox_min: int,
    pub bbox_max: int,
    pub offsets: int,
    pub counts: int,
    pub vectors: int,
    pub labels: int,
    pub mcc_table: int,
    pub end: int,
}

pub open spec fn cluster_layout(cluster_count: int, block_count: int) -> ClusterLayout {
    let centroids = HEADER_SIZE as int;
    let bbox_min = centroids + cluster_count * QV_BYTES;
    let bbox_max = bbox_min + cluster_count * QV_BYTES;
    let offsets = bbox_max + cluster_count * QV_BYTES;
    let counts = offsets + (cluster_count + 1) * 4;
    let vectors = counts + cluster_count * 4;
    let labels = vectors + block_count * BLOCK_BYTES;
    let mcc_table = labels + block_count * LANES;
    ClusterLayout {
        centroids,
        bbox_min,
        bbox_max,
        offsets,
        counts,
        vectors,
        labels,
        mcc_table,
        end: mcc_table + MCC_TABLE_SIZE * 2,
    }
}

/// The fields of the header of `b`.
pub open spec fn version_of(b: Seq<u8>) -> u32 {
    u32_le(b, 8)
}

pub open spec fn n_points_of(b: Seq<u8>) -> u32 {
    u32_le(b, 24)
}

pub open spec fn part_count_of(b: Seq<u8>) -> u32 {
    u32_le(b, 28)
}

pub open spec fn node_count_of(b: Seq<u8>) -> u32 {
    u32_le(b, 32)
}

pub open spec fn block_count_of(b: Seq<u8>) -> u32 {
    u32_le(b, 36)
}

pub open spec fn mcc_offset_of(b: Seq<u8>) -> u32 {
    u32_le(b, 40)
}

pub open spec fn is_pairs(b: Seq<u8>) -> bool {
    version_of(b) == KD_PAIR_VERSION
}

pub open spec fn is_clusters(b: Seq<u8>) -> bool {
    version_of(b) == IVF_VERSION
}

pub open spec fn tree_layout_of(b: Seq<u8>) -> TreeLayout {
    tree_layout(part_count_of(b) as int, node_count_of(b) as int, block_count_of(b) as int)
}

pub open spec fn cluster_layout_of(b: Seq<u8>) -> ClusterLayout {
    cluster_layout(part_count_of(b) as int, block_count_of(b) as int)
}

/// What is wrong with a file, if anything.
pub open spec fn defect(b: Seq<u8>) -> Option<IndexError> {
    if b.len() < HEADER_SIZE {
        Some(IndexError::TooSmall)
    } else if b.subrange(0, 8) != MAGIC@ || (version_of(b) != VERSION && version_of(b)
        != IVF_VERSION && version_of(b) != KD_PAIR_VERSION) {
        Some(IndexError::BadMagic)
    } else if u32_le(b, 12) != SCALE || u32_le(b, 16) != DIM || u32_le(b, 20) != STORE_DIM {
        Some(IndexError::DimMismatch)
    } else if is_clusters(b) {
        if cluster_layout_of(b).end != b.len() || mcc_offset_of(b) != cluster_layout_of(b).mcc_table {
            Some(IndexError::IvfSizeMismatch)
        } else {
            None
        }
    } else if tree_layout_of(b).end != b.len() || mcc_offset_of(b) != tree_layout_of(b).mcc_table {
        Some(IndexError::SizeMismatch)
    } else {
        None
    }
}

/// Where the merchant risk table stands.
pub open spec fn mcc_table_of(b: Seq<u8>) -> int {
    mcc_offset_of(b) as int
}

/// The quantized risk that an index holds for a merchant code.
pub open spec fn mcc_entry(b: Seq<u8>, code: int) -> i16 {
    i16_le(b, mcc_table_of(b) + 2 * (code % (MCC_TABLE_SIZE as int)))
}

pub open spec fn part_le(b: Seq<u8>, o: int) -> Part {
    Part {
        key: u32_le(b, o),
        root: i32_le(b, o + 4),
        len: i32_le(b, o + 8),
        min: qv_le(b, o + 12),
        max: qv_le(b, o + 44),
    }
}

pub open spec fn node_le(b: Seq<u8>, o: int) -> Node {
    Node {
        left: i32_le(b, o),
        right: i32_le(b, o + 4),
        start: i32_le(b, o + 8),
        len: i32_le(b, o + 12),
        min: qv_le(b, o + 16),
        max: qv_le(b, o + 48),
    }
}

/// Slot `s` of the blocks at `vectors` and labels at `labels`.
pub open spec fn slot_le(b: Seq<u8>, vectors: int, labels: int, pairs: bool, s: int) -> Slot {
    Slot {
        vec: Seq::new(
            DIM as nat,
            |d: int|
                i16_le(
                    b,
                    vectors + (s / LANES as int) * BLOCK_BYTES + 2 * coord_place(
                        pairs,
                        d,
                        s % LANES as int,
                    ),
                ),
        ),
        label: b[labels + s],
    }
}

/// The tree index that a file holds.
pub open spec fn forest_of(b: Seq<u8>) -> Forest {
    let at = tree_layout_of(b);
    Forest {
        parts: Seq::new(part_count_of(b) as nat, |i: int| part_le(b, HEADER_SIZE + i * PART_SIZE)),
        nodes: Seq::new(node_count_of(b) as nat, |i: int| node_le(b, at.nodes + i * NODE_SIZE)),
        slots: Seq::new(
            (block_count_of(b) * LANES) as nat,
            |s: int| slot_le(b, at.vectors, at.labels, is_pairs(b), s),
        ),
    }
}

pub open spec fn cluster_le(b: Seq<u8>, at: ClusterLayout, c: int) -> Cluster {
    Cluster {
        centroid: qv_le(b, at.centroids + c * QV_BYTES),
        min: qv_le(b, at.bbox_min + c * QV_BYTES),
        max: qv_le(b, at.bbox_max + c * QV_BYTES),
        first: u32_le(b, at.offsets + c * 4),
        end: u32_le(b, at.offsets + (c + 1) * 4),
        count: u32_le(b, at.counts + c * 4),
    }
}

/// The cluster index that a file holds.
pub open spec fn clusters_of(b: Seq<u8>) -> Clusters {
    let at = cluster_layout_of(b);
    Clusters {
        clusters: Seq::new(part_count_of(b) as nat, |c: int| cluster_le(b, at, c)),
        slots: Seq::new(
            (block_count_of(b) * LANES) as nat,
            |s: int| slot_le(b, at.vectors, at.labels, true, s),
        ),
    }
}

/// The next multiple of `align`.
pub fn align_to(v: u64, align: u64) -> (r: u64)
    requires
        align > 0,
        v + align <= u64::MAX,
    ensures
        v <= r < v + align,
        r % align == 0,
{
    proof {
        let q = (v + align - 1) / align as int;
        vstd::arithmetic::div_mod::lemma_fundamental_div_mod((v + align - 1) as int, align as int);
        vstd::arithmetic::mul::lemma_mul_is_commutative(q, align as int);
        vstd::arithmetic::div_mod::lemma_mod_multiples_basic(q, align as int);
        vstd::arithmetic::div_mod::lemma_mod_bound((v + align - 1) as int, align as int);
    }
    (v + align - 1) / align * align
}

} // verus!
