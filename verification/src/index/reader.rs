//! Reading an index out of the bytes of its file.

use vstd::prelude::*;
use crate::index::distance::{dist_upto, distance, gap, lemma_dist_bound, lower_bound_vec};
use crate::index::format::{
    align_to, block_count_of, cluster_layout, cluster_layout_of, clusters_of, coord_place, defect,
    forest_of, i16_le, is_clusters, is_pairs, mcc_entry, mcc_offset_of, mcc_table_of, n_points_of,
    node_count_of, pair_offset, part_count_of, read_i16_at, read_i32_at, read_qv, read_u32_at,
    tree_layout_of, u32_le, version_of, Header, IndexError, BLOCK_BYTES, HEADER_SIZE, IVF_VERSION,
    KD_PAIR_VERSION, LABEL_FRAUD, LABEL_LEGIT, MAGIC, NODE_SIZE, PART_SIZE, QV_BYTES, VERSION,
};
use crate::index::model::{
    has_label, kinds_of, label_mask, lemma_mask_append, Clusters, Forest, Slot, LANES,
};
use crate::{DIM, SCALE, STORE_DIM};

verus! {

/// An index over the bytes of its file.
pub struct IndexReader<'a> {
    data: &'a [u8],
    header: Header,
    nodes_off: usize,
    vectors_off: usize,
    labels_off: usize,
    mcc_table_off: usize,
    ivf_min_off: usize,
    ivf_max_off: usize,
    ivf_offsets_off: usize,
    ivf_counts_off: usize,
    part_by_key: Vec<i64>,
    kinds: Vec<u8>,
    ready: bool,
    wide: bool,
}

/// Whether the sections of a file can be searched: its trees, or its clusters, stay within the
/// stored slots.
pub open spec fn is_searchable(b: Seq<u8>) -> bool {
    if is_clusters(b) {
        clusters_of(b).wf()
    } else {
        forest_of(b).wf()
    }
}

/// The sections of a cluster index.
#[derive(Clone, Copy)]
pub struct IvfOffsets {
    pub centroids: u64,
    pub bbox_min: u64,
    pub bbox_max: u64,
    pub offsets: u64,
    pub counts: u64,
    pub vectors: u64,
    pub labels: u64,
    pub mcc_table: u64,
    pub end: u64,
}

/// The boxes of clusters end where numbers may begin.
proof fn lemma_aligned(n: int, end: int, next: int)
    requires
        end == 64 + 96 * n,
        end <= next < end + 4,
        next % 4 == 0,
    ensures
        next == end,
{
    let k = next / 4;
    vstd::arithmetic::div_mod::lemma_fundamental_div_mod(next, 4);
    assert(next == 4 * k);
    assert(k == 16 + 24 * n);
}

/// The numbers of clusters end where vectors may begin.
proof fn lemma_even(n: int, end: int, next: int)
    requires
        end == 68 + 104 * n,
        end <= next < end + 2,
        next % 2 == 0,
    ensures
        next == end,
{
    let k = next / 2;
    vstd::arithmetic::div_mod::lemma_fundamental_div_mod(next, 2);
    assert(next == 2 * k);
    assert(k == 34 + 52 * n);
}

/// Where the sections of a cluster index stand.
pub fn ivf_offsets(cluster_count: u32, block_count: u32) -> (r: IvfOffsets)
    ensures
        ({
            let at = cluster_layout(cluster_count as int, block_count as int);
            &&& r.centroids == at.centroids
            &&& r.bbox_min == at.bbox_min
            &&& r.bbox_max == at.bbox_max
            &&& r.offsets == at.offsets
            &&& r.counts == at.counts
            &&& r.vectors == at.vectors
            &&& r.labels == at.labels
            &&& r.mcc_table == at.mcc_table
            &&& r.end == at.end
        }),
{
    let clusters: u64 = cluster_count as u64;
    let blocks: u64 = block_count as u64;
    let centroids: u64 = 64;
    let bbox_min: u64 = centroids + clusters * 32;
    let bbox_max: u64 = bbox_min + clusters * 32;
    let boxes_end: u64 = bbox_max + clusters * 32;
    let offsets: u64 = align_to(boxes_end, 4);
    proof {
        lemma_aligned(clusters as int, boxes_end as int, offsets as int);
    }
    let counts: u64 = offsets + (clusters + 1) * 4;
    let counts_end: u64 = counts + clusters * 4;
    let vectors: u64 = align_to(counts_end, 2);
    proof {
        lemma_even(clusters as int, counts_end as int, vectors as int);
    }
    let labels: u64 = vectors + blocks * 224;
    let mcc_table: u64 = labels + blocks * 8;
    let end: u64 = mcc_table + 2048;
    IvfOffsets {
        centroids,
        bbox_min,
        bbox_max,
        offsets,
        counts,
        vectors,
        labels,
        mcc_table,
        end,
    }
}

/// Whether the first bytes are those of an index file.
fn same_magic(magic: &[u8; 8]) -> (r: bool)
    ensures
        r == (magic@ == MAGIC@),
{
    let mut i: usize = 0;
    while i < 8
        invariant
            i <= 8,
            forall|j: int| 0 <= j < i ==> magic@[j] == MAGIC@[j],
        decreases 8 - i,
    {
        if magic[i] != MAGIC[i] {
            return false;
        }
        i += 1;
    }
    assert(magic@ =~= MAGIC@);
    true
}

/// Reads the header.
fn read_header(data: &[u8]) -> (h: Header)
    requires
        data.len() >= HEADER_SIZE,
    ensures
        h.magic@ == data@.subrange(0, 8),
        h.version == version_of(data@),
        h.scale == u32_le(data@, 12),
        h.dim == u32_le(data@, 16),
        h.store_dim == u32_le(data@, 20),
        h.n_points == n_points_of(data@),
        h.part_count == part_count_of(data@),
        h.node_count == node_count_of(data@),
        h.block_count == block_count_of(data@),
        h.mcc_table_offset == mcc_offset_of(data@),
        h.pad@ == data@.subrange(44, 64),
{
    let mut magic: [u8; 8] = [0u8; 8];
    let mut pad: [u8; 20] = [0u8; 20];
    let mut i: usize = 0;
    while i < 8
        invariant
            i <= 8,
            data.len() >= HEADER_SIZE,
            magic@.len() == 8,
            forall|j: int| 0 <= j < i ==> magic@[j] == data@[j],
        decreases 8 - i,
    {
        magic[i] = data[i];
        i += 1;
    }
    let mut i: usize = 0;
    while i < 20
        invariant
            i <= 20,
            data.len() >= HEADER_SIZE,
            pad@.len() == 20,
            forall|j: int| 0 <= j < i ==> pad@[j] == data@[44 + j],
        decreases 20 - i,
    {
        pad[i] = data[44 + i];
        i += 1;
    }
    assert(magic@ =~= data@.subrange(0, 8));
    assert(pad@ =~= data@.subrange(44, 64));
    Header {
        magic,
        version: read_u32_at(data, 8),
        scale: read_u32_at(data, 12),
        dim: read_u32_at(data, 16),
        store_dim: read_u32_at(data, 20),
        n_points: read_u32_at(data, 24),
        part_count: read_u32_at(data, 28),
        node_count: read_u32_at(data, 32),
        block_count: read_u32_at(data, 36),
        mcc_table_offset: read_u32_at(data, 40),
        pad,
    }
}

impl<'a> IndexReader<'a> {
    /// The bytes of the file.
    pub closed spec fn bytes(&self) -> Seq<u8> {
        self.data@
    }

    /// Whether the processor has the wide kernels, with which cluster searches look further.
    pub closed spec fn is_wide(&self) -> bool {
        self.wide
    }

    /// The tree index in the file.
    pub open spec fn forest(&self) -> Forest {
        forest_of(self.bytes())
    }

    /// The cluster index in the file.
    pub open spec fn clusters(&self) -> Clusters {
        clusters_of(self.bytes())
    }

    /// Whether the sections have been found.
    spec fn framed(&self) -> bool {
        let b = self.data@;
        &&& defect(b) is None
        &&& self.header.version == version_of(b)
        &&& self.header.n_points == n_points_of(b)
        &&& self.header.part_count == part_count_of(b)
        &&& self.header.node_count == node_count_of(b)
        &&& self.header.block_count == block_count_of(b)
        &&& self.mcc_table_off == mcc_offset_of(b)
        &&& if is_clusters(b) {
            let at = cluster_layout_of(b);
            &&& self.vectors_off == at.vectors
            &&& self.labels_off == at.labels
            &&& self.ivf_min_off == at.bbox_min
            &&& self.ivf_max_off == at.bbox_max
            &&& self.ivf_offsets_off == at.offsets
            &&& self.ivf_counts_off == at.counts
        } else {
            let at = tree_layout_of(b);
            &&& self.nodes_off == at.nodes
            &&& self.vectors_off == at.vectors
            &&& self.labels_off == at.labels
        }
    }

    /// Whether the reader is complete.
    pub closed spec fn wf(&self) -> bool {
        &&& self.framed()
        &&& self.ready == is_searchable(self.data@)
        &&& !is_clusters(self.data@) ==> {
            &&& self.part_by_key@.len() == 256
            &&& forall|key: int|
                0 <= key < 256 ==> #[trigger] self.part_by_key@[key] == self.forest().home(key)
        }
        &&& !is_clusters(self.data@) && self.ready ==> self.kinds@ == kinds_of(self.forest())
    }

    /// Opens an index over the bytes of its file. `wide` tells whether the processor has the wide
    /// kernels.
    pub fn from_bytes(data: &'a [u8], wide: bool) -> (r: Result<IndexReader<'a>, IndexError>)
        ensures
            match r {
                Ok(x) => defect(data@) is None && x.wf() && x.bytes() == data@ && x.is_wide() == wide,
                Err(e) => defect(data@) == Some(e),
            },
    {
        let len: u64 = data.len() as u64;
        if data.len() < HEADER_SIZE {
            return Err(IndexError::TooSmall);
        }
        let header = read_header(data);
        assert(data@.subrange(0, 8) == MAGIC@ <==> header.magic@ == MAGIC@);
        if !same_magic(&header.magic) || (header.version != VERSION && header.version != IVF_VERSION
            && header.version != KD_PAIR_VERSION) {
            return Err(IndexError::BadMagic);
        }
        if header.scale != SCALE as u32 || header.dim != DIM as u32 || header.store_dim
            != STORE_DIM as u32 {
            return Err(IndexError::DimMismatch);
        }
        let mut idx = IndexReader {
            data,
            header,
            nodes_off: 0,
            vectors_off: 0,
            labels_off: 0,
            mcc_table_off: 0,
            ivf_min_off: 0,
            ivf_max_off: 0,
            ivf_offsets_off: 0,
            ivf_counts_off: 0,
            part_by_key: Vec::new(),
            kinds: Vec::new(),
            ready: false,
            wide,
        };
        if header.version == IVF_VERSION {
            let at = ivf_offsets(header.part_count, header.block_count);
            if at.end != len || header.mcc_table_offset as u64 != at.mcc_table {
                return Err(IndexError::IvfSizeMismatch);
            }
            idx.vectors_off = at.vectors as usize;
            idx.labels_off = at.labels as usize;
            idx.mcc_table_off = at.mcc_table as usize;
            idx.ivf_min_off = at.bbox_min as usize;
            idx.ivf_max_off = at.bbox_max as usize;
            idx.ivf_offsets_off = at.offsets as usize;
            idx.ivf_counts_off = at.counts as usize;
            assert(idx.framed());
            idx.ready = idx.check_clusters();
        } else {
            let nodes_off: u64 = 64 + header.part_count as u64 * 76;
            let vectors_off: u64 = nodes_off + header.node_count as u64 * 80;
            let labels_off: u64 = vectors_off + header.block_count as u64 * 224;
            let mcc_table_off: u64 = labels_off + header.block_count as u64 * 8;
            let end: u64 = mcc_table_off + 2048;
            if end != len || header.mcc_table_offset as u64 != mcc_table_off {
                return Err(IndexError::SizeMismatch);
            }
            idx.nodes_off = nodes_off as usize;
            idx.vectors_off = vectors_off as usize;
            idx.labels_off = labels_off as usize;
            idx.mcc_table_off = mcc_table_off as usize;
            assert(idx.framed());
            idx.part_by_key = idx.scan_keys();
            idx.ready = idx.check_nodes();
            if idx.ready {
                idx.kinds = idx.scan_kinds();
            }
        }
        Ok(idx)
    }

    fn part_offset(&self, p: usize) -> (r: usize)
        requires
            self.framed(),
            !is_clusters(self.data@),
            p < part_count_of(self.data@),
        ensures
            r == HEADER_SIZE + p * PART_SIZE,
            r + PART_SIZE <= self.data.len(),
    {
        HEADER_SIZE + p * PART_SIZE
    }

    fn node_offset(&self, i: usize) -> (r: usize)
        requires
            self.framed(),
            !is_clusters(self.data@),
            i < node_count_of(self.data@),
        ensures
            r == self.nodes_off + i * NODE_SIZE,
            r + NODE_SIZE <= self.data.len(),
    {
        self.nodes_off + i * NODE_SIZE
    }

    /// The partition that each key leads to.
    fn scan_keys(&self) -> (r: Vec<i64>)
        requires
            self.framed(),
            !is_clusters(self.data@),
        ensures
            r@.len() == 256,
            forall|key: int|
                0 <= key < 256 ==> #[trigger] r@[key] == forest_of(self.data@).home(key),
    {
        let ghost f = forest_of(self.data@);
        let mut out: Vec<i64> = vec![-1i64; 256];
        let count: usize = self.header.part_count as usize;
        let mut p: usize = 0;
        while p < count
            invariant
                self.framed(),
                !is_clusters(self.data@),
                f == forest_of(self.data@),
                count == part_count_of(self.data@),
                p <= count,
                out@.len() == 256,
                forall|key: int|
                    0 <= key < 256 ==> #[trigger] out@[key] == f.home_before(key, p as int),
            decreases count - p,
        {
            let key: u32 = read_u32_at(self.data, self.part_offset(p));
            assert(key == f.parts[p as int].key);
            if key < 256 {
                out[key as usize] = p as i64;
            }
            p += 1;
        }
        out
    }

    /// The slots that the file stores.
    pub open spec fn slots(&self) -> Seq<Slot> {
        if is_clusters(self.bytes()) {
            self.clusters().slots
        } else {
            self.forest().slots
        }
    }

    fn label_of(&self, s: usize) -> (r: u8)
        requires
            self.framed(),
            s < self.slots().len(),
        ensures
            r == self.slots()[s as int].label,
    {
        self.data[self.labels_off + s]
    }

    /// Squared distance between a query and a stored vector.
    fn distance_of(&self, s: usize, q: &[i16; STORE_DIM]) -> (r: i64)
        requires
            self.framed(),
            s < self.slots().len(),
        ensures
            r == distance(self.slots()[s as int].vec, q@),
    {
        let ghost v = self.slots()[s as int].vec;
        let block: usize = s / LANES;
        let lane: usize = s % LANES;
        let base: usize = self.vectors_off + block * BLOCK_BYTES;
        let pairs: bool = self.header.version != VERSION;
        let mut acc: i64 = 0;
        let mut d: usize = 0;
        assert(pairs == (is_clusters(self.data@) || is_pairs(self.data@)));
        while d < DIM
            invariant
                d <= DIM,
                lane < LANES,
                base + BLOCK_BYTES <= self.data.len(),
                v.len() == DIM,
                forall|k: int|
                    0 <= k < DIM ==> #[trigger] v[k] == i16_le(
                        self.data@,
                        base + 2 * coord_place(pairs, k, lane as int),
                    ),
                acc == dist_upto(v, q@, d as int),
            decreases DIM - d,
        {
            let place: usize = if pairs {
                pair_offset(d, lane)
            } else {
                d * LANES + lane
            };
            let x: i16 = read_i16_at(self.data, base + place * 2);
            let diff: i64 = x as i64 - q[d] as i64;
            proof {
                lemma_dist_bound(v, q@, d as int);
                lemma_dist_bound(v, q@, d + 1);
                assert(-65_535 <= diff <= 65_535);
                assert(0 <= diff * diff <= 4_294_836_225) by (nonlinear_arith)
                    requires
                        -65_535 <= diff <= 65_535,
                ;
            }
            acc += diff * diff;
            d += 1;
        }
        acc
    }

    fn node_numbers(&self, i: usize) -> (r: (i32, i32, i32, i32))
        requires
            self.framed(),
            !is_clusters(self.data@),
            i < node_count_of(self.data@),
        ensures
            r.0 == self.forest().nodes[i as int].left,
            r.1 == self.forest().nodes[i as int].right,
            r.2 == self.forest().nodes[i as int].start,
            r.3 == self.forest().nodes[i as int].len,
    {
        let off = self.node_offset(i);
        let left: i32 = read_i32_at(self.data, off);
        let right: i32 = read_i32_at(self.data, off + 4);
        let start: i32 = read_i32_at(self.data, off + 8);
        let len: i32 = read_i32_at(self.data, off + 12);
        (left, right, start, len)
    }

    /// Whether the labels of `len` slots from `first` on are known ones.
    fn labels_known(&self, first: usize, len: usize) -> (r: bool)
        requires
            self.framed(),
            first + len <= self.slots().len(),
        ensures
            r == (forall|s: int|
                first <= s < first + len ==> (#[trigger] self.slots()[s]).label <= 1),
    {
        let mut k: usize = 0;
        while k < len
            invariant
                self.framed(),
                first + len <= self.slots().len(),
                k <= len,
                self.slots().len() <= self.data.len(),
                forall|s: int| first <= s < first + k ==> (#[trigger] self.slots()[s]).label <= 1,
            decreases len - k,
        {
            if self.label_of(first + k) > 1 {
                assert(self.slots()[first + k].label > 1);
                return false;
            }
            k += 1;
        }
        true
    }

    /// Whether a node stays within the nodes and the slots.
    fn check_node(&self, i: usize) -> (r: bool)
        requires
            self.framed(),
            !is_clusters(self.data@),
            i < node_count_of(self.data@),
        ensures
            r == self.forest().node_ok(i as int),
    {
        let ghost f = self.forest();
        let count: u64 = self.header.node_count as u64;
        let slots: u64 = self.header.block_count as u64 * 8;
        assert(slots == f.slots.len());
        assert(count == f.nodes.len());
        let (left, right, start, len) = self.node_numbers(i);
        if left < 0 {
            if start < 0 || len < 0 || start as u64 * 8 + len as u64 > slots {
                return false;
            }
            let ghost n = f.nodes[i as int];
            assert(n.first() == start * 8 && n.first() + n.len <= f.slots.len());
            let known = self.labels_known(start as usize * LANES, len as usize);
            assert(known == (forall|s: int|
                n.first() <= s < n.first() + n.len ==> (#[trigger] f.slots[s]).label <= 1));
            known
        } else {
            left as u64 > i as u64 && (left as u64) < count && right as i64 > i as i64 && (
            right as i64) < count as i64
        }
    }

    /// Whether the trees stay within the nodes and the slots.
    fn check_nodes(&self) -> (r: bool)
        requires
            self.framed(),
            !is_clusters(self.data@),
        ensures
            r == self.forest().wf(),
    {
        let count: usize = self.header.node_count as usize;
        let mut i: usize = 0;
        while i < count
            invariant
                self.framed(),
                !is_clusters(self.data@),
                count == node_count_of(self.data@),
                i <= count,
                forall|j: int| 0 <= j < i ==> #[trigger] self.forest().node_ok(j),
            decreases count - i,
        {
            if !self.check_node(i) {
                return false;
            }
            i += 1;
        }
        true
    }

    /// The labels of `len` slots from `first` on, as a mask.
    fn mask_of(&self, first: usize, len: usize) -> (r: u8)
        requires
            self.framed(),
            first + len <= self.slots().len(),
        ensures
            r == label_mask(self.slots().subrange(first as int, first + len)),
    {
        let ghost pts = self.slots().subrange(first as int, first + len);
        let mut legit = false;
        let mut fraud = false;
        let mut k: usize = 0;
        while k < len
            invariant
                self.framed(),
                first + len <= self.slots().len(),
                self.slots().len() <= self.data.len(),
                k <= len,
                pts == self.slots().subrange(first as int, first + len),
                legit == has_label(pts.take(k as int), 0),
                fraud == has_label(pts.take(k as int), 1),
            decreases len - k,
        {
            let label = self.label_of(first + k);
            proof {
                let before = pts.take(k as int);
                let after = pts.take(k + 1);
                assert(after =~= before.push(pts[k as int]));
                assert forall|l: u8|
                    has_label(after, l) == (has_label(before, l) || label == l) by {
                    if has_label(before, l) {
                        let j = choose|j: int|
                            0 <= j < before.len() && (#[trigger] before[j]).label == l;
                        assert(after[j].label == l);
                    }
                    if label == l {
                        assert(after[k as int].label == l);
                    }
                    if has_label(after, l) {
                        let j = choose|j: int|
                            0 <= j < after.len() && (#[trigger] after[j]).label == l;
                        if j < k {
                            assert(before[j].label == l);
                        }
                    }
                }
            }
            if label == LABEL_LEGIT {
                legit = true;
            }
            if label == LABEL_FRAUD {
                fraud = true;
            }
            k += 1;
        }
        assert(pts.take(len as int) =~= pts);
        if legit {
            if fraud {
                3
            } else {
                1
            }
        } else if fraud {
            2
        } else {
            0
        }
    }

    /// The labels below each node.
    fn scan_kinds(&self) -> (r: Vec<u8>)
        requires
            self.framed(),
            !is_clusters(self.data@),
            self.forest().wf(),
        ensures
            r@ == kinds_of(self.forest()),
    {
        let ghost f = self.forest();
        let count: usize = self.header.node_count as usize;
        let mut out: Vec<u8> = vec![0u8; count];
        let mut i: usize = count;
        while i > 0
            invariant
                self.framed(),
                !is_clusters(self.data@),
                f == self.forest(),
                f.wf(),
                count == f.nodes.len(),
                i <= count,
                out@.len() == count,
                forall|j: int| i <= j < count ==> #[trigger] out@[j] == label_mask(f.points(j)),
            decreases i,
        {
            i -= 1;
            let (left, right, start, len) = self.node_numbers(i);
            assert(f.node_ok(i as int));
            if left < 0 {
                out[i] = self.mask_of(start as usize * LANES, len as usize);
            } else {
                let l: u8 = out[left as usize];
                let r: u8 = out[right as usize];
                proof {
                    lemma_mask_append(f.points(left as int), f.points(right as int));
                }
                out[i] = l | r;
            }
        }
        assert(out@ =~= kinds_of(f));
        out
    }

    fn cluster_numbers(&self, c: usize) -> (r: (u32, u32, u32))
        requires
            self.framed(),
            is_clusters(self.data@),
            c < part_count_of(self.data@),
        ensures
            r.0 == self.clusters().clusters[c as int].first,
            r.1 == self.clusters().clusters[c as int].end,
            r.2 == self.clusters().clusters[c as int].count,
    {
        let first: u32 = read_u32_at(self.data, self.ivf_offsets_off + c * 4);
        let end: u32 = read_u32_at(self.data, self.ivf_offsets_off + (c + 1) * 4);
        let count: u32 = read_u32_at(self.data, self.ivf_counts_off + c * 4);
        (first, end, count)
    }

    /// Whether a cluster stays within the slots.
    fn check_cluster(&self, c: usize) -> (r: bool)
        requires
            self.framed(),
            is_clusters(self.data@),
            c < part_count_of(self.data@),
        ensures
            r == self.clusters().cluster_ok(c as int),
    {
        let ghost x = self.clusters();
        assert(x.slots.len() == self.header.block_count * 8);
        let (first, end, count) = self.cluster_numbers(c);
        if first > end || end > self.header.block_count {
            return false;
        }
        if first < end && (end as u64 - first as u64 - 1) * 8 > count as u64 {
            return false;
        }
        let room: usize = (end - first) as usize * LANES;
        let size: usize = if count as u64 <= room as u64 {
            count as usize
        } else {
            room
        };
        self.labels_known(first as usize * LANES, size)
    }

    /// Whether the clusters stay within the slots.
    fn check_clusters(&self) -> (r: bool)
        requires
            self.framed(),
            is_clusters(self.data@),
        ensures
            r == self.clusters().wf(),
    {
        let total: usize = self.header.part_count as usize;
        let mut c: usize = 0;
        while c < total
            invariant
                self.framed(),
                is_clusters(self.data@),
                total == part_count_of(self.data@),
                c <= total,
                forall|j: int| 0 <= j < c ==> #[trigger] self.clusters().cluster_ok(j),
            decreases total - c,
        {
            if !self.check_cluster(c) {
                return false;
            }
            c += 1;
        }
        true
    }

    /// Whether the trees or clusters stay within the file, so that searches may follow them.
    pub fn is_searchable(&self) -> (r: bool)
        requires
            self.wf(),
        ensures
            r == is_searchable(self.bytes()),
    {
        self.ready
    }

    pub fn n_points(&self) -> (r: u32)
        requires
            self.wf(),
        ensures
            r == n_points_of(self.bytes()),
    {
        self.header.n_points
    }

    pub fn part_count(&self) -> (r: u32)
        requires
            self.wf(),
        ensures
            r == part_count_of(self.bytes()),
            r == self.forest().parts.len(),
            r == self.clusters().clusters.len(),
            r < 0x800_0000,
    {
        self.header.part_count
    }

    pub fn node_count(&self) -> (r: u32)
        requires
            self.wf(),
        ensures
            r == node_count_of(self.bytes()),
            r == self.forest().nodes.len(),
    {
        self.header.node_count
    }

    pub fn block_count(&self) -> (r: u32)
        requires
            self.wf(),
        ensures
            r == block_count_of(self.bytes()),
            r * LANES == self.forest().slots.len(),
            r * LANES == self.clusters().slots.len(),
            r < 0x200_0000,
    {
        self.header.block_count
    }

    /// The quantized risk of a merchant code.
    pub fn mcc_risk(&self, mcc: u32) -> (r: i16)
        requires
            self.wf(),
        ensures
            r == mcc_entry(self.bytes(), mcc as int),
    {
        assert(self.mcc_table_off + 2048 == self.data.len());
        let idx: usize = mcc as usize % 1024;
        let off: usize = self.mcc_table_off + idx * 2;
        assert(off == mcc_table_of(self.data@) + 2 * (mcc as int % 1024));
        read_i16_at(self.data, off)
    }

    /// Where the vectors begin: from there on a search reads most.
    pub fn vectors_offset(&self) -> (r: usize)
        requires
            self.wf(),
        ensures
            r == (if is_clusters(self.bytes()) {
                cluster_layout_of(self.bytes()).vectors
            } else {
                tree_layout_of(self.bytes()).vectors
            }),
            r <= self.bytes().len(),
    {
        self.vectors_off
    }

    /// Whether the processor has the wide kernels, with which cluster searches look further.
    pub fn wide(&self) -> (r: bool)
        ensures
            r == self.is_wide(),
    {
        self.wide
    }

    /// Whether the file holds a tree index of coordinate pairs.
    pub fn is_kd_pair(&self) -> (r: bool)
        requires
            self.wf(),
        ensures
            r == is_pairs(self.bytes()),
    {
        self.header.version == KD_PAIR_VERSION
    }

    /// Whether the file holds a cluster index.
    pub fn is_ivf(&self) -> (r: bool)
        requires
            self.wf(),
        ensures
            r == is_clusters(self.bytes()),
    {
        self.header.version == IVF_VERSION
    }

    /// The partition that the low byte of a key leads to, or `-1`.
    pub fn part_by_key(&self, key: u32) -> (r: i64)
        requires
            self.wf(),
            !is_clusters(self.bytes()),
        ensures
            r == self.forest().home(key as int % 256),
    {
        self.part_by_key[(key % 256) as usize]
    }

    /// The root of a partition and the number of its vectors.
    pub fn read_partition_meta(&self, p: usize) -> (r: (i32, i32))
        requires
            self.wf(),
            !is_clusters(self.bytes()),
            p < self.forest().parts.len(),
        ensures
            r.0 == self.forest().parts[p as int].root,
            r.1 == self.forest().parts[p as int].len,
    {
        let off = self.part_offset(p);
        let root: i32 = read_i32_at(self.data, off + 4);
        let len: i32 = read_i32_at(self.data, off + 8);
        (root, len)
    }

    /// The children of a node, the place of its slots, and how many there are.
    pub fn read_node_meta(&self, i: usize) -> (r: (i32, i32, i32, i32))
        requires
            self.wf(),
            !is_clusters(self.bytes()),
            i < self.forest().nodes.len(),
        ensures
            r.0 == self.forest().nodes[i as int].left,
            r.1 == self.forest().nodes[i as int].right,
            r.2 == self.forest().nodes[i as int].start,
            r.3 == self.forest().nodes[i as int].len,
    {
        self.node_numbers(i)
    }

    /// The labels below a node.
    pub fn kinds(&self, i: usize) -> (r: u8)
        requires
            self.wf(),
            !is_clusters(self.bytes()),
            is_searchable(self.bytes()),
            i < self.forest().nodes.len(),
        ensures
            r == label_mask(self.forest().points(i as int)),
    {
        self.kinds[i]
    }

    /// Squared gap between a query and the box of a partition.
    pub fn lower_bound_partition(&self, p: usize, q: &[i16; STORE_DIM]) -> (r: i64)
        requires
            self.wf(),
            !is_clusters(self.bytes()),
            p < self.forest().parts.len(),
        ensures
            r == gap(q@, self.forest().parts[p as int].min, self.forest().parts[p as int].max),
    {
        let off = self.part_offset(p);
        let min = read_qv(self.data, off + 12);
        let max = read_qv(self.data, off + 44);
        lower_bound_vec(q, &min, &max)
    }

    /// Squared gap between a query and the box of a node.
    pub fn lower_bound_node(&self, i: usize, q: &[i16; STORE_DIM]) -> (r: i64)
        requires
            self.wf(),
            !is_clusters(self.bytes()),
            i < self.forest().nodes.len(),
        ensures
            r == gap(q@, self.forest().nodes[i as int].min, self.forest().nodes[i as int].max),
    {
        let off = self.node_offset(i);
        let min = read_qv(self.data, off + 16);
        let max = read_qv(self.data, off + 48);
        lower_bound_vec(q, &min, &max)
    }

    /// The label of a slot.
    pub fn slot_label(&self, s: usize) -> (r: u8)
        requires
            self.wf(),
            s < self.slots().len(),
        ensures
            r == self.slots()[s as int].label,
    {
        self.label_of(s)
    }

    /// Squared distance between a query and the vector of a slot.
    pub fn slot_distance(&self, s: usize, q: &[i16; STORE_DIM]) -> (r: i64)
        requires
            self.wf(),
            s < self.slots().len(),
        ensures
            r == distance(self.slots()[s as int].vec, q@),
    {
        self.distance_of(s, q)
    }

    /// The first block of a cluster. One more than the last cluster gives the end of the blocks.
    pub fn ivf_offset(&self, c: usize) -> (r: u32)
        requires
            self.wf(),
            is_clusters(self.bytes()),
            c <= self.clusters().clusters.len(),
        ensures
            c < self.clusters().clusters.len() ==> r == self.clusters().clusters[c as int].first,
            c > 0 ==> r == self.clusters().clusters[c - 1].end,
    {
        read_u32_at(self.data, self.ivf_offsets_off + c * 4)
    }

    /// The number of vectors in a cluster.
    pub fn ivf_count(&self, c: usize) -> (r: u32)
        requires
            self.wf(),
            is_clusters(self.bytes()),
            c < self.clusters().clusters.len(),
        ensures
            r == self.clusters().clusters[c as int].count,
    {
        read_u32_at(self.data, self.ivf_counts_off + c * 4)
    }

    /// The centre of a cluster.
    pub fn centroid(&self, c: usize) -> (r: [i16; STORE_DIM])
        requires
            self.wf(),
            is_clusters(self.bytes()),
            c < self.clusters().clusters.len(),
        ensures
            r@ == self.clusters().clusters[c as int].centroid,
    {
        read_qv(self.data, HEADER_SIZE + c * QV_BYTES)
    }

    /// Squared gap between a query and the box of a cluster.
    pub fn lower_bound_cluster(&self, c: usize, q: &[i16; STORE_DIM]) -> (r: i64)
        requires
            self.wf(),
            is_clusters(self.bytes()),
            c < self.clusters().clusters.len(),
        ensures
            r == gap(
                q@,
                self.clusters().clusters[c as int].min,
                self.clusters().clusters[c as int].max,
            ),
    {
        let min = read_qv(self.data, self.ivf_min_off + c * QV_BYTES);
        let max = read_qv(self.data, self.ivf_max_off + c * QV_BYTES);
        lower_bound_vec(q, &min, &max)
    }
}

} // verus!
