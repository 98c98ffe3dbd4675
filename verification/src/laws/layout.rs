//! What index files look like.

use vstd::prelude::*;
use crate::http::{MAX_BODY, MAX_REQ_HEAD};
use crate::index::build::clusters::IVF_CLUSTER_COUNT;
use crate::index::build::parts::KEYS;
use crate::index::distance::EARLY_DISTANCE_LIMIT;
use crate::index::format::{
    clusters_of, defect, forest_of, i16_le, i32_le, is_clusters, is_pairs, mcc_entry, n_points_of,
    pair_place, part_count_of, qv_le, u16_le, u32_le, IndexError, DEFAULT_LEAF_SIZE, LABEL_FRAUD,
    LABEL_LEGIT,
};
use crate::index::early::is_early_count;
use crate::index::hunt::{hunt_result, PARK_LIMIT};
use crate::index::ivf::{
    IVF_CONFIDENT_DISTANCE_LIMIT, IVF_NPROBE, IVF_REPAIR_CAND_LIMIT, IVF_REPAIR_MAX, IVF_REPAIR_MIN,
};
use crate::index::model::{has_label, label_mask, Clusters, Forest, Slot, LANES};
use crate::index::reader::is_searchable;
use crate::index::search::fraud_result;
use crate::index::tree::STACK_ROOM;
use crate::server::conn::{CONN_BUF_CAP, WRITE_BUF_CAP};
use crate::server::table::{DEFAULT_CONN_POOL_INIT, MAX_CLIENT_FD};
use crate::vectorize::{MAX_INSTALLMENTS, MAX_MINUTES, MAX_TX_COUNT_24H};
use crate::{DIM, K, SCALE, STORE_DIM};

verus! {

/// The sizes and limits that clients, index files and searches rely on.
pub proof fn sizes_are_fixed()
    ensures
        DIM == 14,
        STORE_DIM == 16,
        K == 5,
        SCALE == 10_000,
        LANES == 8,
        LABEL_LEGIT == 0,
        LABEL_FRAUD == 1,
        DEFAULT_LEAF_SIZE == 256,
        KEYS == 256,
        EARLY_DISTANCE_LIMIT == 1400 * 1400,
        IVF_CLUSTER_COUNT == 4096,
        IVF_NPROBE == 12,
        IVF_REPAIR_CAND_LIMIT == 1024,
        IVF_REPAIR_MIN == 1,
        IVF_REPAIR_MAX == 4,
        IVF_CONFIDENT_DISTANCE_LIMIT == 1400 * 1400,
        PARK_LIMIT == 256,
        STACK_ROOM == 128,
        MAX_INSTALLMENTS == 12,
        MAX_MINUTES == 24 * 60,
        MAX_TX_COUNT_24H == 20,
        MAX_REQ_HEAD == 4096,
        MAX_BODY == 4096,
        CONN_BUF_CAP == 16 * 1024,
        WRITE_BUF_CAP == 512,
        MAX_CLIENT_FD == 65_536,
        DEFAULT_CONN_POOL_INIT == 128,
{
}

/// Whether the two bytes at `o` are those of a number, the lower one first. A negative number counts
/// down from the top.
pub open spec fn two_bytes(b: Seq<u8>, o: int, n: int) -> bool {
    b[o] == n % 256 && b[o + 1] == (n / 256) % 256
}

/// Whether the four bytes at `o` are those of a number, the lowest one first.
pub open spec fn four_bytes(b: Seq<u8>, o: int, n: int) -> bool {
    two_bytes(b, o, n) && b[o + 2] == (n / 65_536) % 256 && b[o + 3] == (n / 16_777_216) % 256
}

/// A number below 2 to the 32 is the sum of its bytes.
proof fn lemma_sum(m: int)
    requires
        0 <= m < 0x1_0000_0000,
    ensures
        m == m % 256 + 256 * ((m / 256) % 256) + 65_536 * ((m / 65_536) % 256) + 16_777_216 * ((m
            / 16_777_216) % 256),
{
    let a = m / 256;
    let c = a / 256;
    let d = c / 256;
    assert(m / 65_536 == c);
    assert(m / 16_777_216 == d);
    assert(m == 256 * a + m % 256);
    assert(a == 256 * c + a % 256);
    assert(c == 256 * d + c % 256);
    assert(0 <= d < 256);
}

/// Numbers that are 2 to the 32 apart have the same four bytes.
proof fn lemma_wrapped(n: int)
    ensures
        ({
            let m = n + 0x1_0000_0000;
            &&& m % 256 == n % 256
            &&& (m / 256) % 256 == (n / 256) % 256
            &&& (m / 65_536) % 256 == (n / 65_536) % 256
            &&& (m / 16_777_216) % 256 == (n / 16_777_216) % 256
        }),
{
    let m = n + 0x1_0000_0000;
    assert(m / 256 == n / 256 + 16_777_216);
    assert(m / 65_536 == n / 65_536 + 65_536);
    assert(m / 16_777_216 == n / 16_777_216 + 256);
}

/// Numbers that are written byte by byte, the lowest byte first, are read back.
pub proof fn numbers_are_read_back(b: Seq<u8>, o: int, u: u16, v: u32, x: i16, y: i32)
    ensures
        two_bytes(b, o, u as int) ==> u16_le(b, o) == u,
        four_bytes(b, o, v as int) ==> u32_le(b, o) == v,
        two_bytes(b, o, x as int) ==> i16_le(b, o) == x,
        four_bytes(b, o, y as int) ==> i32_le(b, o) == y,
{
    lemma_short(b, o, u, x);
    lemma_sum(v as int);
    if y < 0 {
        lemma_wrapped(y as int);
        lemma_sum(y + 0x1_0000_0000);
    } else {
        lemma_sum(y as int);
    }
}

proof fn lemma_short(b: Seq<u8>, o: int, u: u16, x: i16)
    ensures
        two_bytes(b, o, u as int) ==> u16_le(b, o) == u,
        two_bytes(b, o, x as int) ==> i16_le(b, o) == x,
{
    assert(u / 256 < 256);
    let n = x as int;
    let m = n + 65_536;
    assert(m % 256 == n % 256);
    assert(m / 256 == n / 256 + 256);
    assert((m / 256) % 256 == (n / 256) % 256);
}

/// A file is an index just where it has a header of sixty-four bytes with the right first bytes, one
/// of three versions and the right scale and dimensions, and where its sections fill it up to the
/// last byte. What is wrong is told in this order.
pub proof fn files_are_checked(b: Seq<u8>)
    ensures
        ({
            let magic = seq![0x44u8, 0x46u8, 0x4bu8, 0x4eu8, 0x4eu8, 0x30u8, 0x30u8, 0x31u8];
            let version = u32_le(b, 8);
            let (parts, nodes, blocks) = (u32_le(b, 28), u32_le(b, 32), u32_le(b, 36));
            let trees = 64 + 76 * parts + 80 * nodes + 232 * blocks;
            let groups = 68 + 104 * parts + 232 * blocks;
            defect(b) == (if b.len() < 64 {
                Some(IndexError::TooSmall)
            } else if b.take(8) != magic || version < 4 || version > 6 {
                Some(IndexError::BadMagic)
            } else if u32_le(b, 12) != 10_000 || u32_le(b, 16) != 14 || u32_le(b, 20) != 16 {
                Some(IndexError::DimMismatch)
            } else if version == 5 {
                if u32_le(b, 40) == groups && b.len() == groups + 2048 {
                    None
                } else {
                    Some(IndexError::IvfSizeMismatch)
                }
            } else if u32_le(b, 40) == trees && b.len() == trees + 2048 {
                None
            } else {
                Some(IndexError::SizeMismatch)
            })
        }),
        is_clusters(b) <==> u32_le(b, 8) == 5,
        is_pairs(b) <==> u32_le(b, 8) == 6,
        n_points_of(b) == u32_le(b, 24),
        part_count_of(b) == u32_le(b, 28),
{
    let magic = seq![0x44u8, 0x46u8, 0x4bu8, 0x4eu8, 0x4eu8, 0x30u8, 0x30u8, 0x31u8];
    assert(crate::index::format::MAGIC@ =~= magic);
    if b.len() >= 64 {
        assert(b.take(8) =~= b.subrange(0, 8));
    }
}

/// Where the partitions, nodes and slots of a tree index stand. A block of eight slots holds either
/// the first coordinates of all slots, the second ones and so on, or the first two coordinates of
/// all slots, the next two and so on.
pub proof fn trees_are_laid_out(b: Seq<u8>, p: int, i: int, s: int, d: int)
    requires
        !is_clusters(b),
        0 <= d < 14,
    ensures
        ({
            let f = forest_of(b);
            let (parts, nodes, blocks) = (u32_le(b, 28), u32_le(b, 32), u32_le(b, 36));
            let o = 64 + 76 * p;
            let n = 64 + 76 * parts + 80 * i;
            let v = 64 + 76 * parts + 80 * nodes;
            let block = v + 224 * (s / 8);
            let lane = s % 8;
            &&& f.parts.len() == parts
            &&& f.nodes.len() == nodes
            &&& f.slots.len() == 8 * blocks
            &&& 0 <= p < parts ==> {
                &&& f.parts[p].key == u32_le(b, o)
                &&& f.parts[p].root == i32_le(b, o + 4)
                &&& f.parts[p].len == i32_le(b, o + 8)
                &&& f.parts[p].min[d] == i16_le(b, o + 12 + 2 * d)
                &&& f.parts[p].max[d] == i16_le(b, o + 44 + 2 * d)
            }
            &&& 0 <= i < nodes ==> {
                &&& f.nodes[i].left == i32_le(b, n)
                &&& f.nodes[i].right == i32_le(b, n + 4)
                &&& f.nodes[i].start == i32_le(b, n + 8)
                &&& f.nodes[i].len == i32_le(b, n + 12)
                &&& f.nodes[i].min[d] == i16_le(b, n + 16 + 2 * d)
                &&& f.nodes[i].max[d] == i16_le(b, n + 48 + 2 * d)
            }
            &&& 0 <= s < 8 * blocks ==> {
                &&& f.slots[s].label == b[v + 224 * blocks + s]
                &&& f.slots[s].vec.len() == 14
                &&& u32_le(b, 8) == 6 ==> f.slots[s].vec[d] == i16_le(
                    b,
                    block + 32 * (d / 2) + 4 * lane + 2 * (d % 2),
                )
                &&& u32_le(b, 8) != 6 ==> f.slots[s].vec[d] == i16_le(b, block + 16 * d + 2 * lane)
            }
        }),
{
}

/// Where the clusters and slots of a cluster index stand.
pub proof fn clusters_are_laid_out(b: Seq<u8>, c: int, s: int, d: int)
    requires
        is_clusters(b),
        0 <= d < 14,
    ensures
        ({
            let x = clusters_of(b);
            let (n, blocks) = (u32_le(b, 28), u32_le(b, 36));
            let v = 68 + 104 * n;
            &&& x.clusters.len() == n
            &&& x.slots.len() == 8 * blocks
            &&& 0 <= c < n ==> {
                &&& x.clusters[c].centroid[d] == i16_le(b, 64 + 32 * c + 2 * d)
                &&& x.clusters[c].min[d] == i16_le(b, 64 + 32 * n + 32 * c + 2 * d)
                &&& x.clusters[c].max[d] == i16_le(b, 64 + 64 * n + 32 * c + 2 * d)
                &&& x.clusters[c].first == u32_le(b, 64 + 96 * n + 4 * c)
                &&& x.clusters[c].end == u32_le(b, 64 + 96 * n + 4 * c + 4)
                &&& x.clusters[c].count == u32_le(b, 68 + 100 * n + 4 * c)
            }
            &&& 0 <= s < 8 * blocks ==> {
                &&& x.slots[s].label == b[v + 224 * blocks + s]
                &&& x.slots[s].vec.len() == 14
                &&& x.slots[s].vec[d] == i16_le(
                    b,
                    v + 224 * (s / 8) + 32 * (d / 2) + 4 * (s % 8) + 2 * (d % 2),
                )
            }
        }),
{
}

/// Stored vectors have two bytes for each coordinate.
pub proof fn vectors_are_laid_out(b: Seq<u8>, o: int, d: int, lane: int)
    requires
        0 <= d < 16,
    ensures
        qv_le(b, o).len() == 16,
        qv_le(b, o)[d] == i16_le(b, o + 2 * d),
        pair_place(d, lane) == 16 * (d / 2) + 2 * lane + d % 2,
{
}

/// The risk of a merchant code stands in the table at the end of a file, at the code without its
/// full 1024s.
pub proof fn risks_are_laid_out(b: Seq<u8>, code: int)
    ensures
        mcc_entry(b, code) == i16_le(b, u32_le(b, 40) + 2 * (code % 1024)),
        mcc_entry(b, code) == mcc_entry(b, code + 1024),
{
    assert((code + 1024) % 1024 == code % 1024);
}

proof fn lemma_home(f: Forest, key: int, n: int)
    requires
        0 <= n <= f.parts.len(),
    ensures
        -1 <= f.home_before(key, n) < n,
        f.home_before(key, n) >= 0 ==> f.parts[f.home_before(key, n)].key == key,
        forall|p: int| f.home_before(key, n) < p < n ==> (#[trigger] f.parts[p]).key != key,
    decreases n,
{
    if n > 0 {
        lemma_home(f, key, n - 1);
    }
}

/// A key leads to the last partition that carries it, and to none where none does.
pub proof fn keys_lead_to_their_partition(f: Forest, key: int)
    ensures
        ({
            let home = f.home(key);
            &&& -1 <= home < f.parts.len()
            &&& home >= 0 ==> f.parts[home].key == key
            &&& forall|p: int| home < p < f.parts.len() ==> (#[trigger] f.parts[p]).key != key
        }),
{
    lemma_home(f, key, f.parts.len() as int);
}

/// The mask of some slots has one bit for each label that they carry.
pub proof fn masks_name_labels(pts: Seq<Slot>, label: u8)
    ensures
        label_mask(pts) % 2 == 1 <==> has_label(pts, 0),
        label_mask(pts) / 2 == 1 <==> has_label(pts, 1),
        label_mask(pts) < 4,
        pts.len() == 0 ==> !has_label(pts, label),
        pts.len() > 0 ==> has_label(pts, pts[0].label) && has_label(pts, pts.last().label),
        has_label(pts, label) ==> exists|k: int|
            0 <= k < pts.len() && (#[trigger] pts[k]).label == label,
{
}

/// What is said of a file that is no index.
pub proof fn errors_read()
    ensures
        IndexError::TooSmall.text() == "index too small",
        IndexError::BadMagic.text() == "bad magic/version",
        IndexError::DimMismatch.text() == "dim/scale mismatch",
        IndexError::SizeMismatch.text() == "index size mismatch",
        IndexError::IvfSizeMismatch.text() == "ivf index size mismatch",
{
}

/// A tree can be searched where each leaf stays within the slots and carries known labels, and each
/// other node has both children behind it.
pub proof fn trees_can_be_searched(f: Forest, i: int)
    ensures
        f.wf() <==> forall|k: int| 0 <= k < f.nodes.len() ==> #[trigger] f.node_ok(k),
        ({
            let n = f.nodes[i];
            let at = 8 * n.start;
            f.node_ok(i) <==> if n.left < 0 {
                &&& n.start >= 0 && n.len >= 0
                &&& at + n.len <= f.slots.len()
                &&& forall|s: int| at <= s < at + n.len ==> (#[trigger] f.slots[s]).label <= 1
            } else {
                n.left > i && n.right > i && n.left < f.nodes.len() && n.right < f.nodes.len()
            }
        }),
{
}

/// Clusters can be searched where the blocks of each are stored, are all begun but for none, and
/// carry known labels.
pub proof fn clusters_can_be_searched(x: Clusters, c: int)
    ensures
        x.wf() <==> forall|k: int| 0 <= k < x.clusters.len() ==> #[trigger] x.cluster_ok(k),
        ({
            let y = x.clusters[c];
            let room = 8 * (y.end - y.first);
            let size = if y.count <= room {
                y.count as int
            } else {
                room
            };
            x.cluster_ok(c) <==> {
                &&& y.first <= y.end
                &&& 8 * y.end <= x.slots.len()
                &&& room > 0 ==> room - 8 <= y.count
                &&& forall|s: int|
                    8 * y.first <= s < 8 * y.first + size ==> (#[trigger] x.slots[s]).label <= 1
            }
        }),
{
}

/// What an index counts goes by the kind of its file.
pub proof fn searches_go_by_the_file(b: Seq<u8>, wide: bool, q: Seq<i16>, count: int)
    ensures
        is_clusters(b) ==> (fraud_result(b, wide, q, count) <==> count == clusters_of(b).count(
            q,
            wide,
        )),
        is_pairs(b) ==> (fraud_result(b, wide, q, count) <==> hunt_result(forest_of(b), q, count)),
        !is_clusters(b) && !is_pairs(b) ==> (fraud_result(b, wide, q, count) <==> is_early_count(
            forest_of(b),
            q,
            count,
        )),
        is_clusters(b) ==> (is_searchable(b) <==> clusters_of(b).wf()),
        !is_clusters(b) ==> (is_searchable(b) <==> forest_of(b).wf()),
{
}

} // verus!
