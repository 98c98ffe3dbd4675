//! Writing an index file.

use vstd::prelude::*;
use crate::consts::{listed_risk, DEFAULT_MCC_RISK};
use crate::index::build::grow::{block_slot, extends, BuildNode};
use crate::index::build::parts::{stored_part, PartitionRoot};
use crate::index::format::{
    block_count_of, i16_le, i32_le, mcc_offset_of, n_points_of, node_count_of, node_le, pair_place,
    part_count_of, part_le, qv_le, slot_le, u32_le, version_of, HEADER_SIZE, MAGIC, MCC_TABLE_SIZE,
    NODE_SIZE, PART_SIZE, QV_BYTES,
};
use crate::index::model::LANES;
use crate::{DIM, SCALE, STORE_DIM};

verus! {

/// The merchant risk table: each listed code stands at its remainder.
pub open spec fn table_risk(i: int) -> i16 {
    if i == 5411int % 1024 {
        1500
    } else if i == 5812int % 1024 {
        3000
    } else if i == 5912int % 1024 {
        2000
    } else if i == 5944int % 1024 {
        4500
    } else if i == 7801int % 1024 {
        8000
    } else if i == 7802int % 1024 {
        7500
    } else if i == 7995int % 1024 {
        8500
    } else if i == 4511int % 1024 {
        3500
    } else if i == 5311int % 1024 {
        2500
    } else if i == 5999int % 1024 {
        5000
    } else {
        DEFAULT_MCC_RISK
    }
}

/// Each listed code finds its risk in the table.
pub proof fn table_holds_listed_risks(code: int)
    requires
        listed_risk(code) is Some,
    ensures
        listed_risk(code) == Some(table_risk(code % (MCC_TABLE_SIZE as int))),
{
}

/// The merchant risk table.
pub fn build_mcc_table() -> (t: [i16; MCC_TABLE_SIZE])
    ensures
        forall|i: int| 0 <= i < MCC_TABLE_SIZE ==> #[trigger] t@[i] == table_risk(i),
{
    let mut t: [i16; MCC_TABLE_SIZE] = [DEFAULT_MCC_RISK; MCC_TABLE_SIZE];
    t[5999 % 1024] = 5000;
    t[5311 % 1024] = 2500;
    t[4511 % 1024] = 3500;
    t[7995 % 1024] = 8500;
    t[7802 % 1024] = 7500;
    t[7801 % 1024] = 8000;
    t[5944 % 1024] = 4500;
    t[5912 % 1024] = 2000;
    t[5812 % 1024] = 3000;
    t[5411 % 1024] = 1500;
    t
}

pub fn push_u32(out: &mut Vec<u8>, v: u32)
    ensures
        extends(old(out)@, final(out)@),
        final(out)@.len() == old(out)@.len() + 4,
        u32_le(final(out)@, old(out)@.len() as int) == v,
{
    out.push((v % 256) as u8);
    out.push((v / 256 % 256) as u8);
    out.push((v / 65536 % 256) as u8);
    out.push((v / 16777216) as u8);
}

pub fn push_i32(out: &mut Vec<u8>, v: i32)
    ensures
        extends(old(out)@, final(out)@),
        final(out)@.len() == old(out)@.len() + 4,
        i32_le(final(out)@, old(out)@.len() as int) == v,
{
    let u: u32 = if v < 0 {
        (v as i64 + 0x1_0000_0000) as u32
    } else {
        v as u32
    };
    push_u32(out, u);
}

pub fn push_i16(out: &mut Vec<u8>, v: i16)
    ensures
        extends(old(out)@, final(out)@),
        final(out)@.len() == old(out)@.len() + 2,
        i16_le(final(out)@, old(out)@.len() as int) == v,
{
    let u: u16 = if v < 0 {
        (v as i32 + 0x1_0000) as u16
    } else {
        v as u16
    };
    out.push((u % 256) as u8);
    out.push((u / 256) as u8);
}

/// Appends a vector with all its coordinates.
pub fn write_qv(out: &mut Vec<u8>, v: &[i16; STORE_DIM])
    ensures
        extends(old(out)@, final(out)@),
        final(out)@.len() == old(out)@.len() + QV_BYTES,
        qv_le(final(out)@, old(out)@.len() as int) == v@,
{
    let ghost at = out@.len() as int;
    let mut i: usize = 0;
    while i < STORE_DIM
        invariant
            i <= STORE_DIM,
            at == old(out)@.len(),
            out@.len() == at + 2 * i,
            extends(old(out)@, out@),
            forall|d: int| 0 <= d < i ==> i16_le(out@, at + 2 * d) == #[trigger] v@[d],
        decreases STORE_DIM - i,
    {
        push_i16(out, v[i]);
        i += 1;
    }
    assert(qv_le(out@, at) =~= v@);
}

pub proof fn lemma_qv_same(a: Seq<u8>, b: Seq<u8>, o: int)
    requires
        extends(a, b),
        0 <= o,
        o + QV_BYTES <= a.len(),
    ensures
        qv_le(b, o) == qv_le(a, o),
{
    assert(qv_le(b, o) =~= qv_le(a, o));
}

pub proof fn lemma_part_same(a: Seq<u8>, b: Seq<u8>, o: int)
    requires
        extends(a, b),
        0 <= o,
        o + PART_SIZE <= a.len(),
    ensures
        part_le(b, o) == part_le(a, o),
{
    lemma_qv_same(a, b, o + 12);
    lemma_qv_same(a, b, o + 44);
}

pub proof fn lemma_node_same(a: Seq<u8>, b: Seq<u8>, o: int)
    requires
        extends(a, b),
        0 <= o,
        o + NODE_SIZE <= a.len(),
    ensures
        node_le(b, o) == node_le(a, o),
{
    lemma_qv_same(a, b, o + 16);
    lemma_qv_same(a, b, o + 48);
}

/// The numbers in a header.
pub struct Counts {
    pub version: u32,
    pub n_points: u32,
    pub part_count: u32,
    pub node_count: u32,
    pub block_count: u32,
    pub mcc_table_offset: u32,
}

/// Whether a file begins with a header that holds these numbers.
#[verifier::opaque]
pub open spec fn has_header(b: Seq<u8>, c: Counts) -> bool {
    &&& HEADER_SIZE <= b.len()
    &&& b.subrange(0, 8) == MAGIC@
    &&& version_of(b) == c.version
    &&& u32_le(b, 12) == SCALE
    &&& u32_le(b, 16) == DIM
    &&& u32_le(b, 20) == STORE_DIM
    &&& n_points_of(b) == c.n_points
    &&& part_count_of(b) == c.part_count
    &&& node_count_of(b) == c.node_count
    &&& block_count_of(b) == c.block_count
    &&& mcc_offset_of(b) == c.mcc_table_offset
    &&& forall|i: int| 44 <= i < 64 ==> #[trigger] b[i] == 0
}

/// Whether partitions are stored at `at`.
#[verifier::opaque]
pub open spec fn has_parts(
    b: Seq<u8>,
    at: int,
    roots: Seq<PartitionRoot>,
    nodes: Seq<BuildNode>,
) -> bool {
    &&& 0 <= at
    &&& at + roots.len() * PART_SIZE <= b.len()
    &&& forall|p: int|
        0 <= p < roots.len() ==> part_le(b, at + p * PART_SIZE) == stored_part(
            #[trigger] roots[p],
            nodes,
        )
}

/// Whether nodes are stored at `at`.
#[verifier::opaque]
pub open spec fn has_nodes(b: Seq<u8>, at: int, nodes: Seq<BuildNode>) -> bool {
    &&& 0 <= at
    &&& at + nodes.len() * NODE_SIZE <= b.len()
    &&& forall|i: int|
        0 <= i < nodes.len() ==> node_le(b, at + i * NODE_SIZE) == (#[trigger] nodes[i]).stored()
}

/// Whether the vectors of blocks are stored at `at`.
#[verifier::opaque]
pub open spec fn has_vectors(b: Seq<u8>, at: int, blocks: Seq<([i16; STORE_DIM], u8)>) -> bool {
    &&& 0 <= at
    &&& at + 28 * blocks.len() <= b.len()
    &&& forall|g: int|
        0 <= g < 14 * blocks.len() ==> i16_le(b, at + 2 * g) == #[trigger] coordinate(blocks, g)
}

/// Whether the labels of blocks are stored at `at`.
#[verifier::opaque]
pub open spec fn has_labels(b: Seq<u8>, at: int, blocks: Seq<([i16; STORE_DIM], u8)>) -> bool {
    &&& 0 <= at
    &&& at + blocks.len() <= b.len()
    &&& forall|s: int| 0 <= s < blocks.len() ==> b[at + s] == (#[trigger] blocks[s]).1
}

/// Whether the merchant risk table is stored at `at`.
#[verifier::opaque]
pub open spec fn has_table(b: Seq<u8>, at: int) -> bool {
    &&& 0 <= at
    &&& at + MCC_TABLE_SIZE * 2 <= b.len()
    &&& forall|i: int|
        0 <= i < MCC_TABLE_SIZE ==> i16_le(b, at + 2 * i) == #[trigger] table_risk(i)
}

/// Whether vectors with all their coordinates are stored at `at`.
#[verifier::opaque]
pub open spec fn has_qvs(b: Seq<u8>, at: int, list: Seq<[i16; STORE_DIM]>) -> bool {
    &&& 0 <= at
    &&& at + list.len() * QV_BYTES <= b.len()
    &&& forall|i: int|
        0 <= i < list.len() ==> qv_le(b, at + i * QV_BYTES) == (#[trigger] list[i])@
}

/// Whether numbers are stored at `at`.
#[verifier::opaque]
pub open spec fn has_u32s(b: Seq<u8>, at: int, list: Seq<u32>) -> bool {
    &&& 0 <= at
    &&& at + list.len() * 4 <= b.len()
    &&& forall|i: int| 0 <= i < list.len() ==> u32_le(b, at + i * 4) == #[trigger] list[i]
}

/// What a file holds stays when more is appended.
pub proof fn lemma_header_kept(a: Seq<u8>, b: Seq<u8>, c: Counts)
    requires
        extends(a, b),
        has_header(a, c),
    ensures
        has_header(b, c),
{
    reveal(has_header);
    assert(b.subrange(0, 8) =~= a.subrange(0, 8));
}

pub proof fn lemma_parts_kept(
    a: Seq<u8>,
    b: Seq<u8>,
    at: int,
    roots: Seq<PartitionRoot>,
    nodes: Seq<BuildNode>,
)
    requires
        extends(a, b),
        has_parts(a, at, roots, nodes),
    ensures
        has_parts(b, at, roots, nodes),
{
    reveal(has_parts);
    assert forall|p: int| 0 <= p < roots.len() implies part_le(b, at + p * PART_SIZE)
        == stored_part(#[trigger] roots[p], nodes) by {
        lemma_part_same(a, b, at + p * PART_SIZE);
    }
}

pub proof fn lemma_nodes_kept(a: Seq<u8>, b: Seq<u8>, at: int, nodes: Seq<BuildNode>)
    requires
        extends(a, b),
        has_nodes(a, at, nodes),
    ensures
        has_nodes(b, at, nodes),
{
    reveal(has_nodes);
    assert forall|i: int| 0 <= i < nodes.len() implies node_le(b, at + i * NODE_SIZE) == (
    #[trigger] nodes[i]).stored() by {
        lemma_node_same(a, b, at + i * NODE_SIZE);
    }
}

pub proof fn lemma_blocks_kept(
    a: Seq<u8>,
    b: Seq<u8>,
    at: int,
    blocks: Seq<([i16; STORE_DIM], u8)>,
)
    requires
        extends(a, b),
    ensures
        has_vectors(a, at, blocks) ==> has_vectors(b, at, blocks),
        has_labels(a, at, blocks) ==> has_labels(b, at, blocks),
{
    reveal(has_vectors);
    reveal(has_labels);
    if has_vectors(a, at, blocks) {
        assert forall|g: int| 0 <= g < 14 * blocks.len() implies i16_le(b, at + 2 * g)
            == #[trigger] coordinate(blocks, g) by {
            assert(i16_le(a, at + 2 * g) == coordinate(blocks, g));
        }
    }
    if has_labels(a, at, blocks) {
        assert forall|s: int| 0 <= s < blocks.len() implies b[at + s] == (
        #[trigger] blocks[s]).1 by {
            assert(a[at + s] == blocks[s].1);
        }
    }
}

pub proof fn lemma_qvs_kept(a: Seq<u8>, b: Seq<u8>, at: int, list: Seq<[i16; STORE_DIM]>)
    requires
        extends(a, b),
        has_qvs(a, at, list),
    ensures
        has_qvs(b, at, list),
{
    reveal(has_qvs);
    assert forall|i: int| 0 <= i < list.len() implies qv_le(b, at + i * QV_BYTES) == (
    #[trigger] list[i])@ by {
        lemma_qv_same(a, b, at + i * QV_BYTES);
    }
}

pub proof fn lemma_u32s_kept(a: Seq<u8>, b: Seq<u8>, at: int, list: Seq<u32>)
    requires
        extends(a, b),
        has_u32s(a, at, list),
    ensures
        has_u32s(b, at, list),
{
    reveal(has_u32s);
    assert forall|i: int| 0 <= i < list.len() implies u32_le(b, at + i * 4)
        == #[trigger] list[i] by {
        assert(u32_le(a, at + i * 4) == list[i]);
    }
}

/// Begins a file with its header.
pub fn put_header(c: &Counts) -> (out: Vec<u8>)
    ensures
        out@.len() == HEADER_SIZE,
        has_header(out@, *c),
{
    let mut out: Vec<u8> = Vec::new();
    let mut i: usize = 0;
    while i < 8
        invariant
            i <= 8,
            out@.len() == i,
            forall|j: int| 0 <= j < i ==> #[trigger] out@[j] == MAGIC@[j],
        decreases 8 - i,
    {
        out.push(MAGIC[i]);
        i += 1;
    }
    push_u32(&mut out, c.version);
    push_u32(&mut out, SCALE as u32);
    push_u32(&mut out, DIM as u32);
    push_u32(&mut out, STORE_DIM as u32);
    push_u32(&mut out, c.n_points);
    push_u32(&mut out, c.part_count);
    push_u32(&mut out, c.node_count);
    push_u32(&mut out, c.block_count);
    push_u32(&mut out, c.mcc_table_offset);
    let ghost fields = out@;
    let mut i: usize = 0;
    while i < 20
        invariant
            i <= 20,
            fields.len() == 44,
            out@.len() == 44 + i,
            extends(fields, out@),
            forall|j: int| 44 <= j < 44 + i ==> #[trigger] out@[j] == 0,
        decreases 20 - i,
    {
        out.push(0);
        i += 1;
    }
    assert(out@.subrange(0, 8) =~= MAGIC@);
    proof {
        reveal(has_header);
    }
    out
}

/// Appends the partitions.
pub fn put_parts(out: &mut Vec<u8>, roots: &Vec<PartitionRoot>, nodes: &Vec<BuildNode>)
    requires
        forall|p: int|
            0 <= p < roots@.len() ==> 0 <= (#[trigger] roots@[p]).root < nodes@.len(),
    ensures
        extends(old(out)@, final(out)@),
        final(out)@.len() == old(out)@.len() + roots@.len() * PART_SIZE,
        has_parts(final(out)@, old(out)@.len() as int, roots@, nodes@),
{
    let ghost at = out@.len() as int;
    let mut k: usize = 0;
    while k < roots.len()
        invariant
            forall|p: int|
                0 <= p < roots@.len() ==> 0 <= (#[trigger] roots@[p]).root < nodes@.len(),
            k <= roots@.len(),
            at == old(out)@.len(),
            out@.len() == at + k * PART_SIZE,
            extends(old(out)@, out@),
            forall|p: int|
                0 <= p < k ==> part_le(out@, at + p * PART_SIZE) == stored_part(
                    #[trigger] roots@[p],
                    nodes@,
                ),
        decreases roots@.len() - k,
    {
        let ghost before = out@;
        let r: PartitionRoot = roots[k];
        let n: BuildNode = nodes[r.root as usize];
        push_u32(out, r.key);
        let ghost o1 = out@;
        push_i32(out, r.root);
        let ghost o2 = out@;
        push_i32(out, n.len);
        let ghost o3 = out@;
        write_qv(out, &n.min);
        let ghost o4 = out@;
        write_qv(out, &n.max);
        proof {
            let o = at + k * PART_SIZE;
            lemma_qv_same(o4, out@, o + 12);
            assert(part_le(out@, o) == stored_part(r, nodes@));
            assert forall|p: int| 0 <= p < k + 1 implies part_le(out@, at + p * PART_SIZE)
                == stored_part(#[trigger] roots@[p], nodes@) by {
                if p < k {
                    lemma_part_same(before, out@, at + p * PART_SIZE);
                }
            }
        }
        k += 1;
    }
    proof {
        reveal(has_parts);
    }
}

/// Appends the nodes.
pub fn put_nodes(out: &mut Vec<u8>, nodes: &Vec<BuildNode>)
    requires
        forall|i: int| 0 <= i < nodes@.len() ==> (#[trigger] nodes@[i]).start >= 0,
    ensures
        extends(old(out)@, final(out)@),
        final(out)@.len() == old(out)@.len() + nodes@.len() * NODE_SIZE,
        has_nodes(final(out)@, old(out)@.len() as int, nodes@),
{
    let ghost at = out@.len() as int;
    let mut k: usize = 0;
    while k < nodes.len()
        invariant
            forall|i: int| 0 <= i < nodes@.len() ==> (#[trigger] nodes@[i]).start >= 0,
            k <= nodes@.len(),
            at == old(out)@.len(),
            out@.len() == at + k * NODE_SIZE,
            extends(old(out)@, out@),
            forall|i: int|
                0 <= i < k ==> node_le(out@, at + i * NODE_SIZE) == (
                #[trigger] nodes@[i]).stored(),
        decreases nodes@.len() - k,
    {
        let ghost before = out@;
        let n: BuildNode = nodes[k];
        let start_block: i32 = if n.left < 0 {
            n.start / LANES as i32
        } else {
            n.start
        };
        push_i32(out, n.left);
        push_i32(out, n.right);
        push_i32(out, start_block);
        push_i32(out, n.len);
        write_qv(out, &n.min);
        let ghost o4 = out@;
        write_qv(out, &n.max);
        proof {
            let o = at + k * NODE_SIZE;
            lemma_qv_same(o4, out@, o + 16);
            assert(node_le(out@, o) == n.stored());
            assert forall|i: int| 0 <= i < k + 1 implies node_le(out@, at + i * NODE_SIZE) == (
            #[trigger] nodes@[i]).stored() by {
                if i < k {
                    lemma_node_same(before, out@, at + i * NODE_SIZE);
                }
            }
        }
        k += 1;
    }
    proof {
        reveal(has_nodes);
    }
}

/// Coordinate number `g` of the vectors in the order in which blocks store them.
pub open spec fn coordinate(blocks: Seq<([i16; STORE_DIM], u8)>, g: int) -> i16 {
    let place = g % 112;
    blocks[(g / 112) * 8 + (place % 16) / 2].0@[(place / 16) * 2 + place % 2]
}

/// Appends the vectors, block by block.
pub fn put_vectors(out: &mut Vec<u8>, blocks: &Vec<([i16; STORE_DIM], u8)>)
    requires
        blocks@.len() % 8 == 0,
    ensures
        extends(old(out)@, final(out)@),
        final(out)@.len() == old(out)@.len() + 28 * blocks@.len(),
        has_vectors(final(out)@, old(out)@.len() as int, blocks@),
{
    let ghost at = out@.len() as int;
    let block_count: usize = blocks.len() / LANES;
    let mut b: usize = 0;
    while b < block_count
        invariant
            block_count * 8 == blocks.len(),
            b <= block_count,
            at == old(out)@.len(),
            out@.len() == at + 224 * b,
            extends(old(out)@, out@),
            forall|g: int|
                0 <= g < 112 * b ==> i16_le(out@, at + 2 * g) == #[trigger] coordinate(blocks@, g),
        decreases block_count - b,
    {
        let mut j: usize = 0;
        while j < 112
            invariant
                block_count * 8 == blocks.len(),
                b < block_count,
                j <= 112,
                at == old(out)@.len(),
                out@.len() == at + 224 * b + 2 * j,
                extends(old(out)@, out@),
                forall|g: int|
                    0 <= g < 112 * b + j ==> i16_le(out@, at + 2 * g) == #[trigger] coordinate(
                        blocks@,
                        g,
                    ),
            decreases 112 - j,
        {
            let lane: usize = (j % 16) / 2;
            let d: usize = (j / 16) * 2 + j % 2;
            let v: [i16; STORE_DIM] = blocks[b * LANES + lane].0;
            let ghost before = out@;
            push_i16(out, v[d]);
            proof {
                let g = 112 * b + j;
                assert(g / 112 == b && g % 112 == j);
                assert(coordinate(blocks@, g) == v@[d as int]);
                assert forall|h: int| 0 <= h < 112 * b + j + 1 implies i16_le(out@, at + 2 * h)
                    == #[trigger] coordinate(blocks@, h) by {
                    if h < g {
                        assert(i16_le(before, at + 2 * h) == coordinate(blocks@, h));
                    }
                }
            }
            j += 1;
        }
        b += 1;
    }
    proof {
        reveal(has_vectors);
    }
}

/// Appends the labels.
pub fn put_labels(out: &mut Vec<u8>, blocks: &Vec<([i16; STORE_DIM], u8)>)
    ensures
        extends(old(out)@, final(out)@),
        final(out)@.len() == old(out)@.len() + blocks@.len(),
        has_labels(final(out)@, old(out)@.len() as int, blocks@),
{
    let ghost at = out@.len() as int;
    let mut s: usize = 0;
    while s < blocks.len()
        invariant
            s <= blocks@.len(),
            at == old(out)@.len(),
            out@.len() == at + s,
            extends(old(out)@, out@),
            forall|k: int| 0 <= k < s ==> out@[at + k] == (#[trigger] blocks@[k]).1,
        decreases blocks@.len() - s,
    {
        out.push(blocks[s].1);
        s += 1;
    }
    proof {
        reveal(has_labels);
    }
}

/// Appends the merchant risk table.
pub fn put_mcc_table(out: &mut Vec<u8>)
    ensures
        extends(old(out)@, final(out)@),
        final(out)@.len() == old(out)@.len() + MCC_TABLE_SIZE * 2,
        has_table(final(out)@, old(out)@.len() as int),
{
    let ghost at = out@.len() as int;
    let table = build_mcc_table();
    let mut k: usize = 0;
    while k < MCC_TABLE_SIZE
        invariant
            k <= MCC_TABLE_SIZE,
            at == old(out)@.len(),
            out@.len() == at + 2 * k,
            extends(old(out)@, out@),
            forall|i: int| 0 <= i < MCC_TABLE_SIZE ==> #[trigger] table@[i] == table_risk(i),
            forall|i: int| 0 <= i < k ==> i16_le(out@, at + 2 * i) == #[trigger] table_risk(i),
        decreases MCC_TABLE_SIZE - k,
    {
        let ghost before = out@;
        push_i16(out, table[k]);
        proof {
            assert forall|i: int| 0 <= i < k + 1 implies i16_le(out@, at + 2 * i)
                == #[trigger] table_risk(i) by {
                if i < k {
                    assert(i16_le(before, at + 2 * i) == table_risk(i));
                } else {
                    assert(table@[i] == table_risk(i));
                }
            }
        }
        k += 1;
    }
    proof {
        reveal(has_table);
    }
}

/// The stored coordinates and labels are those of the slots.
pub proof fn lemma_slots_stored(
    out: Seq<u8>,
    blocks: Seq<([i16; STORE_DIM], u8)>,
    vectors: int,
    labels: int,
    s: int,
)
    requires
        blocks.len() % 8 == 0,
        0 <= s < blocks.len(),
        forall|g: int|
            0 <= g < 14 * blocks.len() ==> i16_le(out, vectors + 2 * g) == #[trigger] coordinate(
                blocks,
                g,
            ),
        forall|k: int| 0 <= k < blocks.len() ==> out[labels + k] == (#[trigger] blocks[k]).1,
    ensures
        slot_le(out, vectors, labels, true, s) == block_slot(blocks[s]),
{
    let lane = s % 8;
    let block = s / 8;
    let got = slot_le(out, vectors, labels, true, s);
    assert forall|d: int| 0 <= d < DIM implies #[trigger] got.vec[d] == block_slot(
        blocks[s],
    ).vec[d] by {
        let place = pair_place(d, lane);
        let g = block * 112 + place;
        assert(0 <= place < 112);
        assert(place / 16 == d / 2);
        assert(place % 16 == lane * 2 + d % 2);
        assert((place % 16) / 2 == lane);
        assert(place % 2 == d % 2);
        assert((d / 2) * 2 + d % 2 == d);
        assert(g / 112 == block && g % 112 == place);
        assert(g < 14 * blocks.len());
        assert(coordinate(blocks, g) == blocks[s].0@[d]);
    }
    assert(got.vec =~= block_slot(blocks[s]).vec);
    assert(out[labels + s] == blocks[s].1);
}

/// Appends vectors with all their coordinates.
pub fn put_qvs(out: &mut Vec<u8>, list: &Vec<[i16; STORE_DIM]>)
    ensures
        extends(old(out)@, final(out)@),
        final(out)@.len() == old(out)@.len() + list@.len() * QV_BYTES,
        has_qvs(final(out)@, old(out)@.len() as int, list@),
{
    let ghost at = out@.len() as int;
    let mut k: usize = 0;
    while k < list.len()
        invariant
            k <= list@.len(),
            at == old(out)@.len(),
            out@.len() == at + k * QV_BYTES,
            extends(old(out)@, out@),
            forall|i: int|
                0 <= i < k ==> qv_le(out@, at + i * QV_BYTES) == (#[trigger] list@[i])@,
        decreases list@.len() - k,
    {
        let ghost before = out@;
        write_qv(out, &list[k]);
        proof {
            assert forall|i: int| 0 <= i < k + 1 implies qv_le(out@, at + i * QV_BYTES) == (
            #[trigger] list@[i])@ by {
                if i < k {
                    lemma_qv_same(before, out@, at + i * QV_BYTES);
                }
            }
        }
        k += 1;
    }
    proof {
        reveal(has_qvs);
    }
}

/// Appends numbers.
pub fn put_u32s(out: &mut Vec<u8>, list: &Vec<u32>)
    ensures
        extends(old(out)@, final(out)@),
        final(out)@.len() == old(out)@.len() + list@.len() * 4,
        has_u32s(final(out)@, old(out)@.len() as int, list@),
{
    let ghost at = out@.len() as int;
    let mut k: usize = 0;
    while k < list.len()
        invariant
            k <= list@.len(),
            at == old(out)@.len(),
            out@.len() == at + k * 4,
            extends(old(out)@, out@),
            forall|i: int| 0 <= i < k ==> u32_le(out@, at + i * 4) == #[trigger] list@[i],
        decreases list@.len() - k,
    {
        let ghost before = out@;
        push_u32(out, list[k]);
        proof {
            assert forall|i: int| 0 <= i < k + 1 implies u32_le(out@, at + i * 4)
                == #[trigger] list@[i] by {
                if i < k {
                    assert(u32_le(before, at + i * 4) == list@[i]);
                }
            }
        }
        k += 1;
    }
    proof {
        reveal(has_u32s);
    }
}

} // verus!
