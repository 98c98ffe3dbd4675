//! Putting the sections of an index file together.

use vstd::prelude::*;
use crate::index::build::clusters::Clustering;
use crate::index::build::encode::{
    has_header, has_labels, has_nodes, has_parts, has_qvs, has_table, has_u32s, has_vectors,
    lemma_blocks_kept, lemma_header_kept, lemma_nodes_kept, lemma_parts_kept, lemma_qvs_kept,
    lemma_slots_stored, lemma_u32s_kept, put_header, put_labels, put_mcc_table, put_nodes,
    put_parts, put_qvs, put_u32s, put_vectors, table_risk, Counts,
};
use crate::index::build::grow::{extends, BuildNode};
use crate::index::build::parts::{planted, stored_part, PartitionRoot, Plantation};
use crate::index::format::{
    cluster_layout, cluster_layout_of, clusters_of, defect, forest_of, is_clusters, is_pairs,
    mcc_entry, mcc_offset_of, n_points_of, node_count_of, qv_le, tree_layout, tree_layout_of,
    u32_le, HEADER_SIZE, IVF_VERSION, KD_PAIR_VERSION, QV_BYTES,
};
use crate::STORE_DIM;

verus! {

proof fn lemma_extends(a: Seq<u8>, b: Seq<u8>, c: Seq<u8>)
    requires
        extends(a, b),
        extends(b, c),
    ensures
        extends(a, c),
{
}

/// Whether a file has the sections of a tree index.
pub open spec fn has_tree_sections(
    b: Seq<u8>,
    c: Counts,
    roots: Seq<PartitionRoot>,
    nodes: Seq<BuildNode>,
    blocks: Seq<([i16; STORE_DIM], u8)>,
) -> bool {
    let at = tree_layout(
        roots.len() as int,
        nodes.len() as int,
        blocks.len() as int / 8,
    );
    &&& b.len() == at.end
    &&& has_header(b, c)
    &&& has_parts(b, HEADER_SIZE as int, roots, nodes)
    &&& has_nodes(b, at.nodes, nodes)
    &&& has_vectors(b, at.vectors, blocks)
    &&& has_labels(b, at.labels, blocks)
    &&& has_table(b, at.mcc_table)
}

/// Writes the sections of a tree index.
pub fn tree_file(counts: &Counts, p: &Plantation) -> (out: Vec<u8>)
    requires
        p.blocks@.len() % 8 == 0,
        forall|k: int|
            0 <= k < p.roots@.len() ==> 0 <= (#[trigger] p.roots@[k]).root < p.nodes@.len(),
        forall|j: int| 0 <= j < p.nodes@.len() ==> (#[trigger] p.nodes@[j]).start >= 0,
    ensures
        has_tree_sections(out@, *counts, p.roots@, p.nodes@, p.blocks@),
{
    let mut out = put_header(counts);
    let ghost b0 = out@;
    put_parts(&mut out, &p.roots, &p.nodes);
    let ghost b1 = out@;
    put_nodes(&mut out, &p.nodes);
    let ghost b2 = out@;
    put_vectors(&mut out, &p.blocks);
    let ghost b3 = out@;
    put_labels(&mut out, &p.blocks);
    let ghost b4 = out@;
    put_mcc_table(&mut out);
    proof {
        let b = out@;
        lemma_extends(b3, b4, b);
        lemma_extends(b2, b3, b);
        lemma_extends(b1, b2, b);
        lemma_extends(b0, b1, b);
        lemma_header_kept(b0, b, *counts);
        lemma_parts_kept(b1, b, b0.len() as int, p.roots@, p.nodes@);
        lemma_nodes_kept(b2, b, b1.len() as int, p.nodes@);
        lemma_blocks_kept(b3, b, b2.len() as int, p.blocks@);
        lemma_blocks_kept(b4, b, b3.len() as int, p.blocks@);
    }
    out
}

/// The sections of a file hold the trees that were planted.
pub proof fn lemma_tree_file(
    b: Seq<u8>,
    c: Counts,
    roots: Seq<PartitionRoot>,
    nodes: Seq<BuildNode>,
    blocks: Seq<([i16; STORE_DIM], u8)>,
)
    requires
        blocks.len() % 8 == 0,
        has_tree_sections(b, c, roots, nodes, blocks),
        c.version == KD_PAIR_VERSION,
        c.part_count == roots.len(),
        c.node_count == nodes.len(),
        c.block_count == blocks.len() / 8,
        c.mcc_table_offset == tree_layout(
            roots.len() as int,
            nodes.len() as int,
            blocks.len() as int / 8,
        ).mcc_table,
    ensures
        defect(b) is None,
        is_pairs(b),
        n_points_of(b) == c.n_points,
        forest_of(b) == planted(roots, nodes, blocks),
        forall|i: int| 44 <= i < 64 ==> #[trigger] b[i] == 0,
        forall|code: int| 0 <= code ==> mcc_entry(b, code) == #[trigger] table_risk(code % 1024),
{
    reveal(has_header);
    let at = tree_layout_of(b);
    let f = forest_of(b);
    let g = planted(roots, nodes, blocks);
    assert(f.parts =~= g.parts) by {
        reveal(has_parts);
        assert forall|k: int| 0 <= k < roots.len() implies f.parts[k] == g.parts[k] by {
            assert(g.parts[k] == stored_part(roots[k], nodes));
        }
    }
    assert(f.nodes =~= g.nodes) by {
        reveal(has_nodes);
        assert forall|k: int| 0 <= k < nodes.len() implies f.nodes[k] == g.nodes[k] by {
            assert(g.nodes[k] == nodes[k].stored());
        }
    }
    assert(f.slots =~= g.slots) by {
        reveal(has_vectors);
        reveal(has_labels);
        assert forall|s: int| 0 <= s < f.slots.len() implies f.slots[s] == g.slots[s] by {
            lemma_slots_stored(b, blocks, at.vectors, at.labels, s);
        }
    }
    lemma_table(b, at.mcc_table);
}

/// The table that a file holds is looked up by the remainder of a code.
proof fn lemma_table(b: Seq<u8>, at: int)
    requires
        has_table(b, at),
        mcc_offset_of(b) == at,
    ensures
        forall|code: int| 0 <= code ==> mcc_entry(b, code) == #[trigger] table_risk(code % 1024),
{
    reveal(has_table);
    assert forall|code: int| 0 <= code implies mcc_entry(b, code) == #[trigger] table_risk(
        code % 1024,
    ) by {
        assert(0 <= code % 1024 < 1024);
    }
}

/// Whether a file has the sections of a cluster index.
pub open spec fn has_cluster_sections(b: Seq<u8>, c: Counts, x: Clustering) -> bool {
    let at = cluster_layout(x.centroids@.len() as int, x.blocks@.len() as int / 8);
    &&& b.len() == at.end
    &&& has_header(b, c)
    &&& has_qvs(b, at.centroids, x.centroids@)
    &&& has_qvs(b, at.bbox_min, x.mins@)
    &&& has_qvs(b, at.bbox_max, x.maxs@)
    &&& has_u32s(b, at.offsets, x.offsets@)
    &&& has_u32s(b, at.counts, x.counts@)
    &&& has_vectors(b, at.vectors, x.blocks@)
    &&& has_labels(b, at.labels, x.blocks@)
    &&& has_table(b, at.mcc_table)
}

/// Writes the sections of a cluster index.
pub fn cluster_file(counts: &Counts, x: &Clustering) -> (out: Vec<u8>)
    requires
        x.wf(),
    ensures
        has_cluster_sections(out@, *counts, *x),
{
    let mut out = put_header(counts);
    let ghost b0 = out@;
    put_qvs(&mut out, &x.centroids);
    let ghost b1 = out@;
    put_qvs(&mut out, &x.mins);
    let ghost b2 = out@;
    put_qvs(&mut out, &x.maxs);
    let ghost b3 = out@;
    put_u32s(&mut out, &x.offsets);
    let ghost b4 = out@;
    put_u32s(&mut out, &x.counts);
    let ghost b5 = out@;
    put_vectors(&mut out, &x.blocks);
    let ghost b6 = out@;
    put_labels(&mut out, &x.blocks);
    let ghost b7 = out@;
    put_mcc_table(&mut out);
    proof {
        let b = out@;
        lemma_extends(b6, b7, b);
        lemma_extends(b5, b6, b);
        lemma_extends(b4, b5, b);
        lemma_extends(b3, b4, b);
        lemma_extends(b2, b3, b);
        lemma_extends(b1, b2, b);
        lemma_extends(b0, b1, b);
        lemma_header_kept(b0, b, *counts);
        lemma_qvs_kept(b1, b, b0.len() as int, x.centroids@);
        lemma_qvs_kept(b2, b, b1.len() as int, x.mins@);
        lemma_qvs_kept(b3, b, b2.len() as int, x.maxs@);
        lemma_u32s_kept(b4, b, b3.len() as int, x.offsets@);
        lemma_u32s_kept(b5, b, b4.len() as int, x.counts@);
        lemma_blocks_kept(b6, b, b5.len() as int, x.blocks@);
        lemma_blocks_kept(b7, b, b6.len() as int, x.blocks@);
    }
    out
}

/// The sections of a file hold the clusters that were made.
pub proof fn lemma_cluster_file(b: Seq<u8>, c: Counts, x: Clustering)
    requires
        x.wf(),
        has_cluster_sections(b, c, x),
        c.version == IVF_VERSION,
        c.part_count == x.centroids@.len(),
        c.node_count == 0,
        c.block_count == x.blocks@.len() / 8,
        c.mcc_table_offset == cluster_layout(
            x.centroids@.len() as int,
            x.blocks@.len() as int / 8,
        ).mcc_table,
    ensures
        defect(b) is None,
        is_clusters(b),
        n_points_of(b) == c.n_points,
        node_count_of(b) == 0,
        clusters_of(b) == x.stored(),
        forall|i: int| 44 <= i < 64 ==> #[trigger] b[i] == 0,
        forall|code: int| 0 <= code ==> mcc_entry(b, code) == #[trigger] table_risk(code % 1024),
{
    reveal(has_header);
    let at = cluster_layout_of(b);
    let f = clusters_of(b);
    let g = x.stored();
    assert(f.clusters =~= g.clusters) by {
        reveal(has_qvs);
        reveal(has_u32s);
        assert forall|k: int| 0 <= k < f.clusters.len() implies f.clusters[k] == g.clusters[k] by {
            assert(x.offsets@[k] == u32_le(b, at.offsets + k * 4));
            assert(x.offsets@[k + 1] == u32_le(b, at.offsets + (k + 1) * 4));
            assert(x.counts@[k] == u32_le(b, at.counts + k * 4));
            assert(x.centroids@[k]@ == qv_le(b, at.centroids + k * QV_BYTES));
            assert(x.mins@[k]@ == qv_le(b, at.bbox_min + k * QV_BYTES));
            assert(x.maxs@[k]@ == qv_le(b, at.bbox_max + k * QV_BYTES));
        }
    }
    assert(f.slots =~= g.slots) by {
        reveal(has_vectors);
        reveal(has_labels);
        assert forall|s: int| 0 <= s < f.slots.len() implies f.slots[s] == g.slots[s] by {
            lemma_slots_stored(b, x.blocks@, at.vectors, at.labels, s);
        }
    }
    lemma_table(b, at.mcc_table);
}

} // verus!
