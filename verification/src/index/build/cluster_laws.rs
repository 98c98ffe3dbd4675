//! What holds of a cluster index that was built: it can be searched, it holds the vectors that it
//! was built from, and when searching it finds the nearest of them.

use vstd::prelude::*;
use vstd::multiset::Multiset;
use crate::index::build::clusters::{
    all_numbers, blocks_before, centre, holds, is_centred, is_cluster, is_cluster_index, is_halving,
    is_history, is_longest, is_splitting, is_step, lemma_blocks_before, replaced,
};
use crate::index::build::grow::Input;
use crate::index::build::is_cluster_file;
use crate::index::build::laws::{
    is_reordering, labels_known, lemma_reordered_nearest, lemma_slot_boxed, slots_of,
};
use crate::index::distance::in_box;
use crate::index::format::clusters_of;
use crate::index::ivf::{unclear, IVF_NPROBE, IVF_REPAIR_CAND_LIMIT};
use crate::index::model::{Clusters, LANES};
use crate::index::nearest::is_nearest_count;
use crate::index::reach::{few_clusters_are_searched_exactly, open_counts_are_exact};
use crate::index::reader::is_searchable;
use crate::index::search::fraud_result;
use crate::STORE_DIM;

verus! {

/// The vectors of the first `n` groups.
pub open spec fn members(groups: Seq<Seq<int>>, n: int) -> Multiset<int>
    decreases n,
{
    if n <= 0 {
        Multiset::empty()
    } else {
        members(groups, n - 1).add(groups[n - 1].to_multiset())
    }
}

proof fn lemma_members_prefix(a: Seq<Seq<int>>, b: Seq<Seq<int>>, k: int)
    requires
        0 <= k <= a.len(),
        k <= b.len(),
        forall|c: int| 0 <= c < k ==> a[c] == b[c],
    ensures
        members(a, k) == members(b, k),
    decreases k,
{
    if k > 0 {
        lemma_members_prefix(a, b, k - 1);
    }
}

proof fn lemma_members_suffix(a: Seq<Seq<int>>, b: Seq<Seq<int>>, k: int, n: int)
    requires
        0 <= k < n <= a.len(),
        b.len() == a.len() + 1,
        members(a, k) == members(b, k),
        b[k].to_multiset().add(b[k + 1].to_multiset()) == a[k].to_multiset(),
        forall|c: int| k < c < a.len() ==> #[trigger] a[c] == b[c + 1],
    ensures
        members(a, n) == members(b, n + 1),
    decreases n,
{
    if n == k + 1 {
        assert(members(b, n + 1) == members(b, k + 1).add(b[k + 1].to_multiset()));
        assert(members(b, k + 1) == members(b, k).add(b[k].to_multiset()));
        assert(members(b, n + 1) =~= members(b, k).add(
            b[k].to_multiset().add(b[k + 1].to_multiset()),
        ));
    } else {
        lemma_members_suffix(a, b, k, n - 1);
        assert(a[n - 1] == b[n]);
    }
}

/// Halving a group keeps the vectors.
proof fn lemma_step_members(vs: Seq<[i16; STORE_DIM]>, a: Seq<Seq<int>>, b: Seq<Seq<int>>)
    requires
        is_step(vs, a, b),
    ensures
        members(b, b.len() as int) == members(a, a.len() as int),
{
    let (k, l, r) = choose|k: int, l: Seq<int>, r: Seq<int>| #[trigger]
        is_halving(vs, a[k], l, r) && is_longest(a, k) && a[k].len() > LANES && b == replaced(
            a,
            k,
            l,
            r,
        );
    assert(b.len() == a.len() + 1);
    assert(b[k] == l && b[k + 1] == r);
    assert(l.to_multiset().add(r.to_multiset()) == a[k].to_multiset()) by {
        vstd::seq_lib::lemma_multiset_commutative(l, r);
    }
    assert forall|c: int| 0 <= c < k implies a[c] == b[c] by {}
    lemma_members_prefix(a, b, k);
    assert forall|c: int| k < c < a.len() implies #[trigger] a[c] == b[c + 1] by {}
    lemma_members_suffix(a, b, k, a.len() as int);
}

proof fn lemma_history_members(vs: Seq<[i16; STORE_DIM]>, h: Seq<Seq<Seq<int>>>, i: int)
    requires
        is_history(vs, h),
        0 <= i < h.len(),
    ensures
        members(h[i], h[i].len() as int) == all_numbers(vs.len()).to_multiset(),
    decreases i,
{
    if i == 0 {
        assert(members(h[0], 1) == members(h[0], 0).add(h[0][0].to_multiset()));
        assert(members(h[0], 1) =~= h[0][0].to_multiset());
    } else {
        lemma_history_members(vs, h, i - 1);
        assert(is_step(vs, h[i - 1], h[i - 1 + 1]));
        lemma_step_members(vs, h[i - 1], h[i]);
    }
}

/// Splitting keeps each vector, in one group.
pub proof fn splitting_keeps_vectors(
    vs: Seq<[i16; STORE_DIM]>,
    target: int,
    groups: Seq<Seq<int>>,
)
    requires
        is_splitting(vs, target, groups),
    ensures
        members(groups, groups.len() as int) == all_numbers(vs.len()).to_multiset(),
{
    let h = choose|h: Seq<Seq<Seq<int>>>| #[trigger] is_history(vs, h) && h.last() == groups;
    lemma_history_members(vs, h, h.len() - 1);
}

proof fn lemma_member(groups: Seq<Seq<int>>, n: int, c: int, i: int)
    requires
        0 <= c < n <= groups.len(),
        groups[c].contains(i),
    ensures
        members(groups, n).count(i) > 0,
    decreases n,
{
    if c == n - 1 {
        groups[c].to_multiset_ensures();
        assert(groups[c].to_multiset().count(i) > 0);
    } else {
        lemma_member(groups, n - 1, c, i);
    }
}

/// The slots of a cluster that was built are those of its group, in some order.
proof fn lemma_cluster_points(
    inp: Input,
    groups: Seq<Seq<int>>,
    x: Clusters,
    c: int,
) -> (ord: Seq<int>)
    requires
        is_cluster_index(inp, groups, x),
        0 <= c < groups.len(),
    ensures
        ord.to_multiset() == groups[c].to_multiset(),
        x.points(c) == slots_of(inp, ord),
        x.clusters[c].start() + x.clusters[c].size() <= x.slots.len(),
{
    let ids = groups[c];
    let first = blocks_before(groups, c);
    let y = x.clusters[c];
    lemma_blocks_before(groups, c, groups.len() as int);
    assert(is_cluster(inp, groups[c], first, y, x.slots));
    let ord = choose|ord: Seq<int>| #[trigger]
        is_centred(inp.vectors, ids, centre(inp.vectors, ids), ord) && holds(
            inp,
            x.slots,
            first,
            ord,
        );
    assert(y.size() == ids.len());
    assert(x.points(c) =~= slots_of(inp, ord)) by {
        assert forall|k: int| 0 <= k < ord.len() implies x.points(c)[k] == slots_of(inp, ord)[k] by {
            assert(x.slots[8 * first + k] == inp.slot(ord[k]));
        }
    }
    ord
}

/// A number in a group that was split off is that of a vector.
proof fn lemma_group_number(
    vs: Seq<[i16; STORE_DIM]>,
    target: int,
    groups: Seq<Seq<int>>,
    c: int,
    i: int,
)
    requires
        is_splitting(vs, target, groups),
        0 <= c < groups.len(),
        groups[c].contains(i),
    ensures
        0 <= i < vs.len(),
{
    splitting_keeps_vectors(vs, target, groups);
    all_numbers(vs.len()).to_multiset_ensures();
    lemma_member(groups, groups.len() as int, c, i);
    assert(all_numbers(vs.len()).contains(i));
}

/// A cluster index that was built can be searched, and its boxes are right.
pub proof fn built_clusters_are_sound(
    inp: Input,
    target: int,
    groups: Seq<Seq<int>>,
    x: Clusters,
)
    requires
        labels_known(inp),
        is_splitting(inp.vectors, target, groups),
        is_cluster_index(inp, groups, x),
    ensures
        x.wf(),
        x.boxes_ok(),
{
    assert forall|c: int| 0 <= c < x.clusters.len() implies #[trigger] x.cluster_ok(c) && x.boxed(
        c,
    ) by {
        let ids = groups[c];
        let y = x.clusters[c];
        assert(is_cluster(inp, groups[c], blocks_before(groups, c), y, x.slots));
        lemma_blocks_before(groups, c, groups.len() as int);
        let ord = lemma_cluster_points(inp, groups, x, c);
        ord.to_multiset_ensures();
        ids.to_multiset_ensures();
        assert forall|k: int| 0 <= k < ord.len() implies ids.contains(#[trigger] ord[k]) by {
            assert(ord.contains(ord[k]));
            assert(ord.to_multiset().count(ord[k]) > 0);
        }
        assert forall|s: int| y.start() <= s < y.start() + y.size() implies (
        #[trigger] x.slots[s]).label <= 1 by {
            let k = s - y.start();
            assert(x.points(c)[k] == x.slots[s]);
            assert(slots_of(inp, ord)[k] == inp.slot(ord[k]));
            lemma_group_number(inp.vectors, target, groups, c, ord[k]);
            assert(inp.labels[ord[k]] <= 1);
        }
        assert forall|k: int| 0 <= k < x.points(c).len() implies in_box(
            (#[trigger] x.points(c)[k]).vec,
            y.min,
            y.max,
        ) by {
            assert(slots_of(inp, ord)[k] == inp.slot(ord[k]));
            lemma_slot_boxed(inp, ids, ord[k]);
        }
    }
    assert forall|c: int| 0 <= c < x.clusters.len() implies #[trigger] x.boxed(c) by {
        assert(x.cluster_ok(c));
    }
}

/// The slots of the first `n` clusters that were built are those of the first `n` groups.
proof fn lemma_points_upto(
    inp: Input,
    groups: Seq<Seq<int>>,
    x: Clusters,
    n: int,
) -> (order: Seq<int>)
    requires
        is_cluster_index(inp, groups, x),
        0 <= n <= groups.len(),
    ensures
        order.to_multiset() == members(groups, n),
        x.points_upto(n) == slots_of(inp, order),
    decreases n,
{
    if n == 0 {
        let order: Seq<int> = Seq::empty();
        order.to_multiset_ensures();
        assert(order.to_multiset() =~= Multiset::empty());
        assert(slots_of(inp, order) =~= Seq::empty());
        order
    } else {
        let before = lemma_points_upto(inp, groups, x, n - 1);
        let ord = lemma_cluster_points(inp, groups, x, n - 1);
        let order = before + ord;
        vstd::seq_lib::lemma_multiset_commutative(before, ord);
        assert(slots_of(inp, order) =~= slots_of(inp, before) + slots_of(inp, ord));
        order
    }
}

/// The slots of a cluster index that a search can reach are the vectors that it was built from,
/// each once.
pub proof fn built_clusters_hold_their_vectors(
    inp: Input,
    target: int,
    groups: Seq<Seq<int>>,
    x: Clusters,
) -> (order: Seq<int>)
    requires
        is_splitting(inp.vectors, target, groups),
        is_cluster_index(inp, groups, x),
    ensures
        is_reordering(order, inp.vectors.len() as int),
        x.all_points() == slots_of(inp, order),
{
    let n = inp.vectors.len();
    let all = all_numbers(n);
    let order = lemma_points_upto(inp, groups, x, groups.len() as int);
    splitting_keeps_vectors(inp.vectors, target, groups);
    order.to_multiset_ensures();
    all.to_multiset_ensures();
    assert(all.no_duplicates());
    all.lemma_multiset_has_no_duplicates();
    order.lemma_multiset_has_no_duplicates_conv();
    assert forall|k: int| 0 <= k < order.len() implies 0 <= #[trigger] order[k] < n by {
        assert(order.contains(order[k]));
        assert(all.to_multiset().count(order[k]) > 0);
        assert(all.contains(order[k]));
    }
    assert forall|i: int| 0 <= i < n implies #[trigger] order.contains(i) by {
        assert(all[i] == i);
        assert(all.contains(i));
        assert(order.to_multiset().count(i) > 0);
    }
    order
}

/// A cluster index file that was built can be searched.
pub proof fn built_cluster_file_is_searchable(
    inp: Input,
    target: int,
    groups: Seq<Seq<int>>,
    b: Seq<u8>,
)
    requires
        labels_known(inp),
        is_splitting(inp.vectors, target, groups),
        is_cluster_file(inp, groups, b),
    ensures
        is_searchable(b),
{
    built_clusters_are_sound(inp, target, groups, clusters_of(b));
}

/// A search of a cluster file that was built counts the fraudulent ones among the five nearest of
/// the vectors that it was built from where there are few clusters, and also where the wide
/// kernels leave the outcome open and there are not too many clusters.
pub proof fn cluster_search_finds_nearest(
    inp: Input,
    target: int,
    groups: Seq<Seq<int>>,
    b: Seq<u8>,
    wide: bool,
    q: Seq<i16>,
    count: int,
)
    requires
        labels_known(inp),
        is_splitting(inp.vectors, target, groups),
        is_cluster_file(inp, groups, b),
        fraud_result(b, wide, q, count),
        groups.len() <= IVF_NPROBE || (wide && unclear(count) && groups.len() <= IVF_NPROBE
            + IVF_REPAIR_CAND_LIMIT),
    ensures
        is_nearest_count(inp.slots(), q, count),
{
    let x = clusters_of(b);
    built_clusters_are_sound(inp, target, groups, x);
    if groups.len() <= IVF_NPROBE {
        few_clusters_are_searched_exactly(x, q, wide);
    } else {
        open_counts_are_exact(x, q);
    }
    let order = built_clusters_hold_their_vectors(inp, target, groups, x);
    lemma_reordered_nearest(inp, order, q, count);
}

} // verus!
