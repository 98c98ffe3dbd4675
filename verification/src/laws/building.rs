//! What an index is built like.

use vstd::prelude::*;
use crate::index::build::clusters::{
    blocks_before, centre, coord_sum, is_cluster, is_halving, is_history, is_longest, is_splitting,
    is_step, replaced, stops_at,
};
use crate::index::build::encode::table_risk;
use crate::index::build::grow::{
    box_high, box_low, high, is_order, low, tree_nodes, tree_slots, widest, Input,
};
use crate::index::build::parts::{lemma_bucket, lemma_bucket_has};
use crate::index::build::{cluster_table_offset, in_reach, table_offset};
use crate::index::distance::key_of;
use crate::index::model::{Cluster, Forest, Slot};
use crate::STORE_DIM;

verus! {

proof fn lemma_low(vs: Seq<[i16; STORE_DIM]>, ids: Seq<int>, d: int)
    ensures
        forall|k: int| 0 <= k < ids.len() ==> low(vs, ids, d) <= vs[#[trigger] ids[k]]@[d],
        ids.len() > 0 ==> exists|k: int|
            0 <= k < ids.len() && low(vs, ids, d) == vs[#[trigger] ids[k]]@[d],
    decreases ids.len(),
{
    if ids.len() > 0 {
        let rest = ids.drop_last();
        lemma_low(vs, rest, d);
        let n = ids.len() - 1;
        assert forall|k: int| 0 <= k < ids.len() implies low(vs, ids, d) <= vs[#[trigger] ids[k]]@[d] by {
            if k < n {
                assert(rest[k] == ids[k]);
            }
        }
        if rest.len() > 0 && !(vs[ids[n]]@[d] < low(vs, rest, d)) {
            let k = choose|k: int|
                0 <= k < rest.len() && low(vs, rest, d) == vs[#[trigger] rest[k]]@[d];
            assert(ids[k] == rest[k]);
        } else {
            assert(low(vs, ids, d) == vs[ids[n]]@[d]);
        }
    }
}

proof fn lemma_high(vs: Seq<[i16; STORE_DIM]>, ids: Seq<int>, d: int)
    ensures
        forall|k: int| 0 <= k < ids.len() ==> vs[#[trigger] ids[k]]@[d] <= high(vs, ids, d),
        ids.len() > 0 ==> exists|k: int|
            0 <= k < ids.len() && high(vs, ids, d) == vs[#[trigger] ids[k]]@[d],
    decreases ids.len(),
{
    if ids.len() > 0 {
        let rest = ids.drop_last();
        lemma_high(vs, rest, d);
        let n = ids.len() - 1;
        assert forall|k: int| 0 <= k < ids.len() implies vs[#[trigger] ids[k]]@[d] <= high(vs, ids, d) by {
            if k < n {
                assert(rest[k] == ids[k]);
            }
        }
        if rest.len() > 0 && !(vs[ids[n]]@[d] > high(vs, rest, d)) {
            let k = choose|k: int|
                0 <= k < rest.len() && high(vs, rest, d) == vs[#[trigger] rest[k]]@[d];
            assert(ids[k] == rest[k]);
        } else {
            assert(high(vs, ids, d) == vs[ids[n]]@[d]);
        }
    }
}

/// The box of some vectors holds them all and is no larger than it must be: in every dimension each
/// side is touched by a vector.
pub proof fn boxes_are_tight(vs: Seq<[i16; STORE_DIM]>, ids: Seq<int>, d: int)
    requires
        0 <= d < 16,
    ensures
        forall|k: int|
            0 <= k < ids.len() ==> box_low(vs, ids)[d] <= vs[#[trigger] ids[k]]@[d] <= box_high(
                vs,
                ids,
            )[d],
        ids.len() > 0 ==> exists|k: int|
            0 <= k < ids.len() && box_low(vs, ids)[d] == vs[#[trigger] ids[k]]@[d],
        ids.len() > 0 ==> exists|k: int|
            0 <= k < ids.len() && box_high(vs, ids)[d] == vs[#[trigger] ids[k]]@[d],
        box_low(vs, ids).len() == 16,
        box_high(vs, ids).len() == 16,
{
    lemma_low(vs, ids, d);
    lemma_high(vs, ids, d);
}

proof fn lemma_widest(lo: Seq<i16>, hi: Seq<i16>, n: int)
    requires
        1 <= n,
    ensures
        0 <= widest(lo, hi, n) < n,
        forall|d: int|
            0 <= d < n ==> #[trigger] hi[d] - lo[d] <= hi[widest(lo, hi, n)] - lo[widest(lo, hi, n)],
        forall|d: int|
            0 <= d < widest(lo, hi, n) ==> #[trigger] hi[d] - lo[d] < hi[widest(lo, hi, n)]
                - lo[widest(lo, hi, n)],
    decreases n,
{
    if n > 1 {
        lemma_widest(lo, hi, n - 1);
    }
}

/// The dimension that vectors are split by is the first of those in which their box is widest.
pub proof fn widest_dimension_is_taken(lo: Seq<i16>, hi: Seq<i16>)
    ensures
        ({
            let w = widest(lo, hi, 14);
            &&& 0 <= w < 14
            &&& forall|d: int| 0 <= d < 14 ==> #[trigger] hi[d] - lo[d] <= hi[w] - lo[w]
            &&& forall|d: int| 0 <= d < w ==> #[trigger] hi[d] - lo[d] < hi[w] - lo[w]
        }),
{
    lemma_widest(lo, hi, 14);
}

/// A node with at most a leaf's vectors is a leaf with these vectors, filled up to a full block with
/// legitimate vectors at the far end of all coordinates.
pub proof fn leaves_hold_their_vectors(
    inp: Input,
    leaf: int,
    f: Forest,
    i: int,
    at: int,
    ids: Seq<int>,
)
    requires
        inp.is_tree(leaf, f, i, at, ids),
        ids.len() <= leaf,
        at % 8 == 0,
    ensures
        ({
            let n = f.nodes[i];
            let room = tree_slots(leaf, ids.len() as int);
            &&& n.left < 0
            &&& n.start * 8 == at
            &&& n.len == ids.len()
            &&& room % 8 == 0
            &&& ids.len() <= room < ids.len() + 8
            &&& tree_nodes(leaf, ids.len() as int) == 1
            &&& forall|k: int, d: int|
                0 <= k < ids.len() && 0 <= d < 14 ==> #[trigger] f.slots[at + k].vec[d]
                    == inp.vectors[ids[k]]@[d]
            &&& forall|k: int|
                0 <= k < ids.len() ==> (#[trigger] f.slots[at + k]).label == inp.labels[ids[k]]
            &&& forall|k: int, d: int|
                ids.len() <= k < room && 0 <= d < 14 ==> #[trigger] f.slots[at + k].vec[d] == 32_767
            &&& forall|k: int|
                ids.len() <= k < room ==> (#[trigger] f.slots[at + k]).label == 0
        }),
{
}

/// A node with more vectors is split into halves by the widest dimension of its box: the boxes of
/// the halves do not overlap in it, and the second half has one vector more where they are odd.
pub proof fn nodes_are_halved(inp: Input, leaf: int, f: Forest, i: int, at: int, ids: Seq<int>)
    requires
        inp.is_tree(leaf, f, i, at, ids),
        ids.len() > leaf >= 1,
    ensures
        ({
            let n = f.nodes[i];
            let (l, r) = (f.nodes[n.left as int], f.nodes[n.right as int]);
            let d = widest(n.min, n.max, 14);
            &&& n.left == i + 1
            &&& n.left < n.right
            &&& l.len == ids.len() as int / 2
            &&& l.len + r.len == n.len
            &&& n.len == ids.len()
            &&& l.max[d] <= r.min[d]
        }),
{
    let n = f.nodes[i];
    let len = ids.len() as int;
    let mid = len / 2;
    let vs = inp.vectors;
    let d = widest(n.min, n.max, 14);
    let j = i + 1 + tree_nodes(leaf, mid);
    let to = at + tree_slots(leaf, mid);
    let ord = choose|ord: Seq<int>| #[trigger]
        is_order(vs, ids, d, ord) && inp.is_tree(leaf, f, i + 1, at, ord.take(mid)) && inp.is_tree(
            leaf,
            f,
            j,
            to,
            ord.skip(mid),
        );
    let (a, b) = (ord.take(mid), ord.skip(mid));
    lemma_widest(n.min, n.max, 14);
    lemma_high(vs, a, d);
    lemma_low(vs, b, d);
    crate::index::build::grow::lemma_tree_sizes(leaf, mid);
    let s = choose|k: int| 0 <= k < a.len() && high(vs, a, d) == vs[#[trigger] a[k]]@[d];
    let t = choose|k: int| 0 <= k < b.len() && low(vs, b, d) == vs[#[trigger] b[k]]@[d];
    assert(a[s] == ord[s]);
    assert(b[t] == ord[mid + t]);
    assert(vs[ord[s]]@[d] <= vs[ord[mid + t]]@[d]);
}

/// Sums of coordinates add up over vectors.
pub proof fn sums_add_up(vs: Seq<[i16; STORE_DIM]>, a: Seq<int>, b: Seq<int>, i: int, d: int)
    ensures
        coord_sum(vs, Seq::empty(), d) == 0,
        coord_sum(vs, seq![i], d) == vs[i]@[d],
        coord_sum(vs, a + b, d) == coord_sum(vs, a, d) + coord_sum(vs, b, d),
    decreases b.len(),
{
    let one = seq![i];
    assert(one.drop_last() =~= Seq::empty());
    assert(coord_sum(vs, one.drop_last(), d) == 0);
    if b.len() == 0 {
        assert(a + b =~= a);
    } else {
        sums_add_up(vs, a, b.drop_last(), i, d);
        assert((a + b).drop_last() =~= a + b.drop_last());
    }
}

/// The centre of some vectors has the mean of each feature, without its fraction, and nothing in the
/// two coordinates that do not count.
pub proof fn centres_are_means(vs: Seq<[i16; STORE_DIM]>, ids: Seq<int>, d: int)
    requires
        ids.len() > 0,
        0 <= d < 16,
    ensures
        ({
            let c = centre(vs, ids)[d] as int;
            let s = coord_sum(vs, ids, d);
            let n = ids.len() as int;
            &&& centre(vs, ids).len() == 16
            &&& d < 14 && s >= 0 ==> c * n <= s < (c + 1) * n
            &&& d < 14 && s < 0 ==> (c - 1) * n < s <= c * n
            &&& d >= 14 ==> c == 0
        }),
{
    let s = coord_sum(vs, ids, d);
    let n = ids.len() as int;
    lemma_sum_range(vs, ids, d);
    if s >= 0 {
        vstd::arithmetic::div_mod::lemma_fundamental_div_mod(s, n);
        vstd::arithmetic::div_mod::lemma_mod_bound(s, n);
        let c = s / n;
        assert(c * n <= s < (c + 1) * n && 0 <= c <= 32_767) by (nonlinear_arith)
            requires
                s == n * c + s % n,
                0 <= s % n < n,
                0 <= s <= 32_767 * n,
                n > 0,
        ;
    } else {
        let t = -s;
        vstd::arithmetic::div_mod::lemma_fundamental_div_mod(t, n);
        vstd::arithmetic::div_mod::lemma_mod_bound(t, n);
        let e = t / n;
        let c = -e;
        assert((c - 1) * n < s <= c * n && -32_768 <= c <= 0) by (nonlinear_arith)
            requires
                t == n * e + t % n,
                0 <= t % n < n,
                0 < t <= 32_768 * n,
                n > 0,
                t == -s,
                c == -e,
        ;
    }
}

proof fn lemma_sum_range(vs: Seq<[i16; STORE_DIM]>, ids: Seq<int>, d: int)
    ensures
        -32_768 * ids.len() <= coord_sum(vs, ids, d) <= 32_767 * ids.len(),
    decreases ids.len(),
{
    if ids.len() > 0 {
        lemma_sum_range(vs, ids.drop_last(), d);
    }
}

/// A cluster takes as few blocks as hold its vectors, and its last block is filled up with
/// legitimate vectors of zeros.
pub proof fn clusters_are_filled_up(
    inp: Input,
    ids: Seq<int>,
    first: int,
    x: Cluster,
    slots: Seq<Slot>,
)
    requires
        is_cluster(inp, ids, first, x, slots),
    ensures
        x.first == first,
        ids.len() <= 8 * (x.end - x.first) < ids.len() + 8,
        x.count == ids.len(),
        forall|k: int, d: int|
            8 * first + ids.len() <= k < 8 * x.end && 0 <= d < 14 ==> #[trigger] slots[k].vec[d]
                == 0,
        forall|k: int| 8 * first + ids.len() <= k < 8 * x.end ==> (#[trigger] slots[k]).label == 0,
{
}

/// A group is halved by the widest dimension of its box: the halves do not overlap in it, and the
/// second half has one vector more where they are odd.
pub proof fn groups_are_halved(vs: Seq<[i16; STORE_DIM]>, ids: Seq<int>, l: Seq<int>, r: Seq<int>)
    requires
        is_halving(vs, ids, l, r),
        ids.len() > 1,
    ensures
        ({
            let d = widest(box_low(vs, ids), box_high(vs, ids), 14);
            &&& l.len() == ids.len() / 2
            &&& l.len() + r.len() == ids.len()
            &&& (l + r).to_multiset() == ids.to_multiset()
            &&& high(vs, l, d) <= low(vs, r, d)
        }),
{
    let d = widest(box_low(vs, ids), box_high(vs, ids), 14);
    (l + r).to_multiset_ensures();
    ids.to_multiset_ensures();
    lemma_high(vs, l, d);
    lemma_low(vs, r, d);
    let s = choose|k: int| 0 <= k < l.len() && high(vs, l, d) == vs[#[trigger] l[k]]@[d];
    let t = choose|k: int| 0 <= k < r.len() && low(vs, r, d) == vs[#[trigger] r[k]]@[d];
    assert(vs[l[s]]@[d] <= vs[r[t]]@[d]);
}

/// Whether no group is more than twice as long as another, but for one vector.
pub open spec fn is_balanced(groups: Seq<Seq<int>>) -> bool {
    forall|j: int, k: int|
        0 <= j < groups.len() && 0 <= k < groups.len() ==> (#[trigger] groups[j]).len() <= 2 * (
        #[trigger] groups[k]).len() + 1
}

proof fn lemma_step_balanced(vs: Seq<[i16; STORE_DIM]>, a: Seq<Seq<int>>, b: Seq<Seq<int>>)
    requires
        is_step(vs, a, b),
        is_balanced(a),
    ensures
        is_balanced(b),
{
    let (k, l, r) = choose|k: int, l: Seq<int>, r: Seq<int>| #[trigger]
        is_halving(vs, a[k], l, r) && is_longest(a, k) && a[k].len() > 8 && b == replaced(a, k, l, r);
    groups_are_halved(vs, a[k], l, r);
    assert forall|i: int, j: int| 0 <= i < b.len() && 0 <= j < b.len() implies (
    #[trigger] b[i]).len() <= 2 * (#[trigger] b[j]).len() + 1 by {
        let oi = if i <= k {
            i
        } else {
            i - 1
        };
        let oj = if j <= k {
            j
        } else {
            j - 1
        };
        assert(b[i] == (if i == k {
            l
        } else if i == k + 1 {
            r
        } else {
            a[oi]
        }));
        assert(b[j] == (if j == k {
            l
        } else if j == k + 1 {
            r
        } else {
            a[oj]
        }));
        assert(a[oi].len() <= a[k].len());
        assert(a[oi].len() <= 2 * a[oj].len() + 1);
        assert(a[k].len() <= 2 * a[oj].len() + 1);
    }
}

/// The groups that splitting ends with are about as long as each other. Where there are fewer than
/// wanted, none has more than eight vectors.
pub proof fn groups_are_balanced(
    vs: Seq<[i16; STORE_DIM]>,
    target: int,
    groups: Seq<Seq<int>>,
)
    requires
        is_splitting(vs, target, groups),
    ensures
        is_balanced(groups),
        groups.len() < target ==> forall|k: int|
            0 <= k < groups.len() ==> (#[trigger] groups[k]).len() <= 8,
{
    let h = choose|h: Seq<Seq<Seq<int>>>| #[trigger]
        is_history(vs, h) && stops_at(h, target) && h.last() == groups;
    lemma_history_balanced(vs, h, h.len() - 1);
}

proof fn lemma_history_balanced(vs: Seq<[i16; STORE_DIM]>, h: Seq<Seq<Seq<int>>>, n: int)
    requires
        is_history(vs, h),
        0 <= n < h.len(),
    ensures
        is_balanced(h[n]),
    decreases n,
{
    if n > 0 {
        lemma_history_balanced(vs, h, n - 1);
        assert(is_step(vs, h[n - 1], h[n - 1 + 1]));
        lemma_step_balanced(vs, h[n - 1], h[n]);
    }
}

proof fn lemma_bucket_rises(inp: Input, key: int, n: int)
    requires
        0 <= n,
    ensures
        forall|j: int, k: int|
            0 <= j < k < inp.bucket_upto(key, n).len() ==> inp.bucket_upto(key, n)[j]
                < inp.bucket_upto(key, n)[k],
    decreases n,
{
    if n > 0 {
        lemma_bucket_rises(inp, key, n - 1);
        lemma_bucket(inp, key, n - 1);
    }
}

/// A partition holds the vectors that have its key, all of them and no others, in the order in which
/// they came.
pub proof fn partitions_hold_their_keys(inp: Input, key: int, i: int)
    ensures
        inp.bucket(key).contains(i) <==> 0 <= i < inp.vectors.len() && key_of(inp.vectors[i]@)
            == key,
        forall|j: int, k: int|
            0 <= j < k < inp.bucket(key).len() ==> inp.bucket(key)[j] < inp.bucket(key)[k],
{
    let n = inp.vectors.len() as int;
    lemma_bucket(inp, key, n);
    lemma_bucket_rises(inp, key, n);
    if 0 <= i < n && key_of(inp.vectors[i]@) == key {
        lemma_bucket_has(inp, i, n);
    }
    if inp.bucket(key).contains(i) {
        let k = choose|k: int| 0 <= k < inp.bucket(key).len() && inp.bucket(key)[k] == i;
        assert(inp.bucket(key)[k] == i);
    }
}

/// The merchant risk table that is written holds ten risks, each at its code without the full 1024s,
/// and five tenths everywhere else.
pub proof fn risk_table_reads(i: int)
    requires
        0 <= i < 1024,
    ensures
        table_risk(291) == 1500,
        table_risk(692) == 3000,
        table_risk(792) == 2000,
        table_risk(824) == 4500,
        table_risk(633) == 8000,
        table_risk(634) == 7500,
        table_risk(827) == 8500,
        table_risk(415) == 3500,
        table_risk(191) == 2500,
        table_risk(879) == 5000,
        i != 291 && i != 692 && i != 792 && i != 824 && i != 633 && i != 634 && i != 827 && i != 415
            && i != 191 ==> table_risk(i) == 5000,
{
}

/// A file can be built where its table begins within four bytes' reach: behind the header, the
/// partitions, the nodes, and the blocks with their labels.
pub proof fn files_stay_in_reach(inp: Input, leaf: int, groups: Seq<Seq<int>>, n: int)
    ensures
        in_reach(n) <==> n <= 0xffff_ffff,
        table_offset(inp, leaf) == 64 + 76 * inp.part_base(256) + 80 * inp.node_base(leaf, 256)
            + 232 * (inp.slot_base(leaf, 256) / 8),
        cluster_table_offset(groups) == 68 + 104 * groups.len() + 232 * blocks_before(
            groups,
            groups.len() as int,
        ),
{
}

/// Nodes, slots and blocks add up over partitions and groups.
pub proof fn sizes_add_up(inp: Input, leaf: int, key: int, groups: Seq<Seq<int>>, c: int)
    requires
        0 <= key,
        0 <= c,
    ensures
        ({
            let n = inp.bucket(key).len() as int;
            &&& inp.part_base(0) == 0 && inp.node_base(leaf, 0) == 0 && inp.slot_base(leaf, 0) == 0
            &&& n == 0 ==> inp.part_base(key + 1) == inp.part_base(key) && inp.node_base(
                leaf,
                key + 1,
            ) == inp.node_base(leaf, key) && inp.slot_base(leaf, key + 1) == inp.slot_base(leaf, key)
            &&& n > 0 ==> inp.part_base(key + 1) == inp.part_base(key) + 1 && inp.node_base(
                leaf,
                key + 1,
            ) == inp.node_base(leaf, key) + tree_nodes(leaf, n) && inp.slot_base(leaf, key + 1)
                == inp.slot_base(leaf, key) + tree_slots(leaf, n)
        }),
        blocks_before(groups, 0) == 0,
        blocks_before(groups, c + 1) == blocks_before(groups, c) + (groups[c].len() + 7) / 8,
{
}

/// A tree has one node more than twice its splits, and each half has its share.
pub proof fn trees_add_up(leaf: int, n: int)
    requires
        1 <= leaf,
        0 <= n,
    ensures
        n <= leaf ==> tree_nodes(leaf, n) == 1 && n <= tree_slots(leaf, n) < n + 8 && tree_slots(
            leaf,
            n,
        ) % 8 == 0,
        n > leaf ==> tree_nodes(leaf, n) == 1 + tree_nodes(leaf, n / 2) + tree_nodes(leaf, n - n / 2)
            && tree_slots(leaf, n) == tree_slots(leaf, n / 2) + tree_slots(leaf, n - n / 2),
{
}

} // verus!
