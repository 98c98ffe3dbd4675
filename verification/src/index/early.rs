//! The search that is content with five close neighbours: it walks the trees, closest boxes first,
//! and ends as soon as the short list is full of candidates that are close enough.

use vstd::prelude::*;
use crate::index::distance::{distance, key_of, lemma_dist_bound, partition_key};
use crate::index::format::is_clusters;
use crate::index::model::{Forest, Slot, LANES};
use crate::index::nearest::{
    explained, is_close_count, is_nearest_count, lemma_close_cover, lemma_explained_empty,
    lemma_full_cover, lemma_skip_far, span,
};
use crate::index::reader::{is_searchable, IndexReader};
use crate::index::shortlist::{
    best_of, early_done, insert_best, lemma_insert_wf, lemma_label_sum_bound, lemma_place_range,
    sum_labels, Best,
};
use crate::index::stats::{
    inc_blocks, inc_leaves, inc_nodes, inc_parts, set_early_hit, set_primary_hit, QueryStats,
};
use crate::index::tree::{
    bounded, covered, far_base, home_span, lemma_gap_bounds, lemma_home_range,
    lemma_near_far_placed, lemma_offer_range, lemma_part_bounds, lemma_part_placed, lemma_skip_node,
    lemma_tour_end, lemma_tour_far, lemma_tour_start, lemma_tour_step, near_base, node_span, offer,
    parts_in, placed, shallow, stack_ok, stack_weight, tour, STACK_ROOM,
};
use crate::{DIM, K, STORE_DIM};

verus! {

/// A search under way: the short list, whether the search is over, and the work done.
#[verifier::ext_equal]
pub struct Walk {
    pub best: Best,
    pub done: bool,
    pub stats: QueryStats,
}

impl Walk {
    pub open spec fn fresh(stats: QueryStats) -> Walk {
        Walk { best: Best::empty(), done: false, stats }
    }

    pub open spec fn counted(self, stats: QueryStats) -> Walk {
        Walk { stats, ..self }
    }
}

/// Scans `len` slots from `first` on, of which `k` are behind us, block by block.
pub open spec fn scan(slots: Seq<Slot>, q: Seq<i16>, w: Walk, first: int, len: int, k: int) -> Walk
    decreases len - k,
{
    if k >= len {
        w
    } else {
        let to = if k + LANES <= len {
            k + LANES
        } else {
            len
        };
        let b = offer(slots, q, w.best, first + k, first + to);
        let next = Walk { best: b, done: b.close_enough(), stats: w.stats.more_blocks() };
        if next.done {
            next
        } else {
            scan(slots, q, next, first, len, to)
        }
    }
}

/// Visits the tree below node `i`, whose box is `bound` away, with room to postpone `room` nodes.
pub open spec fn visit(f: Forest, q: Seq<i16>, i: int, bound: int, room: int, w: Walk) -> Walk
    decreases f.nodes.len() - i,
{
    if w.done || bound >= w.best.ceiling() || !f.has_node(i) {
        w
    } else {
        let n = f.nodes[i];
        let here = w.counted(w.stats.more_nodes());
        if n.is_leaf() {
            scan(f.slots, q, here.counted(here.stats.more_leaves()), n.first(), n.len as int, 0)
        } else if f.splits(i) {
            let near = f.near(q, i);
            let far = f.far(q, i);
            if f.node_gap(q, far) < w.best.ceiling() && room > 0 {
                visit(
                    f,
                    q,
                    far,
                    f.node_gap(q, far),
                    room,
                    visit(f, q, near, f.node_gap(q, near), room - 1, here),
                )
            } else {
                visit(f, q, near, f.node_gap(q, near), room, here)
            }
        } else {
            here
        }
    }
}

/// Visits the postponed nodes, the last one first.
pub open spec fn unwind(f: Forest, q: Seq<i16>, stack: Seq<(i32, i64)>, w: Walk) -> Walk
    decreases stack.len(),
{
    if stack.len() == 0 {
        w
    } else {
        unwind(
            f,
            q,
            stack.drop_last(),
            visit(
                f,
                q,
                stack.last().0 as int,
                stack.last().1 as int,
                STACK_ROOM - (stack.len() - 1),
                w,
            ),
        )
    }
}

/// Searches one tree.
pub open spec fn enter(f: Forest, q: Seq<i16>, root: int, bound: int, w: Walk) -> Walk {
    if f.has_node(root) {
        let v = visit(f, q, root, bound, STACK_ROOM as int, w);
        Walk { done: v.done || v.best.close_enough(), ..v }
    } else {
        w
    }
}

/// Searches the tree of the query's own partition.
pub open spec fn early_home(f: Forest, q: Seq<i16>, stats: QueryStats) -> Walk {
    let w = Walk::fresh(stats);
    let home = f.home_of(q);
    if home >= 0 {
        let v = enter(f, q, f.parts[home].root as int, 0, w.counted(stats.more_parts()));
        if v.done {
            v.counted(v.stats.with_primary_hit().with_early_hit())
        } else {
            v
        }
    } else {
        w
    }
}

/// Searches the partitions of a tour from number `k` on.
pub open spec fn early_tour(f: Forest, q: Seq<i16>, order: Seq<int>, k: int, w: Walk) -> Walk
    decreases order.len() - k,
{
    if k >= order.len() || w.done || f.part_gap(q, order[k]) >= w.best.ceiling() {
        w
    } else {
        let v = enter(
            f,
            q,
            f.parts[order[k]].root as int,
            f.part_gap(q, order[k]),
            w.counted(w.stats.more_parts()),
        );
        if v.done {
            v.counted(v.stats.with_early_hit())
        } else {
            early_tour(f, q, order, k + 1, v)
        }
    }
}

/// The state of a search in its working variables.
pub open spec fn walk_of(dists: [i64; K], labels: [u8; K], done: bool, stats: QueryStats) -> Walk {
    Walk { best: best_of(dists, labels), done, stats }
}

/// The labels in a short list are those of slots.
pub open spec fn labels_small(b: Best) -> bool {
    b.wf() && forall|k: int| 0 <= k < K ==> #[trigger] b.labels[k] <= 1
}

pub proof fn lemma_insert_small(b: Best, dist: i64, label: u8)
    requires
        labels_small(b),
        label <= 1,
    ensures
        labels_small(b.insert(dist, label)),
{
    lemma_insert_wf(b, dist, label);
    let n = b.insert(dist, label);
    if dist < b.ceiling() {
        lemma_place_range(b, dist, K - 1);
        let p = b.place(dist, K - 1);
        assert forall|k: int| 0 <= k < K implies #[trigger] n.labels[k] <= 1 by {
            if k < p {
                assert(n.labels[k] == b.labels[k]);
            } else if k > p {
                assert(n.labels[k] == b.labels[k - 1]);
            }
        }
    }
}

/// Offers a run of slots to a short list.
pub fn offer_slots(
    idx: &IndexReader,
    q: &[i16; STORE_DIM],
    lo: usize,
    hi: usize,
    dists: &mut [i64; K],
    labels: &mut [u8; K],
)
    requires
        idx.wf(),
        lo <= hi <= idx.slots().len(),
        labels_small(best_of(*old(dists), *old(labels))),
        forall|s: int| lo <= s < hi ==> (#[trigger] idx.slots()[s]).label <= 1,
    ensures
        best_of(*final(dists), *final(labels)) == offer(
            idx.slots(),
            q@,
            best_of(*old(dists), *old(labels)),
            lo as int,
            hi as int,
        ),
        labels_small(best_of(*final(dists), *final(labels))),
{
    let ghost start = best_of(*dists, *labels);
    let mut s: usize = lo;
    while s < hi
        invariant
            idx.wf(),
            lo <= s <= hi <= idx.slots().len(),
            forall|s: int| lo <= s < hi ==> (#[trigger] idx.slots()[s]).label <= 1,
            best_of(*dists, *labels) == offer(idx.slots(), q@, start, lo as int, s as int),
            labels_small(best_of(*dists, *labels)),
        decreases hi - s,
    {
        let d: i64 = idx.slot_distance(s, q);
        let ghost before = best_of(*dists, *labels);
        if d < dists[K - 1] {
            let label = idx.slot_label(s);
            insert_best(d, label, dists, labels);
        }
        proof {
            lemma_insert_small(before, d, idx.slots()[s as int].label);
        }
        s += 1;
    }
}

/// Scans a leaf. Returns whether the search is over.
fn scan_leaf(
    idx: &IndexReader,
    start_block: i32,
    len: i32,
    q: &[i16; STORE_DIM],
    dists: &mut [i64; K],
    labels: &mut [u8; K],
    stats: &mut QueryStats,
) -> (done: bool)
    requires
        idx.wf(),
        !is_clusters(idx.bytes()),
        start_block >= 0,
        len >= 0,
        start_block * LANES + len <= idx.forest().slots.len(),
        labels_small(best_of(*old(dists), *old(labels))),
        forall|s: int|
            start_block * LANES <= s < start_block * LANES + len ==> (
            #[trigger] idx.forest().slots[s]).label <= 1,
    ensures
        walk_of(*final(dists), *final(labels), done, *final(stats)) == scan(
            idx.forest().slots,
            q@,
            walk_of(*old(dists), *old(labels), false, old(stats).more_leaves()),
            start_block * LANES,
            len as int,
            0,
        ),
        labels_small(best_of(*final(dists), *final(labels))),
{
    let ghost goal = scan(
        idx.forest().slots,
        q@,
        walk_of(*dists, *labels, false, stats.more_leaves()),
        start_block * LANES,
        len as int,
        0,
    );
    let blocks_total = idx.block_count();
    inc_leaves(stats);
    let first: usize = start_block as usize * LANES;
    let total: usize = len as usize;
    let mut k: usize = 0;
    while k < total
        invariant
            idx.wf(),
            !is_clusters(idx.bytes()),
            first == start_block * LANES,
            total == len,
            k <= total,
            goal == scan(
                idx.forest().slots,
                q@,
                walk_of(*old(dists), *old(labels), false, old(stats).more_leaves()),
                start_block * LANES,
                len as int,
                0,
            ),
            first + total <= idx.forest().slots.len(),
            idx.forest().slots.len() == blocks_total * LANES,
            blocks_total < 0x200_0000,
            forall|s: int| first <= s < first + total ==> (#[trigger] idx.slots()[s]).label <= 1,
            labels_small(best_of(*dists, *labels)),
            goal == scan(
                idx.forest().slots,
                q@,
                walk_of(*dists, *labels, false, *stats),
                first as int,
                total as int,
                k as int,
            ),
        decreases total - k,
    {
        inc_blocks(stats);
        let to: usize = if total - k >= LANES {
            k + LANES
        } else {
            total
        };
        offer_slots(idx, q, first + k, first + to, dists, labels);
        if early_done(dists) {
            return true;
        }
        k = to;
    }
    false
}

proof fn lemma_unwind_done(f: Forest, q: Seq<i16>, stack: Seq<(i32, i64)>, w: Walk)
    requires
        w.done,
    ensures
        unwind(f, q, stack, w) == w,
    decreases stack.len(),
{
    if stack.len() > 0 {
        lemma_unwind_done(f, q, stack.drop_last(), w);
    }
}

/// Searches one tree. Returns whether the search is over.
fn search_node(
    idx: &IndexReader,
    root: i32,
    root_bound: i64,
    q: &[i16; STORE_DIM],
    dists: &mut [i64; K],
    labels: &mut [u8; K],
    stats: &mut QueryStats,
) -> (done: bool)
    requires
        idx.wf(),
        !is_clusters(idx.bytes()),
        is_searchable(idx.bytes()),
        labels_small(best_of(*old(dists), *old(labels))),
    ensures
        walk_of(*final(dists), *final(labels), done, *final(stats)) == enter(
            idx.forest(),
            q@,
            root as int,
            root_bound as int,
            walk_of(*old(dists), *old(labels), false, *old(stats)),
        ),
        labels_small(best_of(*final(dists), *final(labels))),
{
    let ghost f = idx.forest();
    if root < 0 || root as u32 >= idx.node_count() {
        return false;
    }
    let ghost goal = visit(
        f,
        q@,
        root as int,
        root_bound as int,
        STACK_ROOM as int,
        walk_of(*dists, *labels, false, *stats),
    );
    let mut stack: Vec<(i32, i64)> = Vec::new();
    let mut current: i32 = root;
    let mut bound: i64 = root_bound;
    assert(unwind(f, q@, stack@, goal) == goal);
    loop
        invariant_except_break
            goal == unwind(
                f,
                q@,
                stack@,
                visit(
                    f,
                    q@,
                    current as int,
                    bound as int,
                    STACK_ROOM - stack@.len(),
                    walk_of(*dists, *labels, false, *stats),
                ),
            ),
        invariant
            idx.wf(),
            !is_clusters(idx.bytes()),
            f == idx.forest(),
            f.wf(),
            f.has_node(root as int),
            goal == visit(
                f,
                q@,
                root as int,
                root_bound as int,
                STACK_ROOM as int,
                walk_of(*old(dists), *old(labels), false, *old(stats)),
            ),
            labels_small(best_of(*dists, *labels)),
            f.has_node(current as int),
            stack@.len() <= STACK_ROOM,
            stack_ok(f, stack@),
        ensures
            goal == walk_of(*dists, *labels, false, *stats),
        decreases f.weight(current as int) + stack_weight(f, stack@),
    {
        let ghost w = walk_of(*dists, *labels, false, *stats);
        if bound < dists[K - 1] {
            let (left, right, start, len) = idx.read_node_meta(current as usize);
            inc_nodes(stats);
            assert(f.node_ok(current as int));
            if left < 0 {
                let done = scan_leaf(idx, start, len, q, dists, labels, stats);
                if done {
                    proof {
                        lemma_unwind_done(
                            f,
                            q@,
                            stack@,
                            walk_of(*dists, *labels, true, *stats),
                        );
                    }
                    return true;
                }
            } else {
                let lb: i64 = idx.lower_bound_node(left as usize, q);
                let rb: i64 = idx.lower_bound_node(right as usize, q);
                let (near, near_b, far, far_b) = if lb <= rb {
                    (left, lb, right, rb)
                } else {
                    (right, rb, left, lb)
                };
                assert(near == f.near(q@, current as int) && far == f.far(q@, current as int));
                if far_b < dists[K - 1] && stack.len() < STACK_ROOM {
                    let ghost before = stack@;
                    stack.push((far, far_b));
                    assert(stack@.drop_last() =~= before);
                }
                current = near;
                bound = near_b;
                continue;
            }
        }
        if stack.len() == 0 {
            break;
        }
        let ghost before = stack@;
        let top = stack.pop().unwrap();
        assert(stack@ == before.drop_last());
        assert(top == before.last());
        current = top.0;
        bound = top.1;
    }
    early_done(dists)
}

/// What an early search can return: the sum of the labels on its short list, and the work done.
pub open spec fn early_result(
    f: Forest,
    q: Seq<i16>,
    stats: QueryStats,
    count: int,
    after: QueryStats,
) -> bool {
    let home = early_home(f, q, stats);
    if home.done {
        count == home.best.total() && after == home.stats
    } else {
        exists|order: Seq<int>| #[trigger]
            f.is_tour(q, home.best.ceiling() as int, order) && count == early_tour(
                f,
                q,
                order,
                0,
                home,
            ).best.total() && after == early_tour(f, q, order, 0, home).stats
    }
}

/// What an early search can count, whatever the work.
pub open spec fn is_early_count(f: Forest, q: Seq<i16>, count: int) -> bool {
    exists|after: QueryStats| #[trigger] early_result(f, q, QueryStats::zero(), count, after)
}

/// Searches the tree of the query's own partition. Returns the partition, and whether the search is
/// over.
fn search_home(
    idx: &IndexReader,
    q: &[i16; STORE_DIM],
    dists: &mut [i64; K],
    labels: &mut [u8; K],
    stats: &mut QueryStats,
) -> (r: (i64, bool))
    requires
        idx.wf(),
        !is_clusters(idx.bytes()),
        is_searchable(idx.bytes()),
        best_of(*old(dists), *old(labels)) == Best::empty(),
    ensures
        r.0 == idx.forest().home_of(q@),
        walk_of(*final(dists), *final(labels), r.1, *final(stats)) == early_home(
            idx.forest(),
            q@,
            *old(stats),
        ),
        labels_small(best_of(*final(dists), *final(labels))),
{
    let key = partition_key(q);
    let home: i64 = idx.part_by_key(key);
    proof {
        lemma_home_range(idx.forest(), key as int, idx.forest().parts.len() as int);
    }
    if home < 0 {
        return (home, false);
    }
    let (root, _len) = idx.read_partition_meta(home as usize);
    inc_parts(stats);
    let done = search_node(idx, root, 0, q, dists, labels, stats);
    if done {
        set_primary_hit(stats);
        set_early_hit(stats);
    }
    (home, done)
}

/// Counts the fraudulent ones among five neighbours: the nearest, or five close ones. The work
/// done is added to the counters.
pub(crate) fn fraud_count_early(
    idx: &IndexReader,
    q: &[i16; STORE_DIM],
    stats: &mut QueryStats,
) -> (count: u8)
    requires
        idx.wf(),
        !is_clusters(idx.bytes()),
        is_searchable(idx.bytes()),
    ensures
        early_result(idx.forest(), q@, *old(stats), count as int, *final(stats)),
        count <= K,
{
    let mut dists: [i64; K] = [i64::MAX; K];
    let mut labels: [u8; K] = [0u8; K];
    assert(best_of(dists, labels) =~= Best::empty());
    let (home, over) = search_home(idx, q, &mut dists, &mut labels, stats);
    if !over {
        search_tour(idx, q, home, &mut dists, &mut labels, stats);
    }
    proof {
        lemma_label_sum_bound(labels@);
    }
    sum_labels(&labels)
}

/// Counts the fraudulent ones among five neighbours: the nearest, or five close ones. The work is
/// not counted.
pub fn fraud_count_scalar(idx: &IndexReader, q: &[i16; STORE_DIM]) -> (count: u8)
    requires
        idx.wf(),
        !is_clusters(idx.bytes()),
        is_searchable(idx.bytes()),
    ensures
        is_early_count(idx.forest(), q@, count as int),
        count <= K,
{
    let mut stats = QueryStats::default();
    fraud_count_early(idx, q, &mut stats)
}

/// Searches the partitions behind the query's own.
fn search_tour(
    idx: &IndexReader,
    q: &[i16; STORE_DIM],
    home: i64,
    dists: &mut [i64; K],
    labels: &mut [u8; K],
    stats: &mut QueryStats,
)
    requires
        idx.wf(),
        !is_clusters(idx.bytes()),
        is_searchable(idx.bytes()),
        home == idx.forest().home_of(q@),
        labels_small(best_of(*old(dists), *old(labels))),
    ensures
        labels_small(best_of(*final(dists), *final(labels))),
        ({
            let w = walk_of(*old(dists), *old(labels), false, *old(stats));
            exists|order: Seq<int>| #[trigger]
                idx.forest().is_tour(q@, w.best.ceiling() as int, order) && best_of(
                    *final(dists),
                    *final(labels),
                ) == early_tour(idx.forest(), q@, order, 0, w).best && *final(stats) == early_tour(
                    idx.forest(),
                    q@,
                    order,
                    0,
                    w,
                ).stats
        }),
{
    let ghost f = idx.forest();
    let ghost start = walk_of(*dists, *labels, false, *stats);
    let order = tour(idx, q, home, dists[K - 1]);
    let ghost parts = parts_in(order@);
    let mut k: usize = 0;
    let mut done = false;
    while k < order.len() && !done && order[k].0 < dists[K - 1]
        invariant
            idx.wf(),
            !is_clusters(idx.bytes()),
            is_searchable(idx.bytes()),
            f == idx.forest(),
            labels_small(best_of(*dists, *labels)),
            k <= order@.len(),
            parts == parts_in(order@),
            forall|j: int|
                0 <= j < order@.len() ==> (#[trigger] order@[j]).0 == f.part_gap(
                    q@,
                    order@[j].1 as int,
                ) && order@[j].1 < f.parts.len(),
            early_tour(f, q@, parts, 0, start) == early_tour(
                f,
                q@,
                parts,
                k as int,
                walk_of(*dists, *labels, done, *stats),
            ),
        decreases order@.len() - k,
    {
        let p: usize = order[k].1;
        assert(parts[k as int] == p);
        let (root, _len) = idx.read_partition_meta(p);
        inc_parts(stats);
        done = search_node(idx, root, order[k].0, q, dists, labels, stats);
        if done {
            set_early_hit(stats);
        }
        k += 1;
    }
    proof {
        assert(k < parts.len() ==> parts[k as int] == order@[k as int].1);
        assert(f.is_tour(q@, start.best.ceiling() as int, parts));
    }
}

/// Whether a short list is full of close slots.
pub open spec fn settled(pts: Seq<Slot>, q: Seq<i16>, b: Best) -> bool {
    b.close_enough() && exists|cov: Set<int>| explained(pts, q, b, cov)
}

/// Whether a search has dealt with the slots in `cov`, or is over with close ones.
pub open spec fn reached(pts: Seq<Slot>, q: Seq<i16>, w: Walk, cov: Set<int>) -> bool {
    if w.done {
        settled(pts, q, w.best)
    } else {
        explained(pts, q, w.best, cov)
    }
}

proof fn lemma_scan(
    slots: Seq<Slot>,
    q: Seq<i16>,
    pts: Seq<Slot>,
    w: Walk,
    first: int,
    len: int,
    k: int,
    base: int,
    cov: Set<int>,
)
    requires
        !w.done,
        0 <= first,
        0 <= k <= len,
        first + len <= slots.len(),
        0 <= base,
        base + (len - k) <= pts.len(),
        pts.subrange(base, base + (len - k)) == slots.subrange(first + k, first + len),
        explained(pts, q, w.best, cov),
        cov.disjoint(span(base, base + (len - k))),
    ensures
        reached(
            pts,
            q,
            scan(slots, q, w, first, len, k),
            cov.union(span(base, base + (len - k))),
        ),
    decreases len - k,
{
    if k >= len {
        assert(cov.union(span(base, base + (len - k))) =~= cov);
    } else {
        let to = if k + LANES <= len {
            k + LANES
        } else {
            len
        };
        let n = len - k;
        let m = to - k;
        let all = pts.subrange(base, base + n);
        let src = slots.subrange(first + k, first + len);
        assert(pts.subrange(base, base + m) =~= all.subrange(0, m));
        assert(slots.subrange(first + k, first + to) =~= src.subrange(0, m));
        assert forall|i: int| !(cov.contains(i) && span(base, base + m).contains(i)) by {
            assert(!(cov.contains(i) && span(base, base + n).contains(i)));
        }
        lemma_offer_range(slots, q, pts, w.best, first + k, first + to, base, cov);
        let b = offer(slots, q, w.best, first + k, first + to);
        let next = Walk { best: b, done: b.close_enough(), stats: w.stats.more_blocks() };
        let mid = cov.union(span(base, base + m));
        if !next.done {
            assert(pts.subrange(base + m, base + n) =~= all.subrange(m, n));
            assert(slots.subrange(first + to, first + len) =~= src.subrange(m, n));
            assert forall|i: int| !(mid.contains(i) && span(base + m, base + n).contains(i)) by {
                assert(!(cov.contains(i) && span(base, base + n).contains(i)));
            }
            lemma_scan(slots, q, pts, next, first, len, to, base + m, mid);
            assert(mid.union(span(base + m, base + n)) =~= cov.union(span(base, base + n)));
        }
    }
}

/// Visiting a tree deals with its slots.
proof fn lemma_visit(
    f: Forest,
    q: Seq<i16>,
    pts: Seq<Slot>,
    i: int,
    bound: int,
    room: int,
    w: Walk,
    base: int,
    cov: Set<int>,
)
    requires
        f.wf(),
        f.boxes_ok(),
        f.has_node(i),
        f.depth(i) <= room,
        placed(f, pts, i, base),
        bounded(f, q, i, bound),
        reached(pts, q, w, cov),
        cov.disjoint(node_span(f, i, base)),
    ensures
        reached(pts, q, visit(f, q, i, bound, room, w), cov.union(node_span(f, i, base))),
    decreases f.nodes.len() - i,
{
    if w.done {
    } else if bound >= w.best.ceiling() {
        lemma_skip_node(f, q, pts, i, base, bound, w.best, cov);
    } else {
        let n = f.nodes[i];
        let here = w.counted(w.stats.more_nodes());
        assert(f.node_ok(i));
        if n.is_leaf() {
            let leaf = here.counted(here.stats.more_leaves());
            lemma_scan(f.slots, q, pts, leaf, n.first(), n.len as int, 0, base, cov);
        } else {
            let near = f.near(q, i);
            let far = f.far(q, i);
            let nb = near_base(f, q, i, base);
            let mb = far_base(f, q, i, base);
            lemma_near_far_placed(f, q, pts, i, base);
            assert(f.boxed(near) && f.boxed(far));
            lemma_gap_bounds(f, q, near);
            lemma_gap_bounds(f, q, far);
            let ns = node_span(f, near, nb);
            let ms = node_span(f, far, mb);
            assert(cov.union(ns).union(ms) =~= cov.union(node_span(f, i, base)));
            assert(cov.union(ms).union(ns) =~= cov.union(node_span(f, i, base)));
            assert forall|j: int| cov.contains(j) implies !ns.contains(j) && !ms.contains(j) by {
                assert(!node_span(f, i, base).contains(j));
            }
            if f.node_gap(q, far) < w.best.ceiling() && room > 0 {
                let v = visit(f, q, near, f.node_gap(q, near), room - 1, here);
                lemma_visit(f, q, pts, near, f.node_gap(q, near), room - 1, here, nb, cov);
                lemma_visit(f, q, pts, far, f.node_gap(q, far), room, v, mb, cov.union(ns));
            } else {
                lemma_skip_node(f, q, pts, far, mb, f.node_gap(q, far), w.best, cov);
                lemma_visit(f, q, pts, near, f.node_gap(q, near), room, here, nb, cov.union(ms));
            }
        }
    }
}

proof fn lemma_enter(f: Forest, q: Seq<i16>, p: int, bound: int, w: Walk, cov: Set<int>)
    requires
        f.wf(),
        f.boxes_ok(),
        shallow(f),
        0 <= p < f.parts.len(),
        bounded(f, q, f.parts[p].root as int, bound),
        reached(f.all_points(), q, w, cov),
        cov.disjoint(f.part_span(p)),
    ensures
        reached(
            f.all_points(),
            q,
            enter(f, q, f.parts[p].root as int, bound, w),
            cov.union(f.part_span(p)),
        ),
{
    let pts = f.all_points();
    let root = f.parts[p].root as int;
    if f.has_node(root) {
        lemma_part_placed(f, p, f.parts.len() as int);
        assert(f.depth(root) <= STACK_ROOM);
        lemma_visit(f, q, pts, root, bound, STACK_ROOM as int, w, f.part_base(p), cov);
    } else {
        assert(cov.union(f.part_span(p)) =~= cov);
    }
}

/// Going on with a tour deals with the rest of the slots.
proof fn lemma_early_tour(f: Forest, q: Seq<i16>, ceiling: int, order: Seq<int>, k: int, w: Walk)
    requires
        f.wf(),
        f.boxes_ok(),
        shallow(f),
        f.is_tour(q, ceiling, order),
        0 <= k <= order.len(),
        reached(f.all_points(), q, w, covered(f, order, k)),
    ensures
        reached(
            f.all_points(),
            q,
            early_tour(f, q, order, k, w),
            span(0, f.all_points().len() as int),
        ),
    decreases order.len() - k,
{
    let pts = f.all_points();
    if k >= order.len() {
        lemma_tour_end(f, order);
    } else if w.done {
    } else if f.part_gap(q, order[k]) >= w.best.ceiling() {
        let rest = span(0, pts.len() as int).difference(covered(f, order, k));
        assert forall|i: int| #[trigger] rest.contains(i) implies 0 <= i < pts.len() && distance(
            pts[i].vec,
            q,
        ) >= w.best.ceiling() by {
            lemma_tour_far(f, q, ceiling, order, k, i);
        }
        lemma_skip_far(pts, q, w.best, covered(f, order, k), rest);
        assert(covered(f, order, k).union(rest) =~= span(0, pts.len() as int));
    } else {
        let p = order[k];
        let here = w.counted(w.stats.more_parts());
        assert(f.part_boxed(p));
        lemma_part_bounds(f, q, p);
        lemma_tour_step(f, q, ceiling, order, k);
        lemma_enter(f, q, p, f.part_gap(q, p), here, covered(f, order, k));
        let v = enter(f, q, f.parts[p].root as int, f.part_gap(q, p), here);
        if !v.done {
            lemma_early_tour(f, q, ceiling, order, k + 1, v);
        }
    }
}

/// An early search over right boxes counts the labels of the five nearest slots, or of five slots
/// that are all close.
pub proof fn early_result_is_near(
    f: Forest,
    q: Seq<i16>,
    stats: QueryStats,
    count: int,
    after: QueryStats,
)
    requires
        f.wf(),
        f.boxes_ok(),
        shallow(f),
        early_result(f, q, stats, count, after),
    ensures
        is_nearest_count(f.all_points(), q, count) || is_close_count(f.all_points(), q, count),
{
    let pts = f.all_points();
    let home = f.home_of(q);
    let w = Walk::fresh(stats);
    let v = early_home(f, q, stats);
    lemma_explained_empty(pts, q);
    lemma_home_range(f, key_of(q), f.parts.len() as int);
    if home >= 0 {
        let root = f.parts[home].root as int;
        assert forall|k: int| 0 <= k < f.points(root).len() implies 0 <= distance(
            (#[trigger] f.points(root)[k]).vec,
            q,
        ) by {
            lemma_dist_bound(f.points(root)[k].vec, q, DIM as int);
        }
        lemma_enter(f, q, home, 0, w.counted(stats.more_parts()), Set::empty());
        assert(Set::<int>::empty().union(f.part_span(home)) =~= f.part_span(home));
    }
    if v.done {
        let cov = choose|cov: Set<int>| explained(pts, q, v.best, cov);
        lemma_close_cover(pts, q, v.best, cov);
    } else {
        let order = choose|order: Seq<int>| #[trigger]
            f.is_tour(q, v.best.ceiling() as int, order) && count == early_tour(
                f,
                q,
                order,
                0,
                v,
            ).best.total() && after == early_tour(f, q, order, 0, v).stats;
        lemma_tour_start(f, q, v.best, order, home_span(f, q));
        lemma_early_tour(f, q, v.best.ceiling() as int, order, 0, v);
        let r = early_tour(f, q, order, 0, v);
        if r.done {
            let cov = choose|cov: Set<int>| explained(pts, q, r.best, cov);
            lemma_close_cover(pts, q, r.best, cov);
        } else {
            lemma_full_cover(pts, q, r.best);
        }
    }
}

/// Scanning slots leaves the notes on how a search ended alone.
proof fn lemma_scan_notes(slots: Seq<Slot>, q: Seq<i16>, w: Walk, first: int, len: int, k: int)
    ensures
        ({
            let r = scan(slots, q, w, first, len, k).stats;
            &&& r.primary_hit == w.stats.primary_hit
            &&& r.early_hit == w.stats.early_hit
            &&& r.nodes == w.stats.nodes
            &&& r.leaves == w.stats.leaves
            &&& r.partitions == w.stats.partitions
        }),
    decreases len - k,
{
    if k < len {
        let to = if k + LANES <= len {
            k + LANES
        } else {
            len
        };
        let b = offer(slots, q, w.best, first + k, first + to);
        let next = Walk { best: b, done: b.close_enough(), stats: w.stats.more_blocks() };
        lemma_scan_notes(slots, q, next, first, len, to);
    }
}

/// Visiting a tree leaves the notes on how a search ended alone, and counts no partition.
pub proof fn lemma_visit_notes(f: Forest, q: Seq<i16>, i: int, bound: int, room: int, w: Walk)
    ensures
        ({
            let r = visit(f, q, i, bound, room, w).stats;
            &&& r.primary_hit == w.stats.primary_hit
            &&& r.early_hit == w.stats.early_hit
            &&& r.partitions == w.stats.partitions
        }),
    decreases f.nodes.len() - i,
{
    if !(w.done || bound >= w.best.ceiling() || !f.has_node(i)) {
        let n = f.nodes[i];
        let here = w.counted(w.stats.more_nodes());
        if n.is_leaf() {
            let leaf = here.counted(here.stats.more_leaves());
            lemma_scan_notes(f.slots, q, leaf, n.first(), n.len as int, 0);
        } else if f.splits(i) {
            let near = f.near(q, i);
            let far = f.far(q, i);
            if f.node_gap(q, far) < w.best.ceiling() && room > 0 {
                let v = visit(f, q, near, f.node_gap(q, near), room - 1, here);
                lemma_visit_notes(f, q, near, f.node_gap(q, near), room - 1, here);
                lemma_visit_notes(f, q, far, f.node_gap(q, far), room, v);
            } else {
                lemma_visit_notes(f, q, near, f.node_gap(q, near), room, here);
            }
        }
    }
}

/// A tour that ends early notes it.
proof fn lemma_tour_notes(f: Forest, q: Seq<i16>, order: Seq<int>, k: int, w: Walk)
    requires
        !w.done,
    ensures
        ({
            let r = early_tour(f, q, order, k, w);
            &&& r.stats.primary_hit == w.stats.primary_hit
            &&& r.stats.early_hit == (w.stats.early_hit || r.done)
        }),
    decreases order.len() - k,
{
    if !(k >= order.len() || f.part_gap(q, order[k]) >= w.best.ceiling()) {
        let here = w.counted(w.stats.more_parts());
        let root = f.parts[order[k]].root as int;
        let bound = f.part_gap(q, order[k]);
        lemma_visit_notes(f, q, root, bound, STACK_ROOM as int, here);
        let v = enter(f, q, root, bound, here);
        if !v.done {
            lemma_tour_notes(f, q, order, k + 1, v);
        }
    }
}

/// The notes tell how an early search ended: in the query's own partition, or early at all. Where it
/// ended early, it counts five close slots, and where it did not, the five nearest.
pub proof fn notes_tell_how_a_search_ended(f: Forest, q: Seq<i16>, count: int, after: QueryStats)
    requires
        f.wf(),
        f.boxes_ok(),
        shallow(f),
        early_result(f, q, QueryStats::zero(), count, after),
    ensures
        after.primary_hit ==> after.early_hit,
        after.primary_hit <==> early_home(f, q, QueryStats::zero()).done,
        after.early_hit ==> is_close_count(f.all_points(), q, count),
        !after.early_hit ==> is_nearest_count(f.all_points(), q, count),
{
    let stats = QueryStats::zero();
    let pts = f.all_points();
    let home = f.home_of(q);
    let w = Walk::fresh(stats);
    let v = early_home(f, q, stats);
    lemma_explained_empty(pts, q);
    lemma_home_range(f, key_of(q), f.parts.len() as int);
    if home >= 0 {
        let root = f.parts[home].root as int;
        assert forall|k: int| 0 <= k < f.points(root).len() implies 0 <= distance(
            (#[trigger] f.points(root)[k]).vec,
            q,
        ) by {
            lemma_dist_bound(f.points(root)[k].vec, q, DIM as int);
        }
        lemma_enter(f, q, home, 0, w.counted(stats.more_parts()), Set::empty());
        lemma_visit_notes(f, q, root, 0, STACK_ROOM as int, w.counted(stats.more_parts()));
        assert(Set::<int>::empty().union(f.part_span(home)) =~= f.part_span(home));
    }
    if v.done {
        let cov = choose|cov: Set<int>| explained(pts, q, v.best, cov);
        lemma_close_cover(pts, q, v.best, cov);
    } else {
        let order = choose|order: Seq<int>| #[trigger]
            f.is_tour(q, v.best.ceiling() as int, order) && count == early_tour(
                f,
                q,
                order,
                0,
                v,
            ).best.total() && after == early_tour(f, q, order, 0, v).stats;
        lemma_tour_start(f, q, v.best, order, home_span(f, q));
        lemma_early_tour(f, q, v.best.ceiling() as int, order, 0, v);
        lemma_tour_notes(f, q, order, 0, v);
        let r = early_tour(f, q, order, 0, v);
        if r.done {
            let cov = choose|cov: Set<int>| explained(pts, q, r.best, cov);
            lemma_close_cover(pts, q, r.best, cov);
        } else {
            lemma_full_cover(pts, q, r.best);
        }
    }
}

} // verus!
