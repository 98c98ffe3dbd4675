//! How a search that is content with close slots goes on and ends.

use vstd::prelude::*;
use crate::index::early::{
    early_home, early_result, early_tour, enter, lemma_visit_notes, scan, visit, Walk,
};
use crate::index::hunt::Chase;
use crate::index::model::{Forest, Slot};
use crate::index::shortlist::{label_sum, Best};
use crate::index::stats::QueryStats;
use crate::index::tree::offer;

verus! {

proof fn lemma_offered(slots: Seq<Slot>, q: Seq<i16>, b: Best, lo: int, mid: int, hi: int)
    requires
        lo <= mid <= hi,
    ensures
        offer(slots, q, offer(slots, q, b, lo, mid), mid, hi) == offer(slots, q, b, lo, hi),
    decreases hi - mid,
{
    if mid < hi {
        lemma_offered(slots, q, b, lo, mid, hi - 1);
    }
}

/// So many slots make up the first `m` blocks of `len` slots.
pub open spec fn in_blocks(m: int, len: int) -> int {
    if 8 * m <= len {
        8 * m
    } else {
        len
    }
}

/// Whether `r` comes of scanning the first `m` blocks of `len` slots: all of them, or so many that the
/// list was full of close slots for the first time behind the last of them.
pub open spec fn is_scan(
    slots: Seq<Slot>,
    q: Seq<i16>,
    w: Walk,
    first: int,
    len: int,
    m: int,
    r: Walk,
) -> bool {
    &&& 0 <= m
    &&& 8 * m < len + 8
    &&& r.best == offer(slots, q, w.best, first, first + in_blocks(m, len))
    &&& r.done ==> m > 0 && r.best.dists[4] <= 1400 * 1400
    &&& !r.done ==> 8 * m >= len
    &&& !r.done && m > 0 ==> r.best.dists[4] > 1400 * 1400
    &&& forall|j: int|
        0 < j < m ==> #[trigger] offer(slots, q, w.best, first, first + 8 * j).dists[4] > 1400 * 1400
    &&& r.stats.blocks == (w.stats.blocks + m) % 0x1_0000_0000
}

proof fn lemma_scanned(
    slots: Seq<Slot>,
    q: Seq<i16>,
    w: Walk,
    first: int,
    len: int,
    v: Walk,
    k: int,
) -> (m: int)
    requires
        0 <= k,
        8 * k < len + 8,
        !v.done,
        v.best == offer(slots, q, w.best, first, first + in_blocks(k, len)),
        k > 0 ==> v.best.dists[4] > 1400 * 1400,
        forall|j: int|
            0 < j < k ==> #[trigger] offer(slots, q, w.best, first, first + 8 * j).dists[4] > 1400
                * 1400,
        v.stats.blocks == (w.stats.blocks + k) % 0x1_0000_0000,
    ensures
        is_scan(slots, q, w, first, len, m, scan(slots, q, v, first, len, in_blocks(k, len))),
    decreases len + 8 - 8 * k,
{
    let at = in_blocks(k, len);
    if at >= len {
        k
    } else {
        let to = in_blocks(k + 1, len);
        lemma_offered(slots, q, w.best, first, first + at, first + to);
        let b = offer(slots, q, v.best, first + at, first + to);
        let next = Walk { best: b, done: b.close_enough(), stats: v.stats.more_blocks() };
        assert forall|j: int| 0 < j < k + 1 implies #[trigger] offer(
            slots,
            q,
            w.best,
            first,
            first + 8 * j,
        ).dists[4] > 1400 * 1400 by {
            if j == k {
                assert(at == 8 * k);
            }
        }
        if next.done {
            k + 1
        } else {
            lemma_scanned(slots, q, w, first, len, next, k + 1)
        }
    }
}

/// A scan goes through a leaf block by block. It ends behind the block that fills the list with close
/// slots, or with the leaf, and counts the blocks that it went through.
pub proof fn scans_end_when_close(
    slots: Seq<Slot>,
    q: Seq<i16>,
    w: Walk,
    first: int,
    len: int,
) -> (m: int)
    requires
        !w.done,
        0 <= len,
    ensures
        is_scan(slots, q, w, first, len, m, scan(slots, q, w, first, len, 0)),
{
    lemma_scanned(slots, q, w, first, len, w, 0)
}

/// Whether `r` comes of scanning the first `m` blocks of a leaf.
pub open spec fn is_leaf_scan(f: Forest, q: Seq<i16>, w: Walk, i: int, m: int, r: Walk) -> bool {
    is_scan(f.slots, q, w, 8 * f.nodes[i].start, f.nodes[i].len as int, m, r)
}

/// A search that is over, or whose list ends before a node begins, leaves the node alone. A leaf
/// that is visited counts as a node and as a leaf.
pub proof fn nodes_are_visited(f: Forest, q: Seq<i16>, i: int, bound: int, room: int, w: Walk)
    requires
        f.has_node(i),
    ensures
        w.done || bound >= w.best.dists[4] ==> visit(f, q, i, bound, room, w) == w,
        !w.done && bound < w.best.dists[4] && f.nodes[i].left < 0 && f.nodes[i].len >= 0 ==> {
            let r = visit(f, q, i, bound, room, w);
            &&& r.stats.nodes == (w.stats.nodes + 1) % 0x1_0000_0000
            &&& r.stats.leaves == (w.stats.leaves + 1) % 0x1_0000_0000
            &&& exists|m: int| #[trigger] is_leaf_scan(f, q, w, i, m, r)
        },
        visit(f, q, i, bound, room, w).stats.partitions == w.stats.partitions,
{
    lemma_visit_notes(f, q, i, bound, room, w);
    if !w.done && bound < w.best.dists[4] && f.nodes[i].left < 0 && f.nodes[i].len >= 0 {
        let n = f.nodes[i];
        let here = w.counted(w.stats.more_nodes().more_leaves());
        let m = scans_end_when_close(f.slots, q, here, n.first(), n.len as int);
        lemma_scan_keeps(f.slots, q, here, n.first(), n.len as int, 0);
        let r = visit(f, q, i, bound, room, w);
        assert(r == scan(f.slots, q, here, n.first(), n.len as int, 0));
        assert(is_leaf_scan(f, q, w, i, m, r));
    }
}

proof fn lemma_scan_keeps(slots: Seq<Slot>, q: Seq<i16>, w: Walk, first: int, len: int, k: int)
    ensures
        scan(slots, q, w, first, len, k).stats.nodes == w.stats.nodes,
        scan(slots, q, w, first, len, k).stats.leaves == w.stats.leaves,
    decreases len - k,
{
    if k < len {
        let to = if k + 8 <= len {
            k + 8
        } else {
            len
        };
        let b = offer(slots, q, w.best, first + k, first + to);
        let next = Walk { best: b, done: b.close_enough(), stats: w.stats.more_blocks() };
        lemma_scan_keeps(slots, q, next, first, len, to);
    }
}

/// Of two children the one with the closer box is visited first, and the left one of two that are
/// equally close.
pub proof fn closer_children_come_first(f: Forest, q: Seq<i16>, i: int)
    ensures
        ({
            let (l, r) = (f.nodes[i].left as int, f.nodes[i].right as int);
            let (near, far) = (f.near(q, i), f.far(q, i));
            &&& (near == l && far == r) || (near == r && far == l)
            &&& f.node_gap(q, near) <= f.node_gap(q, far)
            &&& f.node_gap(q, l) == f.node_gap(q, r) ==> near == l
        }),
{
}

proof fn lemma_scan_same(
    slots: Seq<Slot>,
    q: Seq<i16>,
    w: Walk,
    v: Walk,
    first: int,
    len: int,
    k: int,
)
    requires
        w.best == v.best,
        w.done == v.done,
    ensures
        scan(slots, q, w, first, len, k).best == scan(slots, q, v, first, len, k).best,
        scan(slots, q, w, first, len, k).done == scan(slots, q, v, first, len, k).done,
    decreases len - k,
{
    if k < len {
        let to = if k + 8 <= len {
            k + 8
        } else {
            len
        };
        let b = offer(slots, q, w.best, first + k, first + to);
        lemma_scan_same(
            slots,
            q,
            Walk { best: b, done: b.close_enough(), stats: w.stats.more_blocks() },
            Walk { best: b, done: b.close_enough(), stats: v.stats.more_blocks() },
            first,
            len,
            to,
        );
    }
}

proof fn lemma_visit_same(
    f: Forest,
    q: Seq<i16>,
    i: int,
    bound: int,
    room: int,
    w: Walk,
    v: Walk,
)
    requires
        w.best == v.best,
        w.done == v.done,
    ensures
        visit(f, q, i, bound, room, w).best == visit(f, q, i, bound, room, v).best,
        visit(f, q, i, bound, room, w).done == visit(f, q, i, bound, room, v).done,
    decreases f.nodes.len() - i,
{
    if !(w.done || bound >= w.best.ceiling() || !f.has_node(i)) {
        let n = f.nodes[i];
        let a = w.counted(w.stats.more_nodes());
        let b = v.counted(v.stats.more_nodes());
        if n.is_leaf() {
            lemma_scan_same(
                f.slots,
                q,
                a.counted(a.stats.more_leaves()),
                b.counted(b.stats.more_leaves()),
                n.first(),
                n.len as int,
                0,
            );
        } else if f.splits(i) {
            let near = f.near(q, i);
            let far = f.far(q, i);
            let g = f.node_gap(q, near);
            if f.node_gap(q, far) < w.best.ceiling() && room > 0 {
                lemma_visit_same(f, q, near, g, room - 1, a, b);
                lemma_visit_same(
                    f,
                    q,
                    far,
                    f.node_gap(q, far),
                    room,
                    visit(f, q, near, g, room - 1, a),
                    visit(f, q, near, g, room - 1, b),
                );
            } else {
                lemma_visit_same(f, q, near, g, room, a, b);
            }
        }
    }
}

proof fn lemma_tour_same(f: Forest, q: Seq<i16>, order: Seq<int>, k: int, w: Walk, v: Walk)
    requires
        w.best == v.best,
        w.done == v.done,
    ensures
        early_tour(f, q, order, k, w).best == early_tour(f, q, order, k, v).best,
    decreases order.len() - k,
{
    if !(k >= order.len() || w.done || f.part_gap(q, order[k]) >= w.best.ceiling()) {
        let a = w.counted(w.stats.more_parts());
        let b = v.counted(v.stats.more_parts());
        let root = f.parts[order[k]].root as int;
        let g = f.part_gap(q, order[k]);
        lemma_visit_same(f, q, root, g, 128, a, b);
        let x = enter(f, q, root, g, a);
        let y = enter(f, q, root, g, b);
        if !x.done {
            lemma_tour_same(f, q, order, k + 1, x, y);
        }
    }
}

/// What a search counts does not depend on what the counters held before.
pub proof fn counters_do_not_matter(
    f: Forest,
    q: Seq<i16>,
    s: QueryStats,
    t: QueryStats,
    count: int,
    after: QueryStats,
)
    requires
        early_result(f, q, s, count, after),
    ensures
        exists|other: QueryStats| #[trigger] early_result(f, q, t, count, other),
{
    let x = early_home(f, q, s);
    let y = early_home(f, q, t);
    let home = f.home_of(q);
    if home >= 0 {
        lemma_visit_same(
            f,
            q,
            f.parts[home].root as int,
            0,
            128,
            Walk::fresh(s).counted(s.more_parts()),
            Walk::fresh(t).counted(t.more_parts()),
        );
    }
    assert(x.best == y.best && x.done == y.done);
    if x.done {
        assert(early_result(f, q, t, count, y.stats));
    } else {
        let order = choose|order: Seq<int>| #[trigger]
            f.is_tour(q, x.best.ceiling() as int, order) && count == early_tour(
                f,
                q,
                order,
                0,
                x,
            ).best.total() && after == early_tour(f, q, order, 0, x).stats;
        lemma_tour_same(f, q, order, 0, x, y);
        assert(early_result(f, q, t, count, early_tour(f, q, order, 0, y).stats));
    }
}

/// An exact search that holds five slots of one label sets a tree aside just where the tree has no
/// slot of the other label. It looks into the trees that it set aside once its five slots are no
/// longer of that label.
pub proof fn trees_of_one_label_can_wait(h: Chase, kinds: u8)
    requires
        kinds < 4,
    ensures
        h.skips(kinds) <==> h.pinned && !h.draining && label_sum(h.best.labels) == h.anchor && (
        if h.anchor == 0 {
            kinds < 2
        } else {
            kinds % 2 == 0
        }),
        h.is_unsettled() <==> h.pinned && label_sum(h.best.labels) != h.anchor,
{
    assert(kinds & 2 == 0 <==> kinds < 2) by (bit_vector)
        requires
            kinds < 4,
    ;
    assert(kinds & 1 == 0 <==> kinds % 2 == 0) by (bit_vector);
}

/// The first list that is full and of one label is noted, and no other after it; nothing is noted
/// while trees that were set aside are looked into.
pub proof fn one_label_is_noted(h: Chase, dist: i64, label: u8)
    ensures
        ({
            let r = h.accepted(dist, label);
            let n = label_sum(r.best.labels);
            let full = r.best.dists[4] < i64::MAX;
            &&& dist >= h.best.dists[4] ==> r == h
            &&& dist < h.best.dists[4] ==> r.best == h.best.insert(dist, label)
            &&& r.parked == h.parked && r.draining == h.draining
            &&& h.pinned ==> r.pinned && r.anchor == h.anchor
            &&& !h.pinned && r.pinned ==> full && !h.draining && (n == 0 || n == 5) && r.anchor == n
            &&& !h.pinned && !h.draining && dist < h.best.dists[4] && full && (n == 0 || n == 5)
                ==> r.pinned
        }),
{
}

} // verus!
